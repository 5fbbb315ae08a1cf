//! A token falls through a board of nails; a list of moves tells it which
//! way to bounce at each nail it meets, and the slot it ends in decides how
//! many coins it wins.

pub mod assignment;
pub mod bitmask;
pub mod board;
pub mod errors;
pub mod exhaustive;
pub mod hungarian;
pub mod matrix;
pub mod notes;
pub mod parallel;
pub mod parts;
pub mod problem01;
pub mod scoring;
pub mod sums;

use vstd::prelude::*;
use crate::quest01::board::{is_coins, Direction, RowBits};
use crate::quest01::errors::Error;
use crate::quest01::hungarian::{hungarian_rect, solve_part3_max};
use crate::quest01::notes::parse_notes;
use crate::quest01::parallel::par_map;
use crate::quest01::parts::{
    best_reward, from_best_slots, from_own_slots, is_part3_answer, is_sum, part1_of,
    part2_of, rewards_from_own_slots, sum_found,
};
use crate::quest01::scoring::{build_matrix, moves_views};

verus! {

/// The answers to the three parts, each from the notes of its own game.
pub fn solve(part1: &[u8], part2: &[u8], part3: &[u8]) -> (r: (
    Result<u128, Error>,
    Result<u128, Error>,
    Result<(u128, u128), Error>,
))
    ensures
        is_sum(r.0, part1_of(part1@, 32)),
        is_sum(r.1, part2_of(part2@, 32)),
        is_part3_answer(part3@, 64, r.2),
{
    (solve_part1(part1), solve_part2(part2), solve_part3(part3))
}

/// What the tokens win together when each starts from the slot of its own
/// number. The board may be 32 columns wide.
pub fn solve_part1(input: &[u8]) -> (r: Result<u128, Error>)
    ensures
        is_sum(r, part1_of(input@, 32)),
{
    let notes = match parse_notes(input, RowBits::Bits32) {
        Ok(notes) => notes,
        Err(e) => {
            return Err(e);
        },
    };
    let found = rewards_from_own_slots(&notes);
    sum_found(
        &found,
        Ghost(from_own_slots(notes.board@, moves_views(notes.tokens@))),
    )
}

/// What the tokens win together when each starts from the slot that is best
/// for it. The tokens are tried side by side. The board may be 32 columns
/// wide.
pub fn solve_part2(input: &[u8]) -> (r: Result<u128, Error>)
    ensures
        is_sum(r, part2_of(input@, 32)),
{
    let notes = match parse_notes(input, RowBits::Bits32) {
        Ok(notes) => notes,
        Err(e) => {
            return Err(e);
        },
    };
    let width = notes.board.width();
    let ghost b = notes.board@;
    let ghost tokens = moves_views(notes.tokens@);
    let board = &notes.board;
    let best = |moves: &Vec<Direction>| -> (r: Result<u64, Error>)
        ensures
            is_coins(r, best_reward(board@, board.spec_width(), moves@)),
        { board.best_reward(moves) };
    let found = par_map(&notes.tokens, best);
    proof {
        assert forall|i: int| 0 <= i < found@.len() implies is_coins(
            #[trigger] found@[i],
            from_best_slots(b, tokens)(i),
        ) by {
            assert(tokens[i] == notes.tokens@[i]@);
        }
    }
    sum_found(&found, Ghost(from_best_slots(b, tokens)))
}

/// The least and the greatest that the tokens win together when no two
/// start from the same slot, each found as a cheapest assignment. The board
/// may be 64 columns wide.
pub fn solve_part3(input: &[u8]) -> (r: Result<(u128, u128), Error>)
    ensures
        is_part3_answer(input@, 64, r),
{
    let notes = match parse_notes(input, RowBits::Bits64) {
        Ok(notes) => notes,
        Err(e) => {
            return Err(e);
        },
    };
    let slots = notes.board.width() / 2 + 1;
    let token_slot_values = match build_matrix(&notes.board, &notes.tokens, slots) {
        Ok(m) => m,
        Err(e) => {
            return Err(e);
        },
    };
    let min = match hungarian_rect(&token_slot_values) {
        Ok(min) => min,
        Err(e) => {
            return Err(e);
        },
    };
    match solve_part3_max(&token_slot_values) {
        Ok(max) => Ok((min, max)),
        Err(e) => Err(e),
    }
}

} // verus!
