//! The same game, played the plain way: one token after the other, and for
//! the third part every assignment tried in turn.

use vstd::prelude::*;
use crate::quest01::board::RowBits;
use crate::quest01::errors::Error;
use crate::quest01::exhaustive::min_max_exhaustive;
use crate::quest01::notes::parse_notes;
use crate::quest01::parts::{
    from_best_slots, from_own_slots, is_part3_answer, is_sum, part1_of, part2_of,
    rewards_from_best_slots, rewards_from_own_slots, sum_found,
};
use crate::quest01::scoring::{build_matrix_in_turn, moves_views};

verus! {

/// The answers to the three parts, each from the notes of its own game.
pub fn solve(part1: &[u8], part2: &[u8], part3: &[u8]) -> (r: (
    Result<u128, Error>,
    Result<u128, Error>,
    Result<(u128, u128), Error>,
))
    ensures
        is_sum(r.0, part1_of(part1@, 64)),
        is_sum(r.1, part2_of(part2@, 64)),
        is_part3_answer(part3@, 64, r.2),
{
    (solve_part1(part1), solve_part2(part2), solve_part3(part3))
}

/// What the tokens win together when each starts from the slot of its own
/// number.
pub fn solve_part1(input: &[u8]) -> (r: Result<u128, Error>)
    ensures
        is_sum(r, part1_of(input@, 64)),
{
    let notes = match parse_notes(input, RowBits::Bits64) {
        Ok(notes) => notes,
        Err(e) => {
            return Err(e);
        },
    };
    let found = rewards_from_own_slots(&notes);
    sum_found(&found, Ghost(from_own_slots(notes.board@, moves_views(notes.tokens@))))
}

/// What the tokens win together when each starts from the slot that is best
/// for it.
pub fn solve_part2(input: &[u8]) -> (r: Result<u128, Error>)
    ensures
        is_sum(r, part2_of(input@, 64)),
{
    let notes = match parse_notes(input, RowBits::Bits64) {
        Ok(notes) => notes,
        Err(e) => {
            return Err(e);
        },
    };
    let found = rewards_from_best_slots(&notes);
    sum_found(&found, Ghost(from_best_slots(notes.board@, moves_views(notes.tokens@))))
}

/// The least and the greatest that the tokens win together when no two
/// start from the same slot, found by trying every assignment.
pub fn solve_part3(input: &[u8]) -> (r: Result<(u128, u128), Error>)
    ensures
        is_part3_answer(input@, 64, r),
{
    let notes = match parse_notes(input, RowBits::Bits64) {
        Ok(notes) => notes,
        Err(e) => {
            return Err(e);
        },
    };
    let slots = notes.board.width() / 2 + 1;
    let slot_values = match build_matrix_in_turn(&notes.board, &notes.tokens, slots) {
        Ok(m) => m,
        Err(e) => {
            return Err(e);
        },
    };
    min_max_exhaustive(&slot_values)
}

} // verus!
