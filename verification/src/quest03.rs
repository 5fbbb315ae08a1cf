//! Dice whose faces turn by a rule of their own roll along a track of
//! digits.

pub mod die;
pub mod field;
pub mod games;
pub mod numbers;
pub mod race;
pub mod roam;

use vstd::prelude::*;
use crate::quest03::games::{dice_of, is_rounds, parse_dice, play_rounds, rounds_to_win};
use crate::quest03::race::{ints, parse_track, race, race_start, run_race, track_of};
use crate::quest03::roam::{field_of, is_cells, parse_cells, roam_count, roam_field};
use crate::text::{lines_of, parted, split_emptyline, split_lines, trim, views};

verus! {

/// The answer to the first part: the number of rounds that the dice of the
/// notes take to make more than ten thousand points.
pub open spec fn part1_of(input: Seq<u8>) -> Option<int> {
    match dice_of(input) {
        None => None,
        Some(dice) => rounds_to_win(dice, 0, 0),
    }
}

/// The answer to the second part: the numbers of the dice in the order in
/// which they reach the end of the track. The notes hold the dice, a blank
/// line, and the track.
pub open spec fn part2_of(input: Seq<u8>) -> Option<Seq<int>> {
    match parted(input) {
        None => None,
        Some((dice, track)) => match (track_of(track), dice_of(dice)) {
            (Some(track), Some(dice)) => race(track, race_start(dice)),
            _ => None,
        },
    }
}

/// The answer to the third part: how many cells of the field the dice come
/// to. The notes hold the dice, a blank line, and the field.
pub open spec fn part3_of(input: Seq<u8>) -> Option<int> {
    match parted(input) {
        None => None,
        Some((dice, field)) => match (field_of(field), dice_of(dice)) {
            (Some(f), Some(dice)) => roam_count(f, dice),
            _ => None,
        },
    }
}

/// `r` holds `want`, or nothing as `want` does.
pub open spec fn is_order(r: Option<Vec<usize>>, want: Option<Seq<int>>) -> bool {
    match r {
        Some(ids) => want == Some(ints(ids@)),
        None => want is None,
    }
}

/// The answers to the three parts, each from its own notes.
pub fn solve(part1: &[u8], part2: &[u8], part3: &[u8]) -> (r: (
    Option<u64>,
    Option<Vec<usize>>,
    Option<usize>,
))
    ensures
        is_rounds(r.0, part1_of(part1@)),
        is_order(r.1, part2_of(part2@)),
        is_cells(r.2, part3_of(part3@)),
{
    (solve_part1(part1), solve_part2(part2), solve_part3(part3))
}

/// How many rounds the dice take to make more than ten thousand points,
/// when every die is rolled once in each round.
pub fn solve_part1(input: &[u8]) -> (r: Option<u64>)
    ensures
        is_rounds(r, part1_of(input@)),
{
    match parse_dice(input) {
        Some(dice) => play_rounds(dice),
        None => None,
    }
}

/// The numbers of the dice in the order in which they reach the end of the
/// track.
pub fn solve_part2(input: &[u8]) -> (r: Option<Vec<usize>>)
    ensures
        is_order(r, part2_of(input@)),
{
    let (dice, track) = match split_emptyline(input) {
        Some(parts) => parts,
        None => {
            return None;
        },
    };
    let track = match parse_track(track) {
        Some(track) => track,
        None => {
            return None;
        },
    };
    match parse_dice(dice) {
        Some(dice) => run_race(dice, &track),
        None => None,
    }
}

/// How many cells of the field the dice come to, one die roaming after the
/// other.
pub fn solve_part3(input: &[u8]) -> (r: Option<usize>)
    ensures
        is_cells(r, part3_of(input@)),
{
    let (dice, track) = match split_emptyline(input) {
        Some(parts) => parts,
        None => {
            return None;
        },
    };
    let lines = split_lines(track);
    if lines.len() == 0 {
        return None;
    }
    let width = lines[0].len();
    proof {
        assert(lines_of(track@)[0] == lines@[0]@);
    }
    let cells = match parse_cells(trim(track)) {
        Some(cells) => cells,
        None => {
            return None;
        },
    };
    if cells.len() > 0 && (width == 0 || cells.len() % width != 0) {
        return None;
    }
    match parse_dice(dice) {
        Some(dice) => roam_field(dice, cells, width),
        None => None,
    }
}

} // verus!
