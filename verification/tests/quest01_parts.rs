use quests::quest01::bitmask::min_max_bitmask;
use quests::quest01::board::{parse_moves, Board, RowBits};
use quests::quest01::errors::Error;
use quests::quest01::hungarian::{hungarian_rect, solve_part3_max};
use quests::quest01::notes::parse_notes;
use quests::quest01::problem01;
use quests::quest01::scoring::{build_matrix, build_matrix_in_turn};
use quests::quest01::{solve, solve_part1, solve_part2, solve_part3};

const SAMPLE2_PART3: &str = "\
*.*.*.*.*.*.*...*.........*.....*.*....\n\
.*.*.*.*.*.*.*.*.*.*.....*.*...*.*...*.\n\
*.*.*.*.*.*.*.*.........*.*.*.*.*.*.*..\n\
.*.*.*.*.*...*.........*...*.*.*...*...\n\
*.*.*.*.*...*.*.*.......*.*.*.*...*...*\n\
.*.*.*.*...*.*.*.*.......*.....*.*.*.*.\n\
*.*...*.*.*.*...*.*.*.*.*...*...*......\n\
.*.....*.*.*...*...*.....*.*.....*.....\n\
..*.*...*.....*...*...*.*.*.*...*.*.*.*\n\
.*.*.*.*.*.........*.*...*.*.*.....*...\n\
....*...*.*.....*.*.....*.........*.*.*\n\
.*...*.*.*.*.*.............*.*.*.*.....\n\
*.*.*.*...*.*.*.....*.*.*...*.......*.*\n\
.....*.*.*...*.....*.*.......*.*.*...*.\n\
\n\
LLLLLLLRRRRLRR\n\
LLLLLLLRRRRRRL\n\
LLLLLLLRRRRRRR\n\
LLLLLLLRRRRRRR\n\
LLLLLLLRRRRRRR\n\
LLLLLLLRRRRRRR";

const SAMPLE3_PART3: &str = "\
*...*...*...*.....*.*.*.*.*.*.*.*.*.*.*\n\
.*.*.*.*...*.*.*.*.*.*.*.*.*.*.*.*.*...\n\
*.*.*.*.*.*.*.*.*.*.*.*.*...*...*...*.*\n\
.*.*.*.*.*.....*.*.*.*.*...*.*.*.*.*.*.\n\
*.*.*.*.*.*.*.*.*.*...*.*.*.*.*...*.*.*\n\
.*.*.*.*.*.*.*.*.*.*.*.*.*.*.*.*.*.*.*.\n\
*.*...*.*.*.*.*.*.*.....*...*.*.*.*.*.*\n\
.*.*.*.*.*.*.*.....*.*.*...*.*.*.*.*...\n\
*.*.*.*.*.*.*.*.*.*.*.*.*...*.*.*.*.*.*\n\
.*.*.*.*.*.*.*.*.*...*.*.*.*.*...*...*.\n\
*.*.*.*.*.*.*.*.*.*.*.*.*.*.*.*.*.*.*.*\n\
.*.*...*.*.*.*.*.*.*.*.*...*.*.*.*.*...\n\
*...*...*.*.*.*.*.*.*...*.*...*.*.*.*.*\n\
.*.*...*.*.*...*.*.*.*.*...*.*.*.*.*...\n\
*...*...*.*.*.*.*.*.*.*.*...*.*.*.*.*.*\n\
.*.*.*.*.*.*.*.*.*.*.*.*.*.*.*.*.*.*.*.\n\
*...*.*...*.*...*.*.*.*...*.*.*...*.*..\n\
.*.*.*.*.*.*.*.*.*.*.*.*.*.*.*.*.*.*.*.\n\
*.*.*.*.*.*.*.*.*.*.*.*.*...*...*.*.*.*\n\
.*.*.*.*.*.*...*.*.*.*.*.*...*.*.*.*.*.\n\
*.*.*.*...*.*.*.*.*.*.*.*...*.*...*.*..\n\
.*.*.*.*.*.*.*.*.*.*.*.*.*...*.*.*...*.\n\
*.*.*.*.*.*.*.*.*...*.*.*.*.*.*.*...*.*\n\
.*.*.*.*.*.*.*.*.*.*.*.*.*.*.*.*.*.*.*.\n\
*.*.*.*.*.*...*.*.*.*.*.*.*...*...*.*.*\n\
.*.*.*.*...*.*.*...*.*.*.*...*...*.*.*.\n\
\n\
RRLRRRRLLLRLRRRRRLRLLRRRRL\n\
RLLLLRRRRRRRRLRRLRRLLLLRLR\n\
RRLRRLRLLLLRRLLRLLRRLLRLRL\n\
LRLRRRLLRRLLRRLRRLLRLRRRRL\n\
RLRLLLRRRLRLRRLRLLRRLLRLRR\n\
LRRLRRRLRRLRRRRRRRLRLLLRLR";

const SMALL: &str = "*.*.*.*.*.*.*\n.*.*.*.*.*.*.\n*.*.*...*.*.*\n.*.*.*.*.*.*.\n*.*.....*.*.*\n.*.*.*.*.*.*.\n\nRRRLRLRRRRRL\nLLLLRLRRRRRR\nRLLLLLRLRLRL\nLRLLLRRRLRLR\nLLRLLRLLLRRL\nLRLRLLLRRRRL";

fn part3_line(input: &str) -> String {
    let (min, max) = problem01::solve_part3(input.as_bytes()).unwrap();
    format!("{} {}", min, max)
}

#[test]
fn test_part3() {
    assert_eq!(part3_line(SAMPLE2_PART3), "25 66");
    assert_eq!(part3_line(SAMPLE3_PART3), "39 122");
}

#[test]
fn part3_by_slot_sets_agrees_on_twenty_slots() {
    let notes = parse_notes(SAMPLE3_PART3.as_bytes(), RowBits::Bits64).unwrap();
    let slots = notes.board.width() / 2 + 1;
    assert_eq!(slots, 20);
    let matrix = build_matrix(&notes.board, &notes.tokens, slots).unwrap();
    assert_eq!(matrix.tokens(), 6);
    assert_eq!(matrix.get(0, 0), 7);
    assert_eq!(matrix.get(2, 1), 0);
    assert_eq!(matrix.get(5, 19), 20);
    let in_turn = build_matrix_in_turn(&notes.board, &notes.tokens, slots).unwrap();
    for t in 0..6 {
        for s in 0..slots {
            assert_eq!(matrix.get(t, s), in_turn.get(t, s));
        }
    }
    assert!(matches!(build_matrix(&notes.board, &notes.tokens, 21), Err(Error::SlotOffBoard)));
    assert!(matches!(build_matrix_in_turn(&notes.board, &notes.tokens, 21), Err(Error::SlotOffBoard)));
    assert_eq!(min_max_bitmask(&matrix), Ok((39, 122)));
    assert_eq!(hungarian_rect(&matrix), Ok(39));
    assert_eq!(solve_part3_max(&matrix), Ok(122));
}

#[test]
fn part3_by_cheapest_assignments_on_twenty_slots() {
    assert_eq!(solve_part3(SAMPLE2_PART3.as_bytes()), Ok((25, 66)));
    assert_eq!(solve_part3(SAMPLE3_PART3.as_bytes()), Ok((39, 122)));
}

#[test]
fn parts_one_and_two_of_the_large_boards() {
    assert_eq!(problem01::solve_part1(SAMPLE2_PART3.as_bytes()), Ok(35));
    assert_eq!(problem01::solve_part2(SAMPLE2_PART3.as_bytes()), Ok(84));
    assert_eq!(problem01::solve_part1(SAMPLE3_PART3.as_bytes()), Ok(43));
    assert_eq!(problem01::solve_part2(SAMPLE3_PART3.as_bytes()), Ok(123));
}

#[test]
fn narrow_rows_refuse_the_large_boards() {
    assert_eq!(solve_part1(SAMPLE2_PART3.as_bytes()), Err(Error::BoardTooWide));
    assert_eq!(solve_part2(SAMPLE3_PART3.as_bytes()), Err(Error::BoardTooWide));
}

#[test]
fn both_ways_agree_on_a_small_board() {
    let input = SMALL.as_bytes();
    assert_eq!(solve_part1(input), problem01::solve_part1(input));
    assert_eq!(solve_part2(input), problem01::solve_part2(input));
    assert_eq!(solve_part3(input), problem01::solve_part3(input));
    let all = solve(input, input, input);
    assert_eq!(all.0, solve_part1(input));
    assert_eq!(all.1, solve_part2(input));
    assert_eq!(all.2, solve_part3(input));
    let plain = problem01::solve(input, input, input);
    assert_eq!(plain.2, all.2);
    assert_eq!(all.2, Ok((8, 24)));
}

#[test]
fn simulate_is_deterministic() {
    let board = Board::new(SMALL.split("\n\n").next().unwrap().as_bytes(), RowBits::Bits32).unwrap();
    let moves = parse_moves(b"RRRLRLRRRRRL").unwrap();
    for slot in 0..7 {
        assert_eq!(board.simulate(slot, &moves), board.simulate(slot, &moves));
    }
}

#[test]
fn notes_without_a_blank_line_are_refused() {
    assert_eq!(solve_part1(b"*.*\nLR"), Err(Error::MissingBlankLine));
    assert_eq!(solve_part3(b""), Err(Error::MissingBlankLine));
}

#[test]
fn notes_with_line_ends_of_two_bytes_are_read() {
    assert_eq!(solve_part1(b"*.\r\n..\r\n\r\nL\r\n"), Ok(1));
    assert_eq!(solve_part1(b"*.\n..\n\nL\n"), Ok(1));
}

#[test]
fn bad_notes_are_refused() {
    assert_eq!(solve_part1(b"\n\nLR"), Err(Error::EmptyBoard));
    assert_eq!(solve_part1(b"*.*\n*.\n\nLR"), Err(Error::RaggedBoard));
    assert_eq!(solve_part1(b"*.*\n.*.\n\nLX"), Err(Error::BadMove));
    assert_eq!(solve_part1(b"*.*\n.*.\n\nL"), Err(Error::OutOfMoves));
    assert_eq!(solve_part1(b"*.*\n*.*\n\nLL\nLL\nLL"), Err(Error::SlotOffBoard));
    assert_eq!(solve_part3(b"*.*\n*.*\n\nLL\nLL\nLL"), Err(Error::TooManyTokens));
    assert_eq!(problem01::solve_part3(b"*.*\n*.*\n\nLL\nLL\nLL"), Err(Error::TooManyTokens));
    assert_eq!(solve_part2(b"*.*.\n*.*.\n\nLL"), Err(Error::SlotOffBoard));
}

#[test]
fn no_tokens_win_nothing() {
    assert_eq!(solve_part1(b"*.*\n\n"), Ok(0));
    assert_eq!(solve_part2(b"*.*\n\n"), Ok(0));
    assert_eq!(solve_part3(b"*.*\n\n"), Ok((0, 0)));
    assert_eq!(problem01::solve_part3(b"*.*\n\n"), Ok((0, 0)));
}
