use quests::quest03::die::Die;
use quests::quest03::numbers::{parse_signed, parse_unsigned};
use quests::quest03::race::parse_track;
use quests::quest03::roam::{count, parse_cells};
use quests::quest03::{solve, solve_part1, solve_part2, solve_part3};

const DICE: &str = "1: faces=[1,2,3,4,5,6] seed=7\n2: faces=[-1,1,-1,1,-1] seed=13\n3: faces=[9,8,7,8,9] seed=17";

const RACE: &str = "1: faces=[1,2,3,4,5,6,7,8,9] seed=13\n2: faces=[1,2,3,4,5,6,7,8,9] seed=29\n3: faces=[1,2,3,4,5,6,7,8,9] seed=37\n4: faces=[1,2,3,4,5,6,7,8,9] seed=43\n\n51257284";

const FIELD: &str = "1: faces=[1,2,3,4,5,6,7,8,9] seed=13\n2: faces=[1,2,3,4,5,6,7,8,9] seed=29\n\n1523758297\n4822941583\n7627997892\n4397697132\n1799773472";

#[test]
fn a_die_rolls_by_its_rule() {
    let mut die = Die::parse(b" 1: faces=[1,2,3,4,5,6] seed=7\n").unwrap();
    assert_eq!(die.id(), 1);
    let mut shown = Vec::new();
    for _ in 0..10 {
        shown.push(die.roll().unwrap());
    }
    assert_eq!(shown, vec![2, 2, 2, 2, 4, 4, 6, 6, 6, 4]);
}

#[test]
fn a_die_that_cannot_be_rolled() {
    let mut die = Die::parse(b"5: faces=[1,2] seed=0").unwrap();
    assert_eq!(die.roll(), None);
    let mut die = Die::parse(b"5: faces=[1,2] seed=-3").unwrap();
    assert_eq!(die.roll(), None);
    let mut die = Die::parse(b"5: faces=[1,2] seed=9223372036854775807").unwrap();
    assert_eq!(die.roll(), None);
    assert_eq!(die.roll(), None);
}

#[test]
fn lines_that_describe_no_die() {
    assert!(Die::parse(b"").is_none());
    assert!(Die::parse(b"1 faces=[1,2] seed=3").is_none());
    assert!(Die::parse(b"x: faces=[1,2] seed=3").is_none());
    assert!(Die::parse(b"-1: faces=[1,2] seed=3").is_none());
    assert!(Die::parse(b"1: faces=[] seed=3").is_none());
    assert!(Die::parse(b"1: faces=[1, 2] seed=3").is_none());
    assert!(Die::parse(b"1: faces=[1,2 seed=3").is_none());
    assert!(Die::parse(b"1: face=[1,2] seed=3").is_none());
    assert!(Die::parse(b"1: faces=[1,2] seed=").is_none());
    assert!(Die::parse(b"1: faces=[1,2] sed=3").is_none());
    assert!(Die::parse(b"1: faces=[1,2]").is_none());
    assert!(Die::parse(b"+1: faces=[+1,-2] seed=+3").is_some());
}

#[test]
fn numbers_in_decimal() {
    assert_eq!(parse_signed(b"-9223372036854775808"), Some(i64::MIN));
    assert_eq!(parse_signed(b"9223372036854775807"), Some(i64::MAX));
    assert_eq!(parse_signed(b"9223372036854775808"), None);
    assert_eq!(parse_signed(b"-9223372036854775809"), None);
    assert_eq!(parse_signed(b"+007"), Some(7));
    assert_eq!(parse_signed(b"-0"), Some(0));
    assert_eq!(parse_signed(b"-"), None);
    assert_eq!(parse_signed(b""), None);
    assert_eq!(parse_signed(b"1 "), None);
    assert_eq!(parse_unsigned(b"18446744073709551615"), Some(usize::MAX));
    assert_eq!(parse_unsigned(b"18446744073709551616"), None);
    assert_eq!(parse_unsigned(b"+12"), Some(12));
    assert_eq!(parse_unsigned(b"-12"), None);
    assert_eq!(parse_unsigned(b"000000000000000000000000012"), Some(12));
}

#[test]
fn rounds_to_ten_thousand_points() {
    assert_eq!(solve_part1(DICE.as_bytes()), Some(844));
    assert_eq!(solve_part1(b""), None);
    assert_eq!(solve_part1(b"1: faces=[1,2] seed=0"), None);
    assert_eq!(solve_part1(b"nonsense"), None);
}

#[test]
fn the_order_at_the_end_of_the_track() {
    assert_eq!(solve_part2(RACE.as_bytes()), Some(vec![1, 3, 4, 2]));
    assert_eq!(solve_part2(b"1: faces=[1,2] seed=3\n\n"), Some(vec![]));
    assert_eq!(solve_part2(b"\n\n123"), Some(vec![]));
    assert_eq!(solve_part2(b"1: faces=[1,2] seed=3"), None);
    assert_eq!(solve_part2(b"1: faces=[1,2] seed=3\n\n1 2"), None);
    assert_eq!(solve_part2(b"1: faces=[1,2] seed=0\n\n12"), None);
}

#[test]
fn the_cells_that_the_dice_come_to() {
    assert_eq!(solve_part3(FIELD.as_bytes()), Some(36));
    assert_eq!(solve_part3(b"1: faces=[1,2,3] seed=3\n\n12\n21"), Some(4));
    assert_eq!(solve_part3(b"1: faces=[1,2,3] seed=5\n\n121\n212\n\n"), Some(0));
    assert_eq!(solve_part3(b"1: faces=[4,2,3] seed=5\n\n12\r\n21\r\n"), Some(0));
    assert_eq!(solve_part3(b"1: faces=[1,2,3] seed=3\n\n55\n5"), None);
    assert_eq!(solve_part3(b"1: faces=[1,2,3] seed=0\n\n55\n55"), None);
    assert_eq!(solve_part3(b"1: faces=[1,2,3] seed=3"), None);
    assert_eq!(solve_part3(b"\n\n55\n55"), Some(0));
}

#[test]
fn all_three_parts_at_once() {
    let all = solve(DICE.as_bytes(), RACE.as_bytes(), FIELD.as_bytes());
    assert_eq!(all, (Some(844), Some(vec![1, 3, 4, 2]), Some(36)));
}

#[test]
fn digits_of_tracks_and_fields() {
    assert_eq!(parse_track(b" 0192\n"), Some(vec![0, 1, 9, 2]));
    assert_eq!(parse_track(b"1 2"), None);
    assert_eq!(parse_track(b"1a"), Some(vec![1, 49]));
    assert_eq!(parse_cells(b"12\r\n34\n"), Some(vec![1, 2, 3, 4]));
    assert_eq!(parse_cells(b"1 2"), None);
    assert_eq!(count(&vec![true, false, true]), 2);
}
