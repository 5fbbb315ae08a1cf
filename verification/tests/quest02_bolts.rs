use quests::quest02::{solve, solve_part1, solve_part2, solve_part23, solve_part3};
use quests::text::trim;

#[test]
fn a_row_of_balloons() {
    assert_eq!(solve_part1(b"GRBGGGBBBRRRRRRRRG"), Some(7));
    assert_eq!(solve_part1(b"RRG"), Some(1));
    assert_eq!(solve_part1(b"BRG\n"), Some(3));
    assert_eq!(solve_part1(b""), Some(0));
    assert_eq!(solve_part1(b"  \n"), Some(0));
}

#[test]
fn a_bolt_that_flies_on_past_the_last_balloon() {
    assert_eq!(solve_part1(b"GRBGGGBBBRRRRRRRR"), None);
    assert_eq!(solve_part1(b"R"), None);
    assert_eq!(solve_part1(b"GG"), None);
}

#[test]
fn a_circle_of_balloons() {
    assert_eq!(solve_part23(b"GGBR", 5), Some(14));
    assert_eq!(solve_part23(b"BBRGGRRGBBRGGBRGBBRRBRRRBGGRRRBGBGG", 10), Some(304));
    assert_eq!(solve_part23(b"RGB", 100), Some(151));
    assert_eq!(solve_part23(b"RGBGGBRRGB\n", 7), Some(56));
    assert_eq!(solve_part2(b"GGBR"), Some(300));
    assert_eq!(solve_part2(b"RGB"), Some(151));
}

#[test]
fn the_first_bolt_pops_one_balloon() {
    assert_eq!(solve_part23(b"RR", 1), Some(2));
    assert_eq!(solve_part23(b"R", 2), Some(2));
}

#[test]
fn circles_that_cannot_be() {
    assert_eq!(solve_part23(b"", 0), Some(0));
    assert_eq!(solve_part23(b"", 7), Some(0));
    assert_eq!(solve_part23(b"RGB", 0), None);
    assert_eq!(solve_part23(b"RGB", usize::MAX), None);
}

#[test]
fn a_hundred_thousand_rounds() {
    let all = solve(b"GRBGGGBBBRRRRRRRRG", b"GGBR", b"RGB");
    assert_eq!(all.0, Some(7));
    assert_eq!(all.1, Some(300));
    assert_eq!(all.2, solve_part3(b"RGB"));
    assert_eq!(solve_part3(b"RGB"), solve_part23(b"RGB", 100_000));
}

#[test]
fn blanks_at_the_ends_do_not_count() {
    assert_eq!(trim(b" \t\r\nab c\x0b\x0c\n"), b"ab c");
    assert_eq!(trim(b"   "), b"");
    assert_eq!(trim(b"x"), b"x");
}
