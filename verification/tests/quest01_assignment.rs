use quests::quest01::bitmask::{min_max_bitmask, MAX_MASK_SLOTS};
use quests::quest01::errors::Error;
use quests::quest01::exhaustive::min_max_exhaustive;
use quests::quest01::hungarian::{hungarian_rect, solve_part3_max};
use quests::quest01::matrix::ScoringMatrix;

fn matrix(rows: &[&[u64]]) -> ScoringMatrix {
    let slots = rows[0].len();
    ScoringMatrix::new(rows.iter().map(|r| r.to_vec()).collect(), slots).unwrap()
}

fn all_three(m: &ScoringMatrix) -> (u128, u128) {
    let a = min_max_exhaustive(m).unwrap();
    let b = min_max_bitmask(m).unwrap();
    let c = (hungarian_rect(m).unwrap(), solve_part3_max(m).unwrap());
    assert_eq!(a, b);
    assert_eq!(b, c);
    a
}

#[test]
fn one_token_takes_the_least_and_the_greatest_cell() {
    let m = matrix(&[&[3, 7, 1]]);
    assert_eq!(solve_part3_max(&m), Ok(7));
    assert_eq!(hungarian_rect(&m), Ok(1));
    assert_eq!(all_three(&m), (1, 7));
}

#[test]
fn a_row_that_is_matched_early_may_move_later() {
    // The cheapest assignment gives the first token the second slot, so
    // that the second token can have the first.
    let m = matrix(&[&[1, 2], &[1, 3]]);
    assert_eq!(hungarian_rect(&m), Ok(3));
    assert_eq!(solve_part3_max(&m), Ok(4));
    assert_eq!(all_three(&m), (3, 4));
}

#[test]
fn the_three_ways_agree() {
    assert_eq!(all_three(&matrix(&[&[4, 1, 3], &[2, 0, 5], &[3, 2, 2]])), (5, 11));
    assert_eq!(all_three(&matrix(&[&[7, 7, 7, 7], &[7, 7, 7, 7]])), (14, 14));
    assert_eq!(
        all_three(&matrix(&[&[10, 19, 8, 15, 0], &[10, 18, 7, 17, 0], &[13, 16, 9, 14, 0], &[12, 19, 8, 18, 0]])),
        (31, 57)
    );
    let mut seed: u64 = 12345;
    for tokens in 1..5usize {
        for slots in tokens..7usize {
            let mut rows = Vec::new();
            for _ in 0..tokens {
                let mut row = Vec::new();
                for _ in 0..slots {
                    seed = seed.wrapping_mul(6364136223846793005).wrapping_add(1442695040888963407);
                    row.push((seed >> 33) % 50);
                }
                rows.push(row);
            }
            let m = ScoringMatrix::new(rows, slots).unwrap();
            let (least, greatest) = all_three(&m);
            assert!(least <= greatest);
        }
    }
}

#[test]
fn greatest_is_tokens_times_top_less_least_of_the_complement() {
    let m = matrix(&[&[4, 1, 3], &[2, 0, 5]]);
    assert_eq!(m.max_entry(), 5);
    let c = m.complement(9);
    assert_eq!(c.get(0, 0), 5);
    assert_eq!(c.get(1, 2), 4);
    let least = hungarian_rect(&c).unwrap();
    assert_eq!(solve_part3_max(&m), Ok(2 * 9 - least));
    assert_eq!(solve_part3_max(&m), Ok(9));
}

#[test]
fn more_tokens_than_slots_are_refused() {
    let m = matrix(&[&[1, 2], &[3, 4], &[5, 6]]);
    assert_eq!(hungarian_rect(&m), Err(Error::TooManyTokens));
    assert_eq!(solve_part3_max(&m), Err(Error::TooManyTokens));
    assert_eq!(min_max_exhaustive(&m), Err(Error::TooManyTokens));
    assert_eq!(min_max_bitmask(&m), Err(Error::TooManyTokens));
}

#[test]
fn no_tokens_win_nothing_in_any_way() {
    let m = ScoringMatrix::new(Vec::new(), 3).unwrap();
    assert_eq!(all_three(&m), (0, 0));
    let m = ScoringMatrix::new(Vec::new(), 0).unwrap();
    assert_eq!(all_three(&m), (0, 0));
}

#[test]
fn the_table_of_slot_sets_has_a_limit() {
    assert_eq!(MAX_MASK_SLOTS, 20);
    let m = ScoringMatrix::new(vec![vec![1; 21]], 21).unwrap();
    assert_eq!(min_max_bitmask(&m), Err(Error::TooManySlots));
    assert_eq!(hungarian_rect(&m), Ok(1));
}

#[test]
fn great_rewards_do_not_overflow() {
    let m = matrix(&[&[u64::MAX, u64::MAX], &[u64::MAX, 0]]);
    assert_eq!(all_three(&m), (u64::MAX as u128, 2 * (u64::MAX as u128)));
}

#[test]
fn a_matrix_has_rows_of_one_length() {
    assert!(ScoringMatrix::new(vec![vec![1, 2], vec![3]], 2).is_none());
    assert!(ScoringMatrix::new(vec![vec![1, 2]], 3).is_none());
    let m = ScoringMatrix::new(vec![vec![1, 2], vec![3, 4]], 2).unwrap();
    assert_eq!((m.tokens(), m.slots(), m.get(1, 0)), (2, 2, 3));
}
