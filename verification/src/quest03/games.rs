//! The games that are played with the dice.

use vstd::prelude::*;
use crate::quest03::die::{die_of, rolled, Die, DieView};
use crate::text::{lines_of, split_lines, views};

verus! {

/// What each of the dice is.
pub open spec fn die_views(dice: Seq<Die>) -> Seq<DieView> {
    Seq::new(dice.len(), |k: int| dice[k]@)
}

/// The dice that the lines describe, one on each line, unless a line
/// describes none.
pub open spec fn dice_of(text: Seq<u8>) -> Option<Seq<DieView>> {
    let lines = lines_of(text);
    if forall|k: int| 0 <= k < lines.len() ==> die_of(#[trigger] lines[k]) is Some {
        Some(Seq::new(lines.len(), |k: int| die_of(lines[k]).unwrap()))
    } else {
        None
    }
}

/// Reads the dice that the lines describe.
pub fn parse_dice(text: &[u8]) -> (r: Option<Vec<Die>>)
    ensures
        match r {
            Some(dice) => dice_of(text@) == Some(die_views(dice@)),
            None => dice_of(text@) is None,
        },
{
    let lines = split_lines(text);
    let ghost ls = lines_of(text@);
    let mut dice: Vec<Die> = Vec::new();
    let mut k: usize = 0;
    while k < lines.len()
        invariant
            k <= lines@.len(),
            ls == views(lines@),
            ls == lines_of(text@),
            dice@.len() == k,
            forall|i: int| 0 <= i < k ==> die_of(#[trigger] ls[i]) == Some(dice@[i]@),
        decreases lines@.len() - k,
    {
        proof {
            assert(ls[k as int] == lines@[k as int]@);
        }
        match Die::parse(lines[k]) {
            Some(die) => {
                dice.push(die);
            },
            None => {
                return None;
            },
        }
        k += 1;
    }
    proof {
        assert(die_views(dice@) =~= dice_of(text@).unwrap());
    }
    Some(dice)
}

/// The dice after the first `upto` of them were rolled once each, in their
/// order, and the sum of the faces shown. There is no such thing where one
/// of them cannot be rolled, or the sum on the way is more than 64 bits
/// with sign hold.
pub open spec fn roll_all(dice: Seq<DieView>, upto: int) -> Option<(Seq<DieView>, int)>
    decreases upto,
{
    if upto <= 0 {
        Some((dice, 0))
    } else {
        match roll_all(dice, upto - 1) {
            None => None,
            Some((ds, sum)) => match rolled(ds[upto - 1]) {
                None => None,
                Some((d, face)) => if i64::MIN <= sum + face <= i64::MAX {
                    Some((ds.update(upto - 1, d), sum + face))
                } else {
                    None
                },
            },
        }
    }
}

/// Rolling the first dice once each rolls each of them, and leaves the
/// others as they are.
pub proof fn lemma_roll_all(dice: Seq<DieView>, upto: int)
    requires
        0 <= upto <= dice.len(),
    ensures
        match roll_all(dice, upto) {
            Some((ds, sum)) => {
                &&& ds.len() == dice.len()
                &&& forall|k: int| 0 <= k < upto ==> (#[trigger] rolled(dice[k])) is Some
                &&& forall|k: int| 0 <= k < upto ==> #[trigger] ds[k] == rolled(dice[k]).unwrap().0
                &&& forall|k: int| upto <= k < dice.len() ==> #[trigger] ds[k] == dice[k]
            },
            None => true,
        },
    decreases upto,
{
    if upto > 0 {
        lemma_roll_all(dice, upto - 1);
        match roll_all(dice, upto - 1) {
            Some((before, _)) => {
                assert(before[upto - 1] == dice[upto - 1]);
                match roll_all(dice, upto) {
                    Some((ds, _)) => {
                        assert forall|k: int| 0 <= k < upto implies #[trigger] ds[k] == rolled(
                            dice[k],
                        ).unwrap().0 by {
                            if k < upto - 1 {
                                assert(ds[k] == before[k]);
                            }
                        }
                        assert forall|k: int| upto <= k < dice.len() implies #[trigger] ds[k]
                            == dice[k] by {
                            assert(ds[k] == before[k]);
                        }
                    },
                    None => {},
                }
            },
            None => {},
        }
    }
}

/// The number of the round in which the faces shown since the start first
/// add up to more than ten thousand points, where `total` points were made
/// in the `played` rounds before. In every round each die is rolled once.
/// There is no such round without dice, nor where a die cannot be rolled or
/// the points are more than 64 bits with sign hold.
pub open spec fn rounds_to_win(dice: Seq<DieView>, total: int, played: int) -> Option<int>
    decreases i64::MAX - dice[0].roll_number,
{
    if dice.len() == 0 {
        None
    } else {
        match roll_all(dice, dice.len() as int) {
            None => None,
            Some((ds, sum)) => if total + sum < i64::MIN || total + sum > i64::MAX {
                None
            } else if total + sum > 10_000 {
                Some(played + 1)
            } else {
                proof {
                    lemma_roll_all(dice, dice.len() as int);
                }
                rounds_to_win(ds, total + sum, played + 1)
            },
        }
    }
}

/// Rolls every die once, in their order, and returns the sum of the faces
/// shown.
fn roll_round(dice: &mut Vec<Die>) -> (r: Option<i64>)
    ensures
        final(dice)@.len() == old(dice)@.len(),
        match r {
            Some(sum) => roll_all(die_views(old(dice)@), old(dice)@.len() as int) == Some(
                (die_views(final(dice)@), sum as int),
            ),
            None => roll_all(die_views(old(dice)@), old(dice)@.len() as int) is None,
        },
{
    let ghost start = die_views(dice@);
    let n = dice.len();
    let mut sum: i64 = 0;
    let mut k: usize = 0;
    while k < n
        invariant
            k <= n,
            n == dice@.len(),
            n == old(dice)@.len(),
            start == die_views(old(dice)@),
            start.len() == n,
            roll_all(start, k as int) == Some((die_views(dice@), sum as int)),
        decreases n - k,
    {
        let ghost before = die_views(dice@);
        let face = match dice[k].roll() {
            Some(face) => face,
            None => {
                proof {
                    assert(before[k as int] == dice@[k as int]@);
                    lemma_round_fails(start, k + 1, n as int);
                }
                return None;
            },
        };
        proof {
            assert(die_views(dice@) =~= before.update(k as int, dice@[k as int]@));
        }
        sum = match sum.checked_add(face) {
            Some(sum) => sum,
            None => {
                proof {
                    lemma_round_fails(start, k + 1, n as int);
                }
                return None;
            },
        };
        k += 1;
    }
    Some(sum)
}

/// Once a die cannot be rolled, the round cannot be played.
pub proof fn lemma_round_fails(dice: Seq<DieView>, short: int, long: int)
    requires
        short <= long,
        roll_all(dice, short) is None,
    ensures
        roll_all(dice, long) is None,
    decreases long - short,
{
    if short < long {
        lemma_round_fails(dice, short, long - 1);
    }
}

/// `r` holds `want`, or nothing as `want` does.
pub open spec fn is_rounds(r: Option<u64>, want: Option<int>) -> bool {
    match r {
        Some(n) => want == Some(n as int),
        None => want is None,
    }
}

/// Plays rounds, in each of which every die is rolled once, until the faces
/// shown add up to more than ten thousand points, and returns the number of
/// rounds played.
pub fn play_rounds(dice: Vec<Die>) -> (r: Option<u64>)
    ensures
        is_rounds(r, rounds_to_win(die_views(dice@), 0, 0)),
{
    let mut rolling = dice;
    let ghost start = die_views(rolling@);
    if rolling.len() == 0 {
        return None;
    }
    let mut total: i64 = 0;
    let mut played: u64 = 0;
    loop
        invariant
            start == die_views(dice@),
            rolling@.len() > 0,
            played == 0 || played <= die_views(rolling@)[0].roll_number <= i64::MAX,
            rounds_to_win(start, 0, 0) == rounds_to_win(
                die_views(rolling@),
                total as int,
                played as int,
            ),
        decreases i64::MAX - die_views(rolling@)[0].roll_number,
    {
        let ghost before = die_views(rolling@);
        proof {
            lemma_roll_all(before, before.len() as int);
        }
        let sum = match roll_round(&mut rolling) {
            Some(sum) => sum,
            None => {
                return None;
            },
        };
        total = match total.checked_add(sum) {
            Some(total) => total,
            None => {
                return None;
            },
        };
        proof {
            assert(rolled(before[0]) is Some);
            assert(die_views(rolling@)[0] == rolled(before[0]).unwrap().0);
        }
        if total > 10_000 {
            return Some(played + 1);
        }
        played += 1;
    }
}

} // verus!
