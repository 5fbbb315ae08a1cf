//! The race of the dice along a track of digits.

use vstd::prelude::*;
use crate::quest03::die::{rolled, Die, DieView};
use crate::quest03::games::die_views;
use crate::text::{trim, trimmed};

verus! {

/// A race at one moment.
pub struct Race {
    /// The dice.
    pub dice: Seq<DieView>,
    /// How many digits of the track each die has behind it.
    pub at: Seq<int>,
    /// The numbers of the dice that have reached the end, in the order in
    /// which they did.
    pub done: Seq<int>,
}

/// The digits of the track that the notes hold between their blanks: what
/// each byte is above the byte for zero. Bytes below that make no track.
pub open spec fn track_of(text: Seq<u8>) -> Option<Seq<i64>> {
    let s = trimmed(text);
    if forall|k: int| 0 <= k < s.len() ==> #[trigger] s[k] >= 48 {
        Some(Seq::new(s.len(), |k: int| (s[k] - 48) as i64))
    } else {
        None
    }
}

/// The start of a race: every die at the start of the track.
pub open spec fn race_start(dice: Seq<DieView>) -> Race {
    Race { dice, at: Seq::new(dice.len(), |k: int| 0int), done: Seq::empty() }
}

/// There is a place for each die, and each place is on the track or at its
/// end.
pub open spec fn race_ok(track: Seq<i64>, r: Race) -> bool {
    &&& r.at.len() == r.dice.len()
    &&& forall|k: int| 0 <= k < r.at.len() ==> 0 <= #[trigger] r.at[k] <= track.len()
}

/// Every die has reached the end of the track.
pub open spec fn finished(track: Seq<i64>, r: Race) -> bool {
    forall|k: int| 0 <= k < r.at.len() ==> #[trigger] r.at[k] == track.len()
}

/// The race after the turn of die `k`. A die at the end of the track rests.
/// Any other is rolled, and moves on by one digit if it shows the digit
/// before it; where it reaches the end by that, its number is noted.
pub open spec fn race_step(track: Seq<i64>, r: Race, k: int) -> Option<Race> {
    if r.at[k] == track.len() {
        Some(r)
    } else {
        match rolled(r.dice[k]) {
            None => None,
            Some((d, face)) => {
                let hit = face == track[r.at[k]];
                let at = if hit {
                    r.at.update(k, r.at[k] + 1)
                } else {
                    r.at
                };
                let done = if hit && at[k] == track.len() {
                    r.done.push(d.id)
                } else {
                    r.done
                };
                Some(Race { dice: r.dice.update(k, d), at, done })
            },
        }
    }
}

/// The race after the turns of the first `upto` dice, in their order.
pub open spec fn race_upto(track: Seq<i64>, r: Race, upto: int) -> Option<Race>
    decreases upto,
{
    if upto <= 0 {
        Some(r)
    } else {
        match race_upto(track, r, upto - 1) {
            None => None,
            Some(before) => race_step(track, before, upto - 1),
        }
    }
}

/// How often a die can still be rolled at most.
pub open spec fn spare(d: DieView) -> int {
    if d.roll_number <= i64::MAX {
        i64::MAX - d.roll_number
    } else {
        0
    }
}

/// How often the first `upto` dice can still be rolled at most, together.
pub open spec fn spare_sum(dice: Seq<DieView>, upto: int) -> int
    decreases upto,
{
    if upto <= 0 {
        0
    } else {
        spare_sum(dice, upto - 1) + spare(dice[upto - 1])
    }
}

/// The numbers of the dice in the order in which they reach the end of the
/// track, when round after round every die that has not reached it yet
/// takes its turn. There is no such order where a die cannot be rolled.
pub open spec fn race(track: Seq<i64>, r: Race) -> Option<Seq<int>>
    decreases spare_sum(r.dice, r.dice.len() as int),
{
    if !race_ok(track, r) {
        None
    } else if finished(track, r) {
        Some(r.done)
    } else {
        match race_upto(track, r, r.dice.len() as int) {
            None => None,
            Some(after) => {
                proof {
                    lemma_round_spends(track, r, r.dice.len() as int);
                    let k = choose|k: int| 0 <= k < r.at.len() && r.at[k] != track.len();
                    lemma_spare_less(r.dice, after.dice, r.dice.len() as int, k);
                }
                race(track, after)
            },
        }
    }
}

/// The turns of the first dice leave the race in order, spend a roll of
/// each of them that has not reached the end, and leave the other dice as
/// they are.
pub proof fn lemma_round_spends(track: Seq<i64>, r: Race, upto: int)
    requires
        race_ok(track, r),
        0 <= upto <= r.dice.len(),
    ensures
        match race_upto(track, r, upto) {
            Some(after) => {
                &&& race_ok(track, after)
                &&& after.dice.len() == r.dice.len()
                &&& forall|k: int|
                    0 <= k < r.dice.len() ==> spare(#[trigger] after.dice[k]) <= spare(r.dice[k])
                &&& forall|k: int|
                    0 <= k < upto && r.at[k] != track.len() ==> spare(#[trigger] after.dice[k])
                        < spare(r.dice[k])
                &&& forall|k: int|
                    upto <= k < r.dice.len() ==> #[trigger] after.dice[k] == r.dice[k] && after.at[k]
                        == r.at[k]
            },
            None => true,
        },
    decreases upto,
{
    if upto > 0 {
        lemma_round_spends(track, r, upto - 1);
        match race_upto(track, r, upto - 1) {
            Some(before) => {
                let k = upto - 1;
                assert(before.dice[k] == r.dice[k] && before.at[k] == r.at[k]);
                match race_step(track, before, k) {
                    Some(after) => {
                        assert forall|j: int| 0 <= j < r.dice.len() implies spare(
                            #[trigger] after.dice[j],
                        ) <= spare(r.dice[j]) by {
                            if j != k {
                                assert(after.dice[j] == before.dice[j]);
                            }
                        }
                        assert forall|j: int|
                            0 <= j < upto && r.at[j] != track.len() implies spare(
                            #[trigger] after.dice[j],
                        ) < spare(r.dice[j]) by {
                            if j != k {
                                assert(after.dice[j] == before.dice[j]);
                            }
                        }
                        assert forall|j: int| upto <= j < r.dice.len() implies #[trigger] after.dice[j]
                            == r.dice[j] && after.at[j] == r.at[j] by {
                            assert(after.dice[j] == before.dice[j]);
                        }
                        assert forall|j: int| 0 <= j < after.at.len() implies 0
                            <= #[trigger] after.at[j] <= track.len() by {
                            if j != k {
                                assert(after.at[j] == before.at[j]);
                            }
                        }
                    },
                    None => {},
                }
            },
            None => {},
        }
    }
}

/// Where no die can be rolled more often than before, and one of them less
/// often, all together can be rolled less often.
pub proof fn lemma_spare_less(old_dice: Seq<DieView>, new_dice: Seq<DieView>, upto: int, at: int)
    requires
        0 <= upto <= old_dice.len(),
        old_dice.len() == new_dice.len(),
        forall|k: int| 0 <= k < old_dice.len() ==> spare(#[trigger] new_dice[k]) <= spare(old_dice[k]),
    ensures
        0 <= spare_sum(new_dice, upto) <= spare_sum(old_dice, upto),
        0 <= at < upto && spare(new_dice[at]) < spare(old_dice[at]) ==> spare_sum(new_dice, upto)
            < spare_sum(old_dice, upto),
    decreases upto,
{
    if upto > 0 {
        lemma_spare_less(old_dice, new_dice, upto - 1, at);
        assert(spare(new_dice[upto - 1]) <= spare(old_dice[upto - 1]));
    }
}

/// Once a die cannot be rolled, the round cannot be played.
pub proof fn lemma_race_fails(track: Seq<i64>, r: Race, short: int, long: int)
    requires
        short <= long,
        race_upto(track, r, short) is None,
    ensures
        race_upto(track, r, long) is None,
    decreases long - short,
{
    if short < long {
        lemma_race_fails(track, r, short, long - 1);
    }
}

/// The numbers as integers.
pub open spec fn ints(v: Seq<usize>) -> Seq<int> {
    v.map_values(|x: usize| x as int)
}

/// The race that the dice, their places and the noted numbers make.
pub open spec fn race_view(dice: Seq<Die>, at: Seq<usize>, done: Seq<usize>) -> Race {
    Race { dice: die_views(dice), at: ints(at), done: ints(done) }
}

/// Reads the digits of a track.
pub fn parse_track(text: &[u8]) -> (r: Option<Vec<i64>>)
    ensures
        match r {
            Some(track) => track_of(text@) == Some(track@),
            None => track_of(text@) is None,
        },
{
    let s = trim(text);
    let mut track: Vec<i64> = Vec::new();
    let mut k: usize = 0;
    while k < s.len()
        invariant
            k <= s@.len(),
            s@ == trimmed(text@),
            track@.len() == k,
            forall|i: int| 0 <= i < k ==> #[trigger] s@[i] >= 48,
            forall|i: int| 0 <= i < k ==> #[trigger] track@[i] == (s@[i] - 48) as i64,
        decreases s@.len() - k,
    {
        if s[k] < 48 {
            return None;
        }
        track.push((s[k] - 48) as i64);
        k += 1;
    }
    proof {
        assert(track@ =~= track_of(text@).unwrap());
    }
    Some(track)
}

/// Whether every die has reached the end of the track.
fn all_finished(positions: &Vec<usize>, len: usize) -> (r: bool)
    ensures
        r == forall|k: int| 0 <= k < positions@.len() ==> #[trigger] positions@[k] == len,
{
    let mut k: usize = 0;
    while k < positions.len()
        invariant
            k <= positions@.len(),
            forall|i: int| 0 <= i < k ==> #[trigger] positions@[i] == len,
        decreases positions@.len() - k,
    {
        if positions[k] != len {
            return false;
        }
        k += 1;
    }
    true
}

/// Lets every die that has not reached the end of the track take its turn,
/// in their order. Returns whether all of them could be rolled.
fn race_round(
    dice: &mut Vec<Die>,
    positions: &mut Vec<usize>,
    result: &mut Vec<usize>,
    track: &Vec<i64>,
) -> (ok: bool)
    requires
        race_ok(track@, race_view(old(dice)@, old(positions)@, old(result)@)),
    ensures
        final(dice)@.len() == old(dice)@.len(),
        match race_upto(
            track@,
            race_view(old(dice)@, old(positions)@, old(result)@),
            old(dice)@.len() as int,
        ) {
            Some(after) => ok && after == race_view(final(dice)@, final(positions)@, final(result)@),
            None => !ok,
        },
{
    let ghost start = race_view(dice@, positions@, result@);
    let n = dice.len();
    let len = track.len();
    let mut k: usize = 0;
    while k < n
        invariant
            k <= n,
            n == dice@.len(),
            n == old(dice)@.len(),
            len == track@.len(),
            start == race_view(old(dice)@, old(positions)@, old(result)@),
            race_ok(track@, start),
            race_upto(track@, start, k as int) == Some(race_view(dice@, positions@, result@)),
        decreases n - k,
    {
        let ghost before = race_view(dice@, positions@, result@);
        proof {
            lemma_round_spends(track@, start, k as int);
            assert(before.at[k as int] == positions@[k as int]);
            assert(before.dice[k as int] == dice@[k as int]@);
        }
        if positions[k] != len {
            let face = match dice[k].roll() {
                Some(face) => face,
                None => {
                    proof {
                        assert(race_step(track@, before, k as int) is None);
                        lemma_race_fails(track@, start, k + 1, n as int);
                    }
                    return false;
                },
            };
            if face == track[positions[k]] {
                let next = positions[k] + 1;
                positions.set(k, next);
                if next == len {
                    let id = dice[k].id();
                    result.push(id);
                }
            }
            proof {
                let after = race_step(track@, before, k as int).unwrap();
                let now = race_view(dice@, positions@, result@);
                assert(now.dice =~= after.dice);
                assert(now.at =~= after.at);
                assert(now.done =~= after.done);
            }
        }
        k += 1;
    }
    true
}

/// Runs the race: round after round every die that has not reached the end
/// of the track takes its turn, until all have reached it. Returns the
/// numbers of the dice in the order in which they reach the end.
pub fn run_race(dice: Vec<Die>, track: &Vec<i64>) -> (r: Option<Vec<usize>>)
    ensures
        match r {
            Some(ids) => race(track@, race_start(die_views(dice@))) == Some(ints(ids@)),
            None => race(track@, race_start(die_views(dice@))) is None,
        },
{
    let mut racing = dice;
    let n = racing.len();
    let len = track.len();
    let mut positions: Vec<usize> = Vec::new();
    let mut k: usize = 0;
    while k < n
        invariant
            k <= n,
            positions@.len() == k,
            forall|i: int| 0 <= i < k ==> #[trigger] positions@[i] == 0,
        decreases n - k,
    {
        positions.push(0);
        k += 1;
    }
    let mut result: Vec<usize> = Vec::new();
    let ghost start = race_start(die_views(dice@));
    proof {
        let now = race_view(racing@, positions@, result@);
        assert(now.at =~= start.at);
        assert(now.done =~= start.done);
    }
    loop
        invariant
            len == track@.len(),
            start == race_start(die_views(dice@)),
            race_ok(track@, race_view(racing@, positions@, result@)),
            race(track@, start) == race(track@, race_view(racing@, positions@, result@)),
        decreases spare_sum(die_views(racing@), racing@.len() as int),
    {
        let ghost before = race_view(racing@, positions@, result@);
        if all_finished(&positions, len) {
            proof {
                assert(finished(track@, before)) by {
                    assert forall|k: int| 0 <= k < before.at.len() implies #[trigger] before.at[k]
                        == track@.len() by {
                        assert(positions@[k] == len);
                    }
                }
            }
            return Some(result);
        }
        proof {
            assert(!finished(track@, before)) by {
                let k = choose|k: int| 0 <= k < positions@.len() && positions@[k] != len;
                assert(before.at[k] != track@.len());
            }
            lemma_round_spends(track@, before, before.dice.len() as int);
        }
        if !race_round(&mut racing, &mut positions, &mut result, track) {
            return None;
        }
        proof {
            let after = race_view(racing@, positions@, result@);
            let k = choose|k: int| 0 <= k < before.at.len() && before.at[k] != track@.len();
            lemma_spare_less(before.dice, after.dice, before.dice.len() as int, k);
        }
    }
}

} // verus!
