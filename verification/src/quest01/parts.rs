//! What the three parts of the game ask for, and what their answers are.

use vstd::prelude::*;
use crate::quest01::assignment::{is_max_total, is_min_total};
use crate::quest01::board::{is_coins, simulated, Board, Direction};
use crate::quest01::errors::Error;
use crate::quest01::notes::{notes_of, Notes};
use crate::quest01::scoring::{coins_of, moves_views, rewards, rewards_row};

verus! {

/// The number of columns of a board that has a row.
pub open spec fn width_of(b: Seq<Seq<bool>>) -> int {
    b[0].len() as int
}

/// The number of slots above a board: one above every second column.
pub open spec fn slots_above(width: int) -> int {
    width / 2 + 1
}

/// The sum of the first `upto` of the numbers `f(0)`, `f(1)`, ..., or the
/// first of them that is refused.
pub open spec fn sum_upto(f: spec_fn(int) -> Result<int, Error>, upto: int) -> Result<int, Error>
    decreases upto,
{
    if upto <= 0 {
        Ok(0)
    } else {
        match sum_upto(f, upto - 1) {
            Err(e) => Err(e),
            Ok(sum) => match f(upto - 1) {
                Ok(x) => Ok(sum + x),
                Err(e) => Err(e),
            },
        }
    }
}

/// The greatest number of a row, or zero for an empty row.
pub open spec fn best_of(row: Seq<int>) -> int
    decreases row.len(),
{
    if row.len() == 0 {
        0
    } else if row.last() > best_of(row.drop_last()) {
        row.last()
    } else {
        best_of(row.drop_last())
    }
}

/// The most that a token with the given moves wins from any slot above the
/// board.
pub open spec fn best_reward(b: Seq<Seq<bool>>, width: int, moves: Seq<Direction>) -> Result<
    int,
    Error,
> {
    match rewards_row(b, width, moves, slots_above(width)) {
        Ok(row) => Ok(best_of(row)),
        Err(e) => Err(e),
    }
}

/// What each token wins from the slot of its own number.
pub open spec fn from_own_slots(b: Seq<Seq<bool>>, tokens: Seq<Seq<Direction>>) -> spec_fn(int) -> Result<
    int,
    Error,
> {
    |k: int| simulated(b, width_of(b), k, tokens[k])
}

/// What each token wins from the slot that is best for it.
pub open spec fn from_best_slots(b: Seq<Seq<bool>>, tokens: Seq<Seq<Direction>>) -> spec_fn(int) -> Result<
    int,
    Error,
> {
    |k: int| best_reward(b, width_of(b), tokens[k])
}

/// What the tokens win together when each starts from the slot of its own
/// number: the first token from the first slot, the second from the second.
pub open spec fn part1_of(input: Seq<u8>, capacity: int) -> Result<int, Error> {
    match notes_of(input, capacity) {
        Err(e) => Err(e),
        Ok((b, tokens)) => sum_upto(from_own_slots(b, tokens), tokens.len() as int),
    }
}

/// What the tokens win together when each starts from the slot that is best
/// for it.
pub open spec fn part2_of(input: Seq<u8>, capacity: int) -> Result<int, Error> {
    match notes_of(input, capacity) {
        Err(e) => Err(e),
        Ok((b, tokens)) => sum_upto(from_best_slots(b, tokens), tokens.len() as int),
    }
}

/// The table of rewards that the notes give rise to: what each token wins
/// from each slot above the board.
pub open spec fn table_of(input: Seq<u8>, capacity: int) -> Result<Seq<Seq<int>>, Error> {
    match notes_of(input, capacity) {
        Err(e) => Err(e),
        Ok((b, tokens)) => rewards(b, width_of(b), tokens, slots_above(width_of(b))),
    }
}

/// `r` is the answer to the third part: the least and the greatest that the
/// tokens win together when no two start from the same slot. The notes may
/// be refused, or their table, or there may be more tokens than slots.
pub open spec fn is_part3_answer(input: Seq<u8>, capacity: int, r: Result<(u128, u128), Error>)
    -> bool {
    match table_of(input, capacity) {
        Err(e) => r == Err::<(u128, u128), Error>(e),
        Ok(m) => {
            let slots = slots_above(width_of(notes_of(input, capacity).unwrap().0));
            match r {
                Ok((least, greatest)) => {
                    &&& m.len() <= slots
                    &&& is_min_total(m, slots, least as int)
                    &&& is_max_total(m, slots, greatest as int)
                },
                Err(e) => m.len() > slots && e == Error::TooManyTokens,
            }
        },
    }
}

/// `found` holds `want`, or is refused as `want` is.
pub open spec fn is_sum(found: Result<u128, Error>, want: Result<int, Error>) -> bool {
    match found {
        Ok(x) => want == Ok::<int, Error>(x as int),
        Err(e) => want == Err::<int, Error>(e),
    }
}

/// Once a number is refused, the sum is refused for the same reason however
/// many numbers follow.
pub proof fn lemma_sum_error_stays(f: spec_fn(int) -> Result<int, Error>, short: int, long: int)
    requires
        short <= long,
        sum_upto(f, short) is Err,
    ensures
        sum_upto(f, long) == sum_upto(f, short),
    decreases long - short,
{
    if short < long {
        lemma_sum_error_stays(f, short, long - 1);
    }
}

/// Adds up what was found, or returns the first refusal.
pub(crate) fn sum_found(found: &Vec<Result<u64, Error>>, Ghost(f): Ghost<spec_fn(int) -> Result<int, Error>>)
    -> (r: Result<u128, Error>)
    requires
        forall|k: int| 0 <= k < found@.len() ==> is_coins(#[trigger] found@[k], f(k)),
    ensures
        is_sum(r, sum_upto(f, found@.len() as int)),
{
    let mut sum: u128 = 0;
    let mut k: usize = 0;
    while k < found.len()
        invariant
            k <= found@.len(),
            forall|k: int| 0 <= k < found@.len() ==> is_coins(#[trigger] found@[k], f(k)),
            sum_upto(f, k as int) == Ok::<int, Error>(sum as int),
            sum <= k * u64::MAX,
        decreases found@.len() - k,
    {
        proof {
            assert(is_coins(found@[k as int], f(k as int)));
            assert((k + 1) * u64::MAX == k * u64::MAX + u64::MAX) by (nonlinear_arith);
            assert(k * u64::MAX + u64::MAX <= u128::MAX) by (nonlinear_arith)
                requires
                    0 <= k < usize::MAX,
                    usize::MAX <= u64::MAX,
            ;
        }
        match found[k] {
            Ok(x) => {
                sum = sum + x as u128;
            },
            Err(e) => {
                proof {
                    assert(sum_upto(f, k + 1) == Err::<int, Error>(e));
                    lemma_sum_error_stays(f, k + 1, found@.len() as int);
                }
                return Err(e);
            },
        }
        k += 1;
    }
    Ok(sum)
}

impl Board {
    /// The most that a token with the given moves wins from any slot above
    /// the board.
    pub fn best_reward(&self, moves: &Vec<Direction>) -> (r: Result<u64, Error>)
        ensures
            is_coins(r, best_reward(self@, self.spec_width(), moves@)),
    {
        let slots = self.width() / 2 + 1;
        match self.reward_row(moves, slots) {
            Ok(row) => {
                let mut best: u64 = 0;
                let mut s: usize = 0;
                proof {
                    assert(coins_of(row@).subrange(0, 0) =~= Seq::<int>::empty());
                }
                while s < row.len()
                    invariant
                        s <= row@.len(),
                        best == best_of(coins_of(row@).subrange(0, s as int)),
                    decreases row@.len() - s,
                {
                    proof {
                        let longer = coins_of(row@).subrange(0, s + 1);
                        assert(longer.drop_last() =~= coins_of(row@).subrange(0, s as int));
                        assert(longer.last() == row@[s as int]);
                    }
                    if row[s] > best {
                        best = row[s];
                    }
                    s += 1;
                }
                proof {
                    assert(coins_of(row@).subrange(0, s as int) =~= coins_of(row@));
                }
                Ok(best)
            },
            Err(e) => Err(e),
        }
    }
}

/// What each token wins from the slot of its own number.
pub(crate) fn rewards_from_own_slots(notes: &Notes) -> (found: Vec<Result<u64, Error>>)
    requires
        notes.board@.len() > 0,
    ensures
        found@.len() == notes.tokens@.len(),
        forall|i: int|
            0 <= i < found@.len() ==> is_coins(
                #[trigger] found@[i],
                from_own_slots(notes.board@, moves_views(notes.tokens@))(i),
            ),
{
    let width = notes.board.width();
    let ghost b = notes.board@;
    let ghost tokens = moves_views(notes.tokens@);
    let mut found: Vec<Result<u64, Error>> = Vec::new();
    let mut k: usize = 0;
    while k < notes.tokens.len()
        invariant
            k <= notes.tokens@.len(),
            b == notes.board@,
            b.len() > 0,
            notes.board.spec_width() == width_of(b),
            tokens == moves_views(notes.tokens@),
            found@.len() == k,
            forall|i: int| 0 <= i < k ==> is_coins(#[trigger] found@[i], from_own_slots(b, tokens)(i)),
        decreases notes.tokens@.len() - k,
    {
        let coins = notes.board.simulate(k, notes.tokens[k].as_slice());
        proof {
            assert(tokens[k as int] == notes.tokens@[k as int]@);
        }
        found.push(coins);
        k += 1;
    }
    found
}

/// What each token wins from the slot that is best for it, one token after
/// the other.
pub(crate) fn rewards_from_best_slots(notes: &Notes) -> (found: Vec<Result<u64, Error>>)
    requires
        notes.board@.len() > 0,
    ensures
        found@.len() == notes.tokens@.len(),
        forall|i: int|
            0 <= i < found@.len() ==> is_coins(
                #[trigger] found@[i],
                from_best_slots(notes.board@, moves_views(notes.tokens@))(i),
            ),
{
    let width = notes.board.width();
    let ghost b = notes.board@;
    let ghost tokens = moves_views(notes.tokens@);
    let mut found: Vec<Result<u64, Error>> = Vec::new();
    let mut k: usize = 0;
    while k < notes.tokens.len()
        invariant
            k <= notes.tokens@.len(),
            b == notes.board@,
            b.len() > 0,
            notes.board.spec_width() == width_of(b),
            tokens == moves_views(notes.tokens@),
            found@.len() == k,
            forall|i: int| 0 <= i < k ==> is_coins(#[trigger] found@[i], from_best_slots(b, tokens)(i)),
        decreases notes.tokens@.len() - k,
    {
        let coins = notes.board.best_reward(&notes.tokens[k]);
        proof {
            assert(tokens[k as int] == notes.tokens@[k as int]@);
        }
        found.push(coins);
        k += 1;
    }
    found
}

} // verus!
