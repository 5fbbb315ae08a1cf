//! What every token wins from every slot.

use vstd::prelude::*;
use crate::quest01::board::{simulated, Board, Direction};
use crate::quest01::assignment::{grid_of, is_grid};
use crate::quest01::errors::Error;
use crate::quest01::matrix::ScoringMatrix;
use crate::quest01::parallel::par_map;

verus! {

/// What a token with the given moves wins from each of the first `slots`
/// slots, or why the first of those slots that refuses it does so.
pub open spec fn rewards_row(
    b: Seq<Seq<bool>>,
    width: int,
    moves: Seq<Direction>,
    slots: int,
) -> Result<Seq<int>, Error>
    decreases slots,
{
    if slots <= 0 {
        Ok(Seq::empty())
    } else {
        match rewards_row(b, width, moves, slots - 1) {
            Err(e) => Err(e),
            Ok(row) => match simulated(b, width, slots - 1, moves) {
                Ok(coins) => Ok(row.push(coins)),
                Err(e) => Err(e),
            },
        }
    }
}

/// The rewards of a row as integers.
pub open spec fn coins_of(row: Seq<u64>) -> Seq<int> {
    row.map_values(|c: u64| c as int)
}

/// `r` is the row of rewards `want`, or is refused as `want` is.
pub open spec fn is_row(r: Result<Vec<u64>, Error>, want: Result<Seq<int>, Error>) -> bool {
    match r {
        Ok(row) => want == Ok::<Seq<int>, Error>(coins_of(row@)),
        Err(e) => want == Err::<Seq<int>, Error>(e),
    }
}

impl Board {
    /// What a token with the given moves wins from each of the first `slots`
    /// slots.
    pub fn reward_row(&self, moves: &Vec<Direction>, slots: usize) -> (r: Result<Vec<u64>, Error>)
        ensures
            is_row(r, rewards_row(self@, self.spec_width(), moves@, slots as int)),
    {
        let mut row: Vec<u64> = Vec::new();
        let mut s: usize = 0;
        proof {
            assert(coins_of(row@) =~= Seq::<int>::empty());
        }
        while s < slots
            invariant
                s <= slots,
                rewards_row(self@, self.spec_width(), moves@, s as int) == Ok::<Seq<int>, Error>(
                    coins_of(row@),
                ),
            decreases slots - s,
        {
            match self.simulate(s, moves.as_slice()) {
                Ok(coins) => {
                    let ghost before = row@;
                    row.push(coins);
                    proof {
                        assert(coins_of(row@) =~= coins_of(before).push(coins as int));
                    }
                },
                Err(e) => {
                    proof {
                        lemma_row_error_stays(self@, self.spec_width(), moves@, s + 1, slots as int);
                    }
                    return Err(e);
                },
            }
            s += 1;
        }
        Ok(row)
    }
}

/// Once a slot refuses the token, every longer row is refused for the same
/// reason.
pub proof fn lemma_row_error_stays(
    b: Seq<Seq<bool>>,
    width: int,
    moves: Seq<Direction>,
    short: int,
    long: int,
)
    requires
        short <= long,
        rewards_row(b, width, moves, short) is Err,
    ensures
        rewards_row(b, width, moves, long) == rewards_row(b, width, moves, short),
    decreases long - short,
{
    if short < long {
        lemma_row_error_stays(b, width, moves, short, long - 1);
    }
}

/// What each of the first `upto` tokens wins from each of the first `slots`
/// slots, or why the first token that is refused is refused.
pub open spec fn rewards_upto(
    b: Seq<Seq<bool>>,
    width: int,
    tokens: Seq<Seq<Direction>>,
    slots: int,
    upto: int,
) -> Result<Seq<Seq<int>>, Error>
    decreases upto,
{
    if upto <= 0 {
        Ok(Seq::empty())
    } else {
        match rewards_upto(b, width, tokens, slots, upto - 1) {
            Err(e) => Err(e),
            Ok(m) => match rewards_row(b, width, tokens[upto - 1], slots) {
                Ok(row) => Ok(m.push(row)),
                Err(e) => Err(e),
            },
        }
    }
}

/// The table of what each token wins from each of the first `slots` slots.
pub open spec fn rewards(b: Seq<Seq<bool>>, width: int, tokens: Seq<Seq<Direction>>, slots: int)
    -> Result<Seq<Seq<int>>, Error> {
    rewards_upto(b, width, tokens, slots, tokens.len() as int)
}

/// What each of the lists of moves holds.
pub open spec fn moves_views(tokens: Seq<Vec<Direction>>) -> Seq<Seq<Direction>> {
    Seq::new(tokens.len(), |t: int| tokens[t]@)
}

/// A row of rewards has an entry for each slot.
pub proof fn lemma_row_len(b: Seq<Seq<bool>>, width: int, moves: Seq<Direction>, slots: int)
    requires
        0 <= slots,
    ensures
        match rewards_row(b, width, moves, slots) {
            Ok(row) => row.len() == slots,
            Err(_) => true,
        },
    decreases slots,
{
    if slots > 0 {
        lemma_row_len(b, width, moves, slots - 1);
    }
}

/// Once a token is refused, the table is refused for the same reason
/// however many tokens follow.
pub proof fn lemma_rewards_error_stays(
    b: Seq<Seq<bool>>,
    width: int,
    tokens: Seq<Seq<Direction>>,
    slots: int,
    short: int,
    long: int,
)
    requires
        short <= long,
        rewards_upto(b, width, tokens, slots, short) is Err,
    ensures
        rewards_upto(b, width, tokens, slots, long) == rewards_upto(b, width, tokens, slots, short),
    decreases long - short,
{
    if short < long {
        lemma_rewards_error_stays(b, width, tokens, slots, short, long - 1);
    }
}

/// A copy of a row.
fn copy_row(row: &Vec<u64>) -> (out: Vec<u64>)
    ensures
        out@ == row@,
{
    let mut out: Vec<u64> = Vec::new();
    let mut s: usize = 0;
    while s < row.len()
        invariant
            s <= row@.len(),
            out@ == row@.subrange(0, s as int),
        decreases row@.len() - s,
    {
        out.push(row[s]);
        proof {
            assert(out@ =~= row@.subrange(0, s + 1));
        }
        s += 1;
    }
    proof {
        assert(out@ =~= row@);
    }
    out
}

/// `r` is the table `want`, for `slots` slots, or is refused as `want` is.
pub open spec fn is_table(r: Result<ScoringMatrix, Error>, want: Result<Seq<Seq<int>>, Error>, slots: int)
    -> bool {
    match r {
        Ok(m) => want == Ok::<Seq<Seq<int>>, Error>(m@) && m.spec_slots() == slots,
        Err(e) => want == Err::<Seq<Seq<int>>, Error>(e),
    }
}

/// Builds the table of what each token wins from each of the first `slots`
/// slots. The tokens do not depend on each other, and their rows are worked
/// out side by side. Where a token is refused from a slot, the table is
/// refused for the reason that the first such token, in the order given, is
/// refused from the first slot that refuses it.
pub fn build_matrix(board: &Board, tokens: &Vec<Vec<Direction>>, slots: usize) -> (r: Result<
    ScoringMatrix,
    Error,
>)
    ensures
        is_table(
            r,
            rewards(board@, board.spec_width(), moves_views(tokens@), slots as int),
            slots as int,
        ),
{
    let row = |moves: &Vec<Direction>| -> (r: Result<Vec<u64>, Error>)
        ensures
            is_row(r, rewards_row(board@, board.spec_width(), moves@, slots as int)),
        { board.reward_row(moves, slots) };
    let found = par_map(tokens, row);
    matrix_of(board, tokens, slots, found)
}

/// Builds the same table, one token after the other.
pub fn build_matrix_in_turn(board: &Board, tokens: &Vec<Vec<Direction>>, slots: usize) -> (r: Result<
    ScoringMatrix,
    Error,
>)
    ensures
        is_table(
            r,
            rewards(board@, board.spec_width(), moves_views(tokens@), slots as int),
            slots as int,
        ),
{
    let mut found: Vec<Result<Vec<u64>, Error>> = Vec::new();
    let mut t: usize = 0;
    while t < tokens.len()
        invariant
            t <= tokens@.len(),
            found@.len() == t,
            forall|k: int|
                0 <= k < t ==> is_row(
                    #[trigger] found@[k],
                    rewards_row(board@, board.spec_width(), tokens@[k]@, slots as int),
                ),
        decreases tokens@.len() - t,
    {
        found.push(board.reward_row(&tokens[t], slots));
        t += 1;
    }
    matrix_of(board, tokens, slots, found)
}

/// The table that the rows make, or the first refusal among them.
fn matrix_of(
    board: &Board,
    tokens: &Vec<Vec<Direction>>,
    slots: usize,
    found: Vec<Result<Vec<u64>, Error>>,
) -> (r: Result<ScoringMatrix, Error>)
    requires
        found@.len() == tokens@.len(),
        forall|k: int|
            0 <= k < tokens@.len() ==> is_row(
                #[trigger] found@[k],
                rewards_row(board@, board.spec_width(), tokens@[k]@, slots as int),
            ),
    ensures
        is_table(
            r,
            rewards(board@, board.spec_width(), moves_views(tokens@), slots as int),
            slots as int,
        ),
{
    let ghost b = board@;
    let ghost width = board.spec_width();
    let ghost all = moves_views(tokens@);
    let mut rows: Vec<Vec<u64>> = Vec::new();
    let mut t: usize = 0;
    proof {
        assert(grid_of(rows@) =~= Seq::<Seq<int>>::empty());
    }
    while t < found.len()
        invariant
            t <= found@.len(),
            found@.len() == tokens@.len(),
            b == board@,
            width == board.spec_width(),
            all == moves_views(tokens@),
            forall|k: int|
                0 <= k < tokens@.len() ==> is_row(
                    #[trigger] found@[k],
                    rewards_row(b, width, tokens@[k]@, slots as int),
                ),
            rows@.len() == t,
            rewards_upto(b, width, all, slots as int, t as int) == Ok::<Seq<Seq<int>>, Error>(
                grid_of(rows@),
            ),
            is_grid(grid_of(rows@), slots as int),
        decreases found@.len() - t,
    {
        proof {
            assert(all[t as int] == tokens@[t as int]@);
            assert(is_row(found@[t as int], rewards_row(b, width, tokens@[t as int]@, slots as int)));
            lemma_row_len(b, width, all[t as int], slots as int);
        }
        match &found[t] {
            Ok(coins) => {
                let ghost before = rows@;
                rows.push(copy_row(coins));
                proof {
                    assert(grid_of(rows@) =~= grid_of(before).push(coins_of(coins@))) by {
                        assert forall|k: int| 0 <= k < rows@.len() implies #[trigger] grid_of(
                            rows@,
                        )[k] == grid_of(before).push(coins_of(coins@))[k] by {
                            if k < before.len() {
                                assert(rows@[k] == before[k]);
                            } else {
                                assert(grid_of(rows@)[k] =~= coins_of(coins@));
                            }
                        }
                    }
                }
            },
            Err(e) => {
                proof {
                    assert(rewards_row(b, width, all[t as int], slots as int) == Err::<
                        Seq<int>,
                        Error,
                    >(*e));
                    assert(rewards_upto(b, width, all, slots as int, t + 1) == Err::<
                        Seq<Seq<int>>,
                        Error,
                    >(*e));
                    lemma_rewards_error_stays(b, width, all, slots as int, t + 1, all.len() as int);
                }
                return Err(*e);
            },
        }
        t += 1;
    }
    match ScoringMatrix::new(rows, slots) {
        Some(m) => Ok(m),
        None => {
            proof {
                assert(false);
            }
            Err(Error::SlotOffBoard)
        },
    }
}

} // verus!
