//! The least and the greatest total over all assignments, found by trying
//! every assignment.

use vstd::prelude::*;
use core::ops::Range;
use itertools::{Itertools, Permutations};
use crate::quest01::assignment::{
    is_assignment, is_max_total, is_min_total, lemma_identity_is_assignment, total,
};
use crate::quest01::errors::Error;
use crate::quest01::matrix::ScoringMatrix;
use crate::quest01::sums::sum;

verus! {

/// The slots of an arrangement as integers.
pub open spec fn slots_of(picks: Seq<usize>) -> Seq<int> {
    picks.map_values(|s: usize| s as int)
}

/// What itertools' `permutations` returns: a run through the ordered picks,
/// which gives them one by one.
#[verifier::external_type_specification]
#[verifier::external_body]
#[verifier::reject_recursive_types(I)]
pub struct ExPermutations<I: Iterator>(Permutations<I>);

/// The picks that a run through the arrangements has still to give, in the
/// order in which it gives them.
pub uninterp spec fn to_come(run: Permutations<Range<usize>>) -> Seq<Seq<usize>>;

/// A run through every way to pick `k` different numbers below `n` in some
/// order, from itertools' `permutations` on the range from zero to `n`.
/// Taken on trust from its documentation: that the run gives every such
/// ordered pick, and nothing else. In which order they come is not stated.
#[verifier::external_body]
fn arrangements(n: usize, k: usize) -> (run: Permutations<Range<usize>>)
    ensures
        forall|i: int|
            0 <= i < to_come(run).len() ==> is_assignment(
                slots_of(#[trigger] to_come(run)[i]),
                k as int,
                n as int,
            ),
        forall|a: Seq<int>| #[trigger]
            is_assignment(a, k as int, n as int) ==> exists|i: int|
                0 <= i < to_come(run).len() && slots_of(#[trigger] to_come(run)[i]) == a,
{
    (0..n).permutations(k)
}

/// The next pick of a run, from the `next` of itertools' `Permutations`.
/// Taken on trust from its source: that it gives the picks one by one, and
/// nothing once they are spent.
#[verifier::external_body]
fn next_arrangement(run: &mut Permutations<Range<usize>>) -> (r: Option<Vec<usize>>)
    ensures
        match r {
            Some(picks) => to_come(*old(run)).len() > 0 && picks@ == to_come(*old(run))[0]
                && to_come(*final(run)) == to_come(*old(run)).skip(1),
            None => to_come(*old(run)).len() == 0 && to_come(*final(run)).len() == 0,
        },
{
    run.next()
}

/// What the tokens win together when token `t` starts in slot `picks[t]`.
fn total_of(values: &ScoringMatrix, picks: &Vec<usize>) -> (so_far: u128)
    requires
        is_assignment(slots_of(picks@), values@.len() as int, values.spec_slots()),
    ensures
        so_far == total(values@, slots_of(picks@)),
{
    let n = values.tokens();
    let slots = values.slots();
    let ghost a = slots_of(picks@);
    let ghost worth = |t: int| values@[t][a[t]];
    let mut so_far: u128 = 0;
    let mut t: usize = 0;
    while t < n
        invariant
            t <= n,
            n == values@.len(),
            slots == values.spec_slots(),
            a == slots_of(picks@),
            worth == |t: int| values@[t][a[t]],
            is_assignment(a, n as int, slots as int),
            forall|t: int, s: int|
                0 <= t < values@.len() && 0 <= s < values.spec_slots() ==> 0 <= #[trigger] values@[t][s]
                    <= u64::MAX,
            so_far == sum(worth, t as int),
            so_far <= t * u64::MAX,
        decreases n - t,
    {
        proof {
            assert(0 <= a[t as int] < slots);
            assert(a[t as int] == picks@[t as int]);
            assert((t + 1) * u64::MAX == t * u64::MAX + u64::MAX) by (nonlinear_arith);
            assert(t * u64::MAX + u64::MAX <= u128::MAX) by (nonlinear_arith)
                requires
                    0 <= t < usize::MAX,
                    usize::MAX <= u64::MAX,
            ;
        }
        so_far = so_far + values.get(t, picks[t]) as u128;
        t += 1;
    }
    so_far
}

/// The least and the greatest total that the tokens can win when each is
/// given a slot of its own, found by adding up what every single assignment
/// is worth. With more tokens than slots the request is refused.
pub fn min_max_exhaustive(values: &ScoringMatrix) -> (r: Result<(u128, u128), Error>)
    ensures
        match r {
            Ok((least, greatest)) => {
                &&& values@.len() <= values.spec_slots()
                &&& is_min_total(values@, values.spec_slots(), least as int)
                &&& is_max_total(values@, values.spec_slots(), greatest as int)
            },
            Err(e) => values@.len() > values.spec_slots() && e == Error::TooManyTokens,
        },
{
    let n = values.tokens();
    let slots = values.slots();
    if n > slots {
        return Err(Error::TooManyTokens);
    }
    let mut run = arrangements(slots, n);
    let ghost all = to_come(run);
    let ghost mut done: int = 0;
    let mut found: Option<(u128, u128)> = None;
    loop
        invariant
            n == values@.len(),
            slots == values.spec_slots(),
            0 <= done <= all.len(),
            to_come(run) == all.skip(done),
            forall|k: int|
                0 <= k < all.len() ==> is_assignment(
                    slots_of(#[trigger] all[k]),
                    n as int,
                    slots as int,
                ),
            match found {
                None => done == 0,
                Some((lo, hi)) => {
                    &&& exists|k: int| 0 <= k < done && total(values@, slots_of(all[k])) == lo
                    &&& exists|k: int| 0 <= k < done && total(values@, slots_of(all[k])) == hi
                    &&& forall|k: int|
                        0 <= k < done ==> lo <= total(values@, slots_of(#[trigger] all[k])) <= hi
                },
            },
        ensures
            done == all.len(),
        decreases all.len() - done,
    {
        let picks = match next_arrangement(&mut run) {
            Some(picks) => picks,
            None => {
                break ;
            },
        };
        proof {
            assert(picks@ == all[done]);
            assert(all.skip(done).skip(1) =~= all.skip(done + 1));
        }
        let sum = total_of(values, &picks);
        found = match found {
            None => Some((sum, sum)),
            Some((lo, hi)) => Some((if sum < lo { sum } else { lo }, if sum > hi { sum } else { hi })),
        };
        proof {
            assert(total(values@, slots_of(all[done])) == sum);
            done = done + 1;
        }
    }
    match found {
        Some((lo, hi)) => {
            proof {
                let at_lo = choose|k: int| 0 <= k < done && total(values@, slots_of(all[k])) == lo;
                let at_hi = choose|k: int| 0 <= k < done && total(values@, slots_of(all[k])) == hi;
                assert(is_assignment(slots_of(all[at_lo]), n as int, slots as int));
                assert(is_assignment(slots_of(all[at_hi]), n as int, slots as int));
                assert forall|a: Seq<int>| #[trigger]
                    is_assignment(a, n as int, slots as int) implies lo <= total(values@, a)
                    <= hi by {
                    let k = choose|k: int| 0 <= k < all.len() && slots_of(#[trigger] all[k]) == a;
                    assert(lo <= total(values@, slots_of(all[k])) <= hi);
                }
            }
            Ok((lo, hi))
        },
        None => {
            proof {
                lemma_identity_is_assignment(n as int, slots as int);
                let id = Seq::new(n as nat, |t: int| t);
                let k = choose|k: int| 0 <= k < all.len() && slots_of(#[trigger] all[k]) == id;
                assert(false);
            }
            Err(Error::TooManyTokens)
        },
    }
}

} // verus!
