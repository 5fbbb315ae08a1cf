//! What it means to assign tokens to distinct slots, what such an assignment
//! is worth, and when a number is the least or the greatest worth that any
//! assignment reaches.

use vstd::prelude::*;
use crate::quest01::sums::{sum, lemma_sum_eq, lemma_sum_add, lemma_sum_bounds};

verus! {

/// Every row of `m` has `slots` entries.
pub open spec fn is_grid(m: Seq<Seq<int>>, slots: int) -> bool {
    forall|t: int| 0 <= t < m.len() ==> (#[trigger] m[t]).len() == slots
}

/// `a` gives each of `tokens` tokens a slot below `slots`, and no slot to two
/// tokens.
pub open spec fn is_assignment(a: Seq<int>, tokens: int, slots: int) -> bool {
    &&& a.len() == tokens
    &&& forall|t: int| 0 <= t < a.len() ==> 0 <= #[trigger] a[t] < slots
    &&& forall|t1: int, t2: int| 0 <= t1 < t2 < a.len() ==> a[t1] != a[t2]
}

/// What the tokens win together when token `t` starts in slot `a[t]`.
pub open spec fn total(m: Seq<Seq<int>>, a: Seq<int>) -> int {
    sum(|t: int| m[t][a[t]], a.len() as int)
}

/// Some assignment is worth `v`, and none is worth less.
pub open spec fn is_min_total(m: Seq<Seq<int>>, slots: int, v: int) -> bool {
    &&& exists|a: Seq<int>| #[trigger] is_assignment(a, m.len() as int, slots) && total(m, a) == v
    &&& forall|a: Seq<int>| #[trigger] is_assignment(a, m.len() as int, slots) ==> total(m, a) >= v
}

/// Some assignment is worth `v`, and none is worth more.
pub open spec fn is_max_total(m: Seq<Seq<int>>, slots: int, v: int) -> bool {
    &&& exists|a: Seq<int>| #[trigger] is_assignment(a, m.len() as int, slots) && total(m, a) == v
    &&& forall|a: Seq<int>| #[trigger] is_assignment(a, m.len() as int, slots) ==> total(m, a) <= v
}

/// The matrix whose entries are `c` less those of `m`.
pub open spec fn complement(m: Seq<Seq<int>>, c: int) -> Seq<Seq<int>> {
    Seq::new(m.len(), |t: int| Seq::new(m[t].len(), |s: int| c - m[t][s]))
}

/// The rows of a matrix as the grid of integers that they hold.
pub open spec fn grid_of(rows: Seq<Vec<u64>>) -> Seq<Seq<int>> {
    Seq::new(rows.len(), |t: int| Seq::new(rows[t]@.len(), |s: int| rows[t]@[s] as int))
}

/// When tokens are no more than slots, giving token `t` slot `t` is an
/// assignment: so some assignment exists.
pub proof fn lemma_identity_is_assignment(tokens: int, slots: int)
    requires
        0 <= tokens <= slots,
    ensures
        is_assignment(Seq::new(tokens as nat, |t: int| t), tokens, slots),
{
}

/// With more tokens than slots nothing is an assignment.
pub proof fn lemma_no_assignment(a: Seq<int>, tokens: int, slots: int)
    requires
        tokens > slots >= 0,
    ensures
        !is_assignment(a, tokens, slots),
    decreases slots,
{
    if is_assignment(a, tokens, slots) {
        if slots == 0 {
            assert(0 <= a[0] < slots);
        } else {
            // Drop the token that holds the last slot, if any, or else the
            // last token: what is left assigns one token fewer to one slot
            // fewer.
            let last = slots - 1;
            let k = if a.contains(last) {
                choose|k: int| 0 <= k < a.len() && a[k] == last
            } else {
                a.len() - 1
            };
            let b = a.remove(k);
            assert forall|t: int| 0 <= t < b.len() implies 0 <= #[trigger] b[t] < last by {
                let t0 = if t < k { t } else { t + 1 };
                assert(b[t] == a[t0]);
                if a.contains(last) {
                    assert(t0 != k);
                    if t0 < k {
                        assert(a[t0] != a[k]);
                    } else {
                        assert(a[k] != a[t0]);
                    }
                }
            }
            assert forall|t1: int, t2: int| 0 <= t1 < t2 < b.len() implies b[t1] != b[t2] by {
                let s1 = if t1 < k { t1 } else { t1 + 1 };
                let s2 = if t2 < k { t2 } else { t2 + 1 };
                assert(b[t1] == a[s1] && b[t2] == a[s2]);
            }
            lemma_no_assignment(b, tokens - 1, last);
        }
    }
}

/// The least total is one number: two that both are the least are equal.
/// Whatever way it is computed, the same minimum comes out.
pub proof fn lemma_min_total_unique(m: Seq<Seq<int>>, slots: int, v1: int, v2: int)
    requires
        is_min_total(m, slots, v1),
        is_min_total(m, slots, v2),
    ensures
        v1 == v2,
{
}

/// The greatest total is one number: two that both are the greatest are
/// equal.
pub proof fn lemma_max_total_unique(m: Seq<Seq<int>>, slots: int, v1: int, v2: int)
    requires
        is_max_total(m, slots, v1),
        is_max_total(m, slots, v2),
    ensures
        v1 == v2,
{
}

/// However the least and the greatest total of a matrix are found, the
/// same pair of numbers comes out: two pairs that each hold a least and a
/// greatest total are one pair.
pub proof fn lemma_same_answer(m: Seq<Seq<int>>, slots: int, one: (int, int), other: (int, int))
    requires
        is_min_total(m, slots, one.0),
        is_max_total(m, slots, one.1),
        is_min_total(m, slots, other.0),
        is_max_total(m, slots, other.1),
    ensures
        one == other,
{
    lemma_min_total_unique(m, slots, one.0, other.0);
    lemma_max_total_unique(m, slots, one.1, other.1);
}

/// An assignment is worth, on the complement of a matrix by `c`, the number
/// of tokens times `c` less what it is worth on the matrix.
pub proof fn lemma_total_of_complement(m: Seq<Seq<int>>, slots: int, c: int, a: Seq<int>)
    requires
        is_grid(m, slots),
        is_assignment(a, m.len() as int, slots),
    ensures
        total(complement(m, c), a) == m.len() * c - total(m, a),
{
    let n = m.len() as int;
    let mc = complement(m, c);
    let f = |t: int| m[t][a[t]];
    let g = |t: int| mc[t][a[t]];
    let k = |t: int| c;
    assert forall|t: int| 0 <= t < n implies #[trigger] k(t) == (|t: int| f(t) + g(t))(t) by {
        assert(0 <= a[t] < slots);
        assert(m[t].len() == slots);
        assert(mc[t][a[t]] == c - m[t][a[t]]);
    }
    lemma_sum_eq(k, |t: int| f(t) + g(t), n);
    lemma_sum_add(f, g, n);
    lemma_sum_bounds(k, n, c, c);
}

/// The greatest total of a matrix is the number of tokens times `c`, less
/// the least total of the complement of the matrix by `c`.
pub proof fn lemma_max_by_complement(m: Seq<Seq<int>>, slots: int, c: int, v: int)
    requires
        is_grid(m, slots),
        is_min_total(complement(m, c), slots, v),
    ensures
        is_max_total(m, slots, m.len() * c - v),
{
    let mc = complement(m, c);
    assert(mc.len() == m.len());
    let best = choose|a: Seq<int>| #[trigger]
        is_assignment(a, mc.len() as int, slots) && total(mc, a) == v;
    lemma_total_of_complement(m, slots, c, best);
    assert(is_assignment(best, m.len() as int, slots) && total(m, best) == m.len() * c - v);
    assert forall|a: Seq<int>| #[trigger]
        is_assignment(a, m.len() as int, slots) implies total(m, a) <= m.len() * c - v by {
        lemma_total_of_complement(m, slots, c, a);
        assert(is_assignment(a, mc.len() as int, slots));
    }
}

/// Where every entry of a matrix lies between `lo` and `hi`, what an
/// assignment is worth lies between the number of tokens times `lo` and the
/// number of tokens times `hi`.
pub proof fn lemma_total_bounds(m: Seq<Seq<int>>, slots: int, a: Seq<int>, lo: int, hi: int)
    requires
        is_assignment(a, m.len() as int, slots),
        forall|t: int, s: int| 0 <= t < m.len() && 0 <= s < slots ==> lo <= #[trigger] m[t][s] <= hi,
    ensures
        m.len() * lo <= total(m, a) <= m.len() * hi,
{
    let worth = |t: int| m[t][a[t]];
    assert forall|t: int| 0 <= t < m.len() implies lo <= #[trigger] worth(t) <= hi by {
        assert(0 <= a[t] < slots);
    }
    lemma_sum_bounds(worth, m.len() as int, lo, hi);
}

} // verus!
