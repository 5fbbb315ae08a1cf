//! Finite sums of integer functions, and what they need for reasoning about
//! the total of an assignment.

use vstd::prelude::*;

verus! {

/// `f(0) + f(1) + ... + f(n - 1)`.
pub open spec fn sum(f: spec_fn(int) -> int, n: int) -> int
    decreases n,
{
    if n <= 0 {
        0
    } else {
        sum(f, n - 1) + f(n - 1)
    }
}

/// Functions that agree below `n` have the same sum.
pub proof fn lemma_sum_eq(f: spec_fn(int) -> int, g: spec_fn(int) -> int, n: int)
    requires
        forall|k: int| 0 <= k < n ==> #[trigger] f(k) == g(k),
    ensures
        sum(f, n) == sum(g, n),
    decreases n,
{
    if n > 0 {
        lemma_sum_eq(f, g, n - 1);
    }
}

/// A function that is nowhere larger has no larger sum.
pub proof fn lemma_sum_le(f: spec_fn(int) -> int, g: spec_fn(int) -> int, n: int)
    requires
        forall|k: int| 0 <= k < n ==> #[trigger] f(k) <= g(k),
    ensures
        sum(f, n) <= sum(g, n),
    decreases n,
{
    if n > 0 {
        lemma_sum_le(f, g, n - 1);
    }
}

/// The sum of a pointwise sum is the sum of the sums.
pub proof fn lemma_sum_add(f: spec_fn(int) -> int, g: spec_fn(int) -> int, n: int)
    ensures
        sum(|k: int| f(k) + g(k), n) == sum(f, n) + sum(g, n),
    decreases n,
{
    if n > 0 {
        lemma_sum_add(f, g, n - 1);
    }
}

/// A function that is `x` at `c` and zero elsewhere sums to `x` once the
/// range reaches past `c`, and to zero before.
pub proof fn lemma_sum_point(c: int, x: int, n: int)
    requires
        0 <= c,
    ensures
        sum(|k: int| if k == c { x } else { 0 }, n) == if c < n { x } else { 0 },
    decreases n,
{
    if n > 0 {
        lemma_sum_point(c, x, n - 1);
    }
}

/// A sum of terms that each lie between `lo` and `hi` lies between `n * lo`
/// and `n * hi`.
pub proof fn lemma_sum_bounds(f: spec_fn(int) -> int, n: int, lo: int, hi: int)
    requires
        0 <= n,
        forall|k: int| 0 <= k < n ==> lo <= #[trigger] f(k) <= hi,
    ensures
        n * lo <= sum(f, n) <= n * hi,
    decreases n,
{
    if n > 0 {
        lemma_sum_bounds(f, n - 1, lo, hi);
        assert((n - 1) * lo + lo == n * lo) by (nonlinear_arith);
        assert((n - 1) * hi + hi == n * hi) by (nonlinear_arith);
    } else {
        assert(n * lo == 0 && n * hi == 0) by (nonlinear_arith)
            requires
                n == 0,
        ;
    }
}

/// Summing `g` along a sequence without repeats, whose members lie below
/// `m`, is summing `g` over those numbers below `m` that the sequence holds.
pub proof fn lemma_sum_along(a: Seq<int>, g: spec_fn(int) -> int, m: int)
    requires
        forall|t: int| 0 <= t < a.len() ==> 0 <= #[trigger] a[t] < m,
        forall|t1: int, t2: int| 0 <= t1 < t2 < a.len() ==> a[t1] != a[t2],
    ensures
        sum(|t: int| g(a[t]), a.len() as int) == sum(
            |j: int| if a.contains(j) { g(j) } else { 0 },
            m,
        ),
    decreases a.len(),
{
    let along = |t: int| g(a[t]);
    let over = |j: int| if a.contains(j) { g(j) } else { 0 };
    if a.len() == 0 {
        let zero = |j: int| 0int;
        lemma_sum_eq(over, zero, m);
        lemma_sum_bounds(zero, if m >= 0 { m } else { 0 }, 0, 0);
    } else {
        let n = a.len() as int;
        let b = a.drop_last();
        let c = a.last();
        let along_b = |t: int| g(b[t]);
        let over_b = |j: int| if b.contains(j) { g(j) } else { 0 };
        let at_c = |j: int| if j == c { g(c) } else { 0 };
        lemma_sum_along(b, g, m);
        lemma_sum_eq(along, along_b, n - 1);
        assert(sum(along, n) == sum(along_b, n - 1) + g(c));
        assert forall|j: int| 0 <= j < m implies #[trigger] over(j) == over_b(j) + at_c(j) by {
            if b.contains(j) {
                let t = choose|t: int| 0 <= t < b.len() && b[t] == j;
                assert(a[t] == j);
                assert(j != c);
            } else if j == c {
                assert(a[n - 1] == j);
            } else if a.contains(j) {
                let t = choose|t: int| 0 <= t < a.len() && a[t] == j;
                assert(b[t] == j);
            }
        }
        lemma_sum_eq(over, |j: int| over_b(j) + at_c(j), m);
        lemma_sum_add(over_b, at_c, m);
        lemma_sum_point(c, g(c), m);
    }
}

} // verus!
