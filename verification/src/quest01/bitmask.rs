//! The least and the greatest total over all assignments, found token by
//! token over the sets of slots that are taken, each set held as the bits
//! of a number.

use vstd::prelude::*;
use crate::quest01::assignment::{
    is_assignment, is_grid, is_max_total, is_min_total, lemma_identity_is_assignment, total,
};
use crate::quest01::errors::Error;
use crate::quest01::matrix::ScoringMatrix;
use crate::quest01::sums::{lemma_sum_bounds, lemma_sum_eq};

verus! {

/// The greatest number of slots for which the table of slot sets is built.
pub const MAX_MASK_SLOTS: usize = 20;

/// Slot `s` is in the set `mask`.
pub open spec fn holds(mask: u64, s: int) -> bool {
    0 <= s < 64 && mask & (1u64 << (s as u64)) != 0
}

/// The set of the slots that `a` takes.
pub open spec fn mask_of(a: Seq<int>) -> u64
    decreases a.len(),
{
    if a.len() == 0 {
        0
    } else {
        mask_of(a.drop_last()) | (1u64 << (a.last() as u64))
    }
}

/// `a` gives each of its tokens a slot of its own, and `mask` is the set of
/// the slots that it takes.
pub open spec fn fills(a: Seq<int>, slots: int, mask: u64) -> bool {
    is_assignment(a, a.len() as int, slots) && mask_of(a) == mask
}

/// `cell` holds the least and the greatest total of the assignments of the
/// first `t` tokens that take the slots of `mask`, all of them but those
/// whose last token starts at or beyond slot `below`; it is empty where
/// there is no such assignment.
pub open spec fn sums_up(
    cell: Option<(u128, u128)>,
    m: Seq<Seq<int>>,
    slots: int,
    t: int,
    mask: u64,
    below: int,
) -> bool {
    match cell {
        None => forall|a: Seq<int>|
            !(a.len() == t && #[trigger] fills(a, slots, mask) && (t > 0 ==> a.last() < below)),
        Some((lo, hi)) => {
            &&& exists|a: Seq<int>| a.len() == t && #[trigger] fills(a, slots, mask) && total(m, a) == lo
            &&& exists|a: Seq<int>| a.len() == t && #[trigger] fills(a, slots, mask) && total(m, a) == hi
            &&& forall|a: Seq<int>|
                a.len() == t && #[trigger] fills(a, slots, mask) && (t > 0 ==> a.last() < below) ==> lo
                    <= total(m, a) <= hi
        },
    }
}

/// Every cell of the table sums up the assignments of the first `t` tokens
/// that take its set of slots.
pub open spec fn table_ok(table: Seq<Option<(u128, u128)>>, m: Seq<Seq<int>>, slots: int, t: int)
    -> bool {
    forall|k: int| 0 <= k < table.len() ==> sums_up(#[trigger] table[k], m, slots, t, k as u64, slots)
}

proof fn lemma_bits(mask: u64, s: u64, k: u64, n: u64)
    by (bit_vector)
    requires
        s < 64,
        k < 64,
        n < 64,
    ensures
        ((mask | (1u64 << s)) & (1u64 << k) != 0) == ((mask & (1u64 << k) != 0) || k == s),
        ((mask & !(1u64 << s)) & (1u64 << k) != 0) == ((mask & (1u64 << k) != 0) && k != s),
        mask & !(1u64 << s) <= mask,
        mask & (1u64 << s) == 0 ==> (mask | (1u64 << s)) & !(1u64 << s) == mask,
        mask & (1u64 << s) != 0 ==> (mask & !(1u64 << s)) | (1u64 << s) == mask,
        mask < (1u64 << n) && s < n ==> (mask | (1u64 << s)) < (1u64 << n),
        0u64 < (1u64 << n),
        0u64 & (1u64 << k) == 0,
{
}

proof fn lemma_table_size(n: u64)
    by (bit_vector)
    requires
        n <= 20,
    ensures
        0 < (1u64 << n) <= 0x100000,
{
}

/// The set of the slots that `a` takes holds the slots that `a` holds, and
/// no others.
proof fn lemma_mask_holds(a: Seq<int>, s: int)
    requires
        forall|t: int| 0 <= t < a.len() ==> 0 <= #[trigger] a[t] < 64,
        0 <= s < 64,
    ensures
        holds(mask_of(a), s) == a.contains(s),
    decreases a.len(),
{
    if a.len() > 0 {
        let b = a.drop_last();
        lemma_mask_holds(b, s);
        lemma_bits(mask_of(b), a.last() as u64, s as u64, 0);
        if b.contains(s) {
            let t = choose|t: int| 0 <= t < b.len() && b[t] == s;
            assert(a[t] == s);
        }
        if a.contains(s) && a.last() != s {
            let t = choose|t: int| 0 <= t < a.len() && a[t] == s;
            assert(b[t] == s);
        }
        if a.last() == s {
            assert(a[a.len() - 1] == s);
        }
    } else {
        lemma_bits(0, 0, s as u64, 0);
    }
}

/// The set of slots that an assignment takes is a number below two to the
/// number of slots.
proof fn lemma_mask_below(a: Seq<int>, slots: int)
    requires
        0 <= slots < 64,
        forall|t: int| 0 <= t < a.len() ==> 0 <= #[trigger] a[t] < slots,
    ensures
        mask_of(a) < (1u64 << (slots as u64)),
    decreases a.len(),
{
    if a.len() > 0 {
        lemma_mask_below(a.drop_last(), slots);
        assert(0 <= a[a.len() - 1] < slots);
        lemma_bits(mask_of(a.drop_last()), a.last() as u64, 0, slots as u64);
    } else {
        lemma_bits(0, 0, 0, slots as u64);
    }
}

/// What an assignment is worth is what it is worth without its last token,
/// and what the last token wins.
proof fn lemma_total_push(m: Seq<Seq<int>>, a: Seq<int>)
    requires
        a.len() > 0,
    ensures
        total(m, a) == total(m, a.drop_last()) + m[a.len() - 1][a.last()],
{
    let b = a.drop_last();
    lemma_sum_eq(|t: int| m[t][a[t]], |t: int| m[t][b[t]], b.len() as int);
}

/// An assignment of `t` tokens that takes the slots of `mask` without slot
/// `s` becomes, with slot `s` for the next token, an assignment that takes
/// the slots of `mask`.
proof fn lemma_extend(m: Seq<Seq<int>>, a: Seq<int>, slots: int, mask: u64, s: int)
    requires
        0 <= s < slots < 64,
        holds(mask, s),
        fills(a, slots, mask & !(1u64 << (s as u64))),
    ensures
        fills(a.push(s), slots, mask),
        total(m, a.push(s)) == total(m, a) + m[a.len() as int][s],
{
    let b = a.push(s);
    assert(b.drop_last() =~= a);
    lemma_total_push(m, b);
    lemma_bits(mask, s as u64, s as u64, 0);
    lemma_mask_holds(a, s);
    assert(!a.contains(s));
    assert forall|t1: int, t2: int| 0 <= t1 < t2 < b.len() implies b[t1] != b[t2] by {
        if t2 == a.len() {
            assert(a[t1] == b[t1]);
        } else {
            assert(a[t1] == b[t1] && a[t2] == b[t2]);
        }
    }
    assert forall|t: int| 0 <= t < b.len() implies 0 <= #[trigger] b[t] < slots by {
        if t < a.len() {
            assert(a[t] == b[t]);
        }
    }
}

/// An assignment that takes the slots of `mask` is, without its last token,
/// an assignment that takes the slots of `mask` without the slot of that
/// token.
proof fn lemma_shrink(m: Seq<Seq<int>>, a: Seq<int>, slots: int, mask: u64)
    requires
        0 <= slots < 64,
        a.len() > 0,
        fills(a, slots, mask),
    ensures
        0 <= a.last() < slots,
        holds(mask, a.last()),
        fills(a.drop_last(), slots, mask & !(1u64 << (a.last() as u64))),
        total(m, a) == total(m, a.drop_last()) + m[a.len() - 1][a.last()],
{
    let b = a.drop_last();
    let s = a.last();
    assert(0 <= a[a.len() - 1] < slots);
    lemma_total_push(m, a);
    assert forall|t: int| 0 <= t < b.len() implies 0 <= #[trigger] b[t] < 64 by {
        assert(b[t] == a[t]);
    }
    assert forall|t: int| 0 <= t < b.len() implies 0 <= #[trigger] b[t] < slots by {
        assert(b[t] == a[t]);
    }
    assert forall|t1: int, t2: int| 0 <= t1 < t2 < b.len() implies b[t1] != b[t2] by {
        assert(b[t1] == a[t1] && b[t2] == a[t2]);
    }
    lemma_mask_holds(b, s);
    if b.contains(s) {
        let t = choose|t: int| 0 <= t < b.len() && b[t] == s;
        assert(a[t] == s);
        assert(false);
    }
    lemma_bits(mask_of(b), s as u64, s as u64, 0);
}

/// What the first tokens win under an assignment is no more than their
/// number times the greatest reward that fits 64 bits.
proof fn lemma_prefix_bound(m: Seq<Seq<int>>, a: Seq<int>, slots: int)
    requires
        a.len() <= m.len(),
        is_assignment(a, a.len() as int, slots),
        forall|t: int, s: int| 0 <= t < m.len() && 0 <= s < slots ==> 0 <= #[trigger] m[t][s] <= u64::MAX,
    ensures
        0 <= total(m, a) <= a.len() * u64::MAX,
{
    let worth = |t: int| m[t][a[t]];
    assert forall|t: int| 0 <= t < a.len() implies 0 <= #[trigger] worth(t) <= u64::MAX by {
        assert(0 <= a[t] < slots);
    }
    lemma_sum_bounds(worth, a.len() as int, 0, u64::MAX as int);
}

/// The cell that holds `lo` and `hi` together with what `acc` holds.
fn merge(acc: Option<(u128, u128)>, lo: u128, hi: u128) -> (r: Option<(u128, u128)>)
    ensures
        r == Some(
            match acc {
                None => (lo, hi),
                Some((l, h)) => (if lo < l { lo } else { l }, if hi > h { hi } else { h }),
            },
        ),
{
    match acc {
        None => Some((lo, hi)),
        Some((l, h)) => Some((if lo < l { lo } else { l }, if hi > h { hi } else { h })),
    }
}

/// The cell for the set `mask` after token `t` is placed: each slot of the
/// set may be the one that token `t` takes, after the tokens before it have
/// taken the others.
fn next_cell(values: &ScoringMatrix, cur: &Vec<Option<(u128, u128)>>, t: usize, mask: u64) -> (cell:
    Option<(u128, u128)>)
    requires
        t < values@.len() <= values.spec_slots() <= MAX_MASK_SLOTS,
        cur@.len() == (1u64 << (values.spec_slots() as u64)),
        mask < cur@.len(),
        table_ok(cur@, values@, values.spec_slots(), t as int),
    ensures
        sums_up(cell, values@, values.spec_slots(), t + 1, mask, values.spec_slots()),
{
    let slots = values.slots();
    let ghost m = values@;
    let mut acc: Option<(u128, u128)> = None;
    let mut s: usize = 0;
    proof {
        lemma_table_size(slots as u64);
    }
    while s < slots
        invariant
            s <= slots,
            cur@.len() <= 0x100000,
            is_grid(m, slots as int),
            m == values@,
            slots == values.spec_slots(),
            t < m.len() <= slots <= MAX_MASK_SLOTS,
            cur@.len() == (1u64 << (slots as u64)),
            mask < cur@.len(),
            table_ok(cur@, m, slots as int, t as int),
            forall|t: int, s: int|
                0 <= t < m.len() && 0 <= s < slots ==> 0 <= #[trigger] m[t][s] <= u64::MAX,
            sums_up(acc, m, slots as int, t + 1, mask, s as int),
        decreases slots - s,
    {
        let ghost before = acc;
        let bit: u64 = 1u64 << (s as u64);
        if mask & bit != 0 {
            let rest: u64 = mask & !bit;
            proof {
                lemma_bits(mask, s as u64, 0, 0);
                assert(sums_up(cur@[rest as int], m, slots as int, t as int, rest, slots as int));
            }
            match cur[rest as usize] {
                Some((lo, hi)) => {
                    proof {
                        let a_lo = choose|a: Seq<int>|
                            a.len() == t && #[trigger] fills(a, slots as int, rest) && total(m, a)
                                == lo;
                        let a_hi = choose|a: Seq<int>|
                            a.len() == t && #[trigger] fills(a, slots as int, rest) && total(m, a)
                                == hi;
                        lemma_prefix_bound(m, a_lo, slots as int);
                        lemma_prefix_bound(m, a_hi, slots as int);
                        lemma_extend(m, a_lo, slots as int, mask, s as int);
                        lemma_extend(m, a_hi, slots as int, mask, s as int);
                        assert(fills(a_lo.push(s as int), slots as int, mask));
                        assert(fills(a_hi.push(s as int), slots as int, mask));
                        assert(t * u64::MAX + u64::MAX <= u128::MAX) by (nonlinear_arith)
                            requires
                                0 <= t <= 20,
                        ;
                    }
                    let v = values.get(t, s) as u128;
                    acc = merge(acc, lo + v, hi + v);
                    proof {
                        assert forall|a: Seq<int>|
                            a.len() == t + 1 && #[trigger] fills(a, slots as int, mask) && a.last()
                                < s + 1 implies acc.unwrap().0 <= total(m, a) <= acc.unwrap().1 by {
                            if a.last() == s {
                                lemma_shrink(m, a, slots as int, mask);
                                assert(fills(a.drop_last(), slots as int, rest));
                            }
                        }
                    }
                },
                None => {
                    proof {
                        assert forall|a: Seq<int>|
                            a.len() == t + 1 && #[trigger] fills(a, slots as int, mask)
                                implies a.last() != s by {
                            if a.last() == s {
                                lemma_shrink(m, a, slots as int, mask);
                                assert(fills(a.drop_last(), slots as int, rest));
                            }
                        }
                    }
                },
            }
        } else {
            proof {
                assert forall|a: Seq<int>|
                    a.len() == t + 1 && #[trigger] fills(a, slots as int, mask) implies a.last()
                    != s by {
                    if a.last() == s {
                        lemma_shrink(m, a, slots as int, mask);
                    }
                }
            }
        }
        s += 1;
    }
    acc
}

/// The table before any token is placed: no slot is taken, and nothing is
/// won.
fn first_table(values: &ScoringMatrix, size: usize) -> (table: Vec<Option<(u128, u128)>>)
    requires
        0 < size <= 0x100000,
    ensures
        table@.len() == size,
        table_ok(table@, values@, values.spec_slots(), 0),
{
    let mut table: Vec<Option<(u128, u128)>> = Vec::new();
    table.push(Some((0u128, 0u128)));
    let mut k: usize = 1;
    while k < size
        invariant
            1 <= k <= size,
            size <= 0x100000,
            table@.len() == k,
            table@[0] == Some((0u128, 0u128)),
            forall|i: int| 1 <= i < k ==> #[trigger] table@[i] is None,
        decreases size - k,
    {
        table.push(None);
        k += 1;
    }
    proof {
        let none = Seq::<int>::empty();
        assert(fills(none, values.spec_slots(), 0));
        assert(total(values@, none) == 0);
        assert forall|i: int| 0 <= i < table@.len() implies sums_up(
            #[trigger] table@[i],
            values@,
            values.spec_slots(),
            0,
            i as u64,
            values.spec_slots(),
        ) by {
            if i == 0 {
                assert(none.len() == 0 && fills(none, values.spec_slots(), 0) && total(
                    values@,
                    none,
                ) == 0);
                assert forall|a: Seq<int>| a.len() == 0 implies total(values@, a) == 0 by {}
            }
        }
    }
    table
}

/// The table after token `t` is placed, from the table before.
fn next_table(values: &ScoringMatrix, cur: &Vec<Option<(u128, u128)>>, t: usize) -> (next: Vec<
    Option<(u128, u128)>,
>)
    requires
        t < values@.len() <= values.spec_slots() <= MAX_MASK_SLOTS,
        cur@.len() == (1u64 << (values.spec_slots() as u64)),
        table_ok(cur@, values@, values.spec_slots(), t as int),
    ensures
        next@.len() == cur@.len(),
        table_ok(next@, values@, values.spec_slots(), t + 1),
{
    let size = cur.len();
    proof {
        lemma_table_size(values.spec_slots() as u64);
    }
    let mut next: Vec<Option<(u128, u128)>> = Vec::new();
    let mut mask: usize = 0;
    while mask < size
        invariant
            mask <= size,
            size == cur@.len(),
            size <= 0x100000,
            t < values@.len() <= values.spec_slots() <= MAX_MASK_SLOTS,
            cur@.len() == (1u64 << (values.spec_slots() as u64)),
            table_ok(cur@, values@, values.spec_slots(), t as int),
            next@.len() == mask,
            forall|k: int|
                0 <= k < mask ==> sums_up(
                    #[trigger] next@[k],
                    values@,
                    values.spec_slots(),
                    t + 1,
                    k as u64,
                    values.spec_slots(),
                ),
        decreases size - mask,
    {
        let cell = next_cell(values, cur, t, mask as u64);
        next.push(cell);
        mask += 1;
    }
    next
}

/// `acc` holds the least and the greatest total of the assignments of all
/// tokens that take a set of slots below `upto`; it is empty where there is
/// none.
spec fn scanned(acc: Option<(u128, u128)>, m: Seq<Seq<int>>, slots: int, upto: int) -> bool {
    match acc {
        None => forall|a: Seq<int>| #[trigger]
            is_assignment(a, m.len() as int, slots) ==> mask_of(a) >= upto,
        Some((lo, hi)) => {
            &&& exists|a: Seq<int>| #[trigger] is_assignment(a, m.len() as int, slots) && total(m, a) == lo
            &&& exists|a: Seq<int>| #[trigger] is_assignment(a, m.len() as int, slots) && total(m, a) == hi
            &&& forall|a: Seq<int>| #[trigger]
                is_assignment(a, m.len() as int, slots) && mask_of(a) < upto ==> lo <= total(m, a)
                    <= hi
        },
    }
}

/// The least and the greatest total that the tokens can win when each is
/// given a slot of its own, found token by token: for every set of slots
/// the table holds the least and the greatest that the tokens placed so far
/// can win from exactly those slots, and each token in turn takes one slot
/// more. With more tokens than slots the request is refused, and so it is
/// with more slots than `MAX_MASK_SLOTS`, for which the table is not built.
pub fn min_max_bitmask(values: &ScoringMatrix) -> (r: Result<(u128, u128), Error>)
    ensures
        match r {
            Ok((least, greatest)) => {
                &&& values@.len() <= values.spec_slots() <= MAX_MASK_SLOTS
                &&& is_min_total(values@, values.spec_slots(), least as int)
                &&& is_max_total(values@, values.spec_slots(), greatest as int)
            },
            Err(e) => if values@.len() > values.spec_slots() {
                e == Error::TooManyTokens
            } else {
                values.spec_slots() > MAX_MASK_SLOTS && e == Error::TooManySlots
            },
        },
{
    let n = values.tokens();
    let slots = values.slots();
    if n > slots {
        return Err(Error::TooManyTokens);
    }
    if slots > MAX_MASK_SLOTS {
        return Err(Error::TooManySlots);
    }
    let ghost m = values@;
    proof {
        lemma_table_size(slots as u64);
    }
    let size: usize = (1u64 << (slots as u64)) as usize;
    let mut cur = first_table(values, size);
    let mut t: usize = 0;
    while t < n
        invariant
            t <= n,
            n == values@.len(),
            slots == values.spec_slots(),
            n <= slots <= MAX_MASK_SLOTS,
            cur@.len() == (1u64 << (slots as u64)),
            table_ok(cur@, values@, slots as int, t as int),
        decreases n - t,
    {
        cur = next_table(values, &cur, t);
        t += 1;
    }
    let mut acc: Option<(u128, u128)> = None;
    let mut mask: usize = 0;
    while mask < cur.len()
        invariant
            mask <= cur@.len(),
            m == values@,
            n == m.len(),
            slots == values.spec_slots(),
            n <= slots <= MAX_MASK_SLOTS,
            cur@.len() == (1u64 << (slots as u64)),
            cur@.len() <= 0x100000,
            table_ok(cur@, m, slots as int, n as int),
            scanned(acc, m, slots as int, mask as int),
        decreases cur@.len() - mask,
    {
        proof {
            assert(sums_up(cur@[mask as int], m, slots as int, n as int, mask as u64, slots as int));
            assert forall|a: Seq<int>| #[trigger]
                is_assignment(a, n as int, slots as int) && mask_of(a) == mask implies fills(
                a,
                slots as int,
                mask as u64,
            ) by {}
        }
        match cur[mask] {
            Some((lo, hi)) => {
                proof {
                    let a_lo = choose|a: Seq<int>|
                        a.len() == n && #[trigger] fills(a, slots as int, mask as u64) && total(m, a)
                            == lo;
                    let a_hi = choose|a: Seq<int>|
                        a.len() == n && #[trigger] fills(a, slots as int, mask as u64) && total(m, a)
                            == hi;
                    assert(is_assignment(a_lo, n as int, slots as int));
                    assert(is_assignment(a_hi, n as int, slots as int));
                }
                acc = merge(acc, lo, hi);
            },
            None => {},
        }
        mask += 1;
    }
    match acc {
        Some((lo, hi)) => {
            proof {
                assert forall|a: Seq<int>| #[trigger]
                    is_assignment(a, n as int, slots as int) implies mask_of(a) < cur@.len() by {
                    lemma_mask_below(a, slots as int);
                }
            }
            Ok((lo, hi))
        },
        None => {
            proof {
                lemma_identity_is_assignment(n as int, slots as int);
                let id = Seq::new(n as nat, |t: int| t);
                lemma_mask_below(id, slots as int);
                assert(false);
            }
            Err(Error::TooManySlots)
        },
    }
}

} // verus!
