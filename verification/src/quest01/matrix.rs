//! The table of what each token wins from each slot.

use vstd::prelude::*;
use crate::quest01::assignment::{complement, grid_of, is_grid};

verus! {

/// A dense table of rewards: one row for each token, one entry in the row for
/// each slot that the token may start from. Every row has the same length.
pub struct ScoringMatrix {
    rows: Vec<Vec<u64>>,
    slots: usize,
}

impl View for ScoringMatrix {
    type V = Seq<Seq<int>>;

    /// The rewards as integers, row by row.
    closed spec fn view(&self) -> Seq<Seq<int>> {
        grid_of(self.rows@)
    }
}

impl ScoringMatrix {
    #[verifier::type_invariant]
    spec fn rectangular(self) -> bool {
        forall|t: int| 0 <= t < self.rows@.len() ==> (#[trigger] self.rows@[t])@.len() == self.slots
    }

    /// The number of slots, which is the length of every row.
    pub closed spec fn spec_slots(&self) -> int {
        self.slots as int
    }

    /// A matrix of the given rows for `slots` slots, if every row has `slots`
    /// entries, and nothing otherwise.
    pub fn new(rows: Vec<Vec<u64>>, slots: usize) -> (r: Option<ScoringMatrix>)
        ensures
            r is Some <==> is_grid(grid_of(rows@), slots as int),
            r is Some ==> r.unwrap()@ == grid_of(rows@) && r.unwrap().spec_slots() == slots,
    {
        let mut t: usize = 0;
        while t < rows.len()
            invariant
                t <= rows@.len(),
                forall|k: int| 0 <= k < t ==> (#[trigger] rows@[k])@.len() == slots,
            decreases rows@.len() - t,
        {
            if rows[t].len() != slots {
                proof {
                    assert(grid_of(rows@)[t as int].len() == rows@[t as int]@.len());
                }
                return None;
            }
            t += 1;
        }
        proof {
            assert forall|k: int| 0 <= k < grid_of(rows@).len() implies (#[trigger] grid_of(
                rows@,
            )[k]).len() == slots by {
                assert(rows@[k]@.len() == slots);
            }
        }
        Some(ScoringMatrix { rows, slots })
    }

    /// The number of tokens.
    pub fn tokens(&self) -> (n: usize)
        ensures
            n == self@.len(),
    {
        self.rows.len()
    }

    /// The number of slots. Every row has that many entries, and every entry
    /// is a reward that fits 64 bits.
    pub fn slots(&self) -> (n: usize)
        ensures
            n == self.spec_slots(),
            is_grid(self@, self.spec_slots()),
            forall|t: int, s: int|
                0 <= t < self@.len() && 0 <= s < self.spec_slots() ==> 0 <= #[trigger] self@[t][s]
                    <= u64::MAX,
    {
        proof {
            use_type_invariant(self);
            assert forall|t: int| 0 <= t < self@.len() implies (#[trigger] self@[t]).len()
                == self.spec_slots() by {
                assert(self.rows@[t]@.len() == self.slots);
            }
        }
        self.slots
    }

    /// What token `t` wins from slot `s`.
    pub fn get(&self, t: usize, s: usize) -> (x: u64)
        requires
            t < self@.len(),
            s < self.spec_slots(),
        ensures
            x == self@[t as int][s as int],
    {
        proof {
            use_type_invariant(self);
        }
        self.rows[t][s]
    }


    /// The greatest entry of the matrix, or zero if it has no entry.
    pub fn max_entry(&self) -> (top: u64)
        ensures
            is_top_entry(self@, top as int),
    {
        proof {
            use_type_invariant(self);
        }
        let mut top: u64 = 0;
        let ghost mut at: Option<(int, int)> = None;
        let mut t: usize = 0;
        while t < self.rows.len()
            invariant
                t <= self.rows@.len(),
                self.rectangular(),
                forall|r: int, s: int|
                    0 <= r < t && 0 <= s < self@[r].len() ==> #[trigger] self@[r][s] <= top,
                match at {
                    Some((r, s)) => 0 <= r < self@.len() && 0 <= s < self@[r].len() && self@[r][s]
                        == top,
                    None => top == 0,
                },
            decreases self.rows@.len() - t,
        {
            let row = &self.rows[t];
            let mut s: usize = 0;
            while s < row.len()
                invariant
                    t < self.rows@.len(),
                    *row == self.rows@[t as int],
                    s <= row@.len(),
                    forall|r: int, s: int|
                        0 <= r < t && 0 <= s < self@[r].len() ==> #[trigger] self@[r][s] <= top,
                    forall|k: int| 0 <= k < s ==> #[trigger] self@[t as int][k] <= top,
                    match at {
                        Some((r, s)) => 0 <= r < self@.len() && 0 <= s < self@[r].len()
                            && self@[r][s] == top,
                        None => top == 0,
                    },
                decreases row@.len() - s,
            {
                if row[s] > top {
                    top = row[s];
                    proof {
                        at = Some((t as int, s as int));
                    }
                }
                s += 1;
            }
            t += 1;
        }
        top
    }

    /// The matrix whose entries are `c` less those of this one, where `c` is
    /// no less than any entry.
    pub fn complement(&self, c: u64) -> (r: ScoringMatrix)
        requires
            forall|t: int, s: int|
                0 <= t < self@.len() && 0 <= s < self.spec_slots() ==> #[trigger] self@[t][s] <= c,
        ensures
            r@ == complement(self@, c as int),
            r.spec_slots() == self.spec_slots(),
    {
        proof {
            use_type_invariant(self);
        }
        let mut rows: Vec<Vec<u64>> = Vec::new();
        let mut t: usize = 0;
        while t < self.rows.len()
            invariant
                t <= self.rows@.len(),
                self.rectangular(),
                rows@.len() == t,
                forall|t: int, s: int|
                    0 <= t < self@.len() && 0 <= s < self.spec_slots() ==> #[trigger] self@[t][s]
                        <= c,
                forall|r: int|
                    0 <= r < t ==> (#[trigger] rows@[r])@.len() == self.slots && forall|s: int|
                        0 <= s < self.slots ==> #[trigger] rows@[r]@[s] == c - self.rows@[r]@[s],
            decreases self.rows@.len() - t,
        {
            let mut row: Vec<u64> = Vec::new();
            let mut s: usize = 0;
            while s < self.slots
                invariant
                    t < self.rows@.len(),
                    self.rectangular(),
                    s <= self.slots,
                    row@.len() == s,
                    forall|t: int, s: int|
                        0 <= t < self@.len() && 0 <= s < self.spec_slots() ==> #[trigger] self@[t][s]
                            <= c,
                    forall|k: int| 0 <= k < s ==> #[trigger] row@[k] == c - self.rows@[t as int]@[k],
                decreases self.slots - s,
            {
                proof {
                    assert(self@[t as int][s as int] <= c);
                }
                row.push(c - self.rows[t][s]);
                s += 1;
            }
            rows.push(row);
            t += 1;
        }
        let r = ScoringMatrix { rows, slots: self.slots };
        proof {
            assert(r@.len() == complement(self@, c as int).len());
            assert forall|t: int| 0 <= t < r@.len() implies #[trigger] r@[t] == complement(
                self@,
                c as int,
            )[t] by {
                assert(r.rows@[t]@.len() == self.slots);
                assert(r@[t] =~= complement(self@, c as int)[t]);
            }
            assert(r@ =~= complement(self@, c as int));
        }
        r
    }
}

/// `top` is no less than any entry of `m`, and is one of its entries, or
/// zero where no entry is positive.
pub open spec fn is_top_entry(m: Seq<Seq<int>>, top: int) -> bool {
    &&& forall|t: int, s: int| 0 <= t < m.len() && 0 <= s < m[t].len() ==> #[trigger] m[t][s] <= top
    &&& top == 0 || exists|t: int, s: int|
        0 <= t < m.len() && 0 <= s < m[t].len() && #[trigger] m[t][s] == top
}

} // verus!
