//! The least total over all assignments of tokens to distinct slots, found
//! row by row with potentials on rows and columns and shortest augmenting
//! paths.

use vstd::prelude::*;
use crate::quest01::assignment::{
    is_assignment, is_grid, is_max_total, is_min_total, lemma_max_by_complement,
    lemma_no_assignment, lemma_total_bounds, total,
};
use crate::quest01::errors::Error;
use crate::quest01::matrix::ScoringMatrix;
use crate::quest01::sums::{
    lemma_sum_add, lemma_sum_along, lemma_sum_eq, lemma_sum_le, sum,
};

verus! {

/// Stands for "no row" where a row is expected, and for the root of a search
/// where a column is expected.
pub const NONE: usize = usize::MAX;

/// The distance to a column that no row of the tree has been compared with
/// yet.
const UNREACHED: i128 = i128::MAX;

/// What the edge from row `r` to column `j` costs beyond the two potentials.
spec fn slack(c: Seq<Seq<int>>, u: Seq<i128>, v: Seq<i128>, r: int, j: int) -> int {
    c[r][j] - u[r] - v[j]
}

/// The row from which the way leads on to a column whose `way` is `w`.
spec fn row_of(p: Seq<usize>, w: usize, i: int) -> int {
    if w == NONE {
        i
    } else {
        p[w as int] as int
    }
}

/// Row `r` is the root `i` or holds a column of the tree.
spec fn in_tree(used: Seq<bool>, col_of: Seq<int>, r: int, i: int) -> bool {
    r == i || (0 <= r < i && used[col_of[r]])
}

/// The way back from column `j` starts at the root or at a column of the
/// tree.
spec fn linked(way: Seq<usize>, used: Seq<bool>, m: int, j: int) -> bool {
    way[j] == NONE || (way[j] < m && used[way[j] as int])
}

/// The state of the search for a cheapest assignment.
struct Search {
    /// The potential of each row.
    u: Vec<i128>,
    /// The potential of each column.
    v: Vec<i128>,
    /// The row that holds each column, or `NONE`.
    p: Vec<usize>,
    /// For each column outside the tree, the least slack of an edge that
    /// leads to it from a row of the tree.
    minv: Vec<i128>,
    /// For each column, the column of the tree before it on the way back to
    /// the root, or `NONE` where the root row itself comes before it.
    way: Vec<usize>,
    /// Which columns are in the tree.
    used: Vec<bool>,
    /// The column that each matched row holds.
    col_of: Ghost<Seq<int>>,
    /// When each column of the tree joined it.
    rank: Ghost<Seq<int>>,
    /// The rows that joined the tree after the root, in the order of joining.
    joined: Ghost<Seq<int>>,
}

impl Search {
    spec fn shaped(&self, c: Seq<Seq<int>>, m: int) -> bool {
        &&& is_grid(c, m)
        &&& c.len() <= m <= usize::MAX
        &&& forall|r: int, j: int|
            0 <= r < c.len() && 0 <= j < m ==> 0 <= #[trigger] c[r][j] <= u64::MAX
        &&& self.u@.len() == c.len()
        &&& self.v@.len() == m
        &&& self.p@.len() == m
        &&& self.minv@.len() == m
        &&& self.way@.len() == m
        &&& self.used@.len() == m
        &&& self.rank@.len() == m
    }

    /// Rows `0..i` and the columns that hold a row are matched one to one.
    spec fn matched(&self, i: int, m: int) -> bool {
        &&& self.col_of@.len() == i
        &&& forall|r: int|
            0 <= r < i ==> 0 <= #[trigger] self.col_of@[r] < m && self.p@[self.col_of@[r]] == r
        &&& forall|j: int|
            0 <= j < m && (#[trigger] self.p@[j]) != NONE ==> self.p@[j] < i
                && self.col_of@[self.p@[j] as int] == j
    }

    /// No edge has negative slack, no column has a positive potential, a
    /// free column has potential zero, and the potentials are small.
    spec fn duals(&self, c: Seq<Seq<int>>, m: int) -> bool {
        &&& forall|r: int, j: int|
            0 <= r < c.len() && 0 <= j < m ==> #[trigger] slack(c, self.u@, self.v@, r, j) >= 0
        &&& forall|j: int| 0 <= j < m ==> -u64::MAX <= #[trigger] self.v@[j] <= 0
        &&& forall|j: int| 0 <= j < m && (#[trigger] self.p@[j]) == NONE ==> self.v@[j] == 0
        &&& forall|r: int| 0 <= r < c.len() ==> 0 <= #[trigger] self.u@[r] <= u64::MAX
    }

    /// Every matched edge but the one into column `skip` has no slack.
    spec fn tight_except(&self, c: Seq<Seq<int>>, m: int, skip: int) -> bool {
        forall|j: int|
            0 <= j < m && j != skip && (#[trigger] self.p@[j]) != NONE ==> slack(c, self.u@, self.v@, self.p@[j] as int, j) == 0
    }

    /// Rows `0..i` are matched, and the potentials fit the matching.
    spec fn settled(&self, c: Seq<Seq<int>>, m: int, i: int) -> bool {
        &&& self.shaped(c, m)
        &&& 0 <= i <= c.len()
        &&& self.matched(i, m)
        &&& self.duals(c, m)
        &&& self.tight_except(c, m, -1)
    }

    /// Every column of the tree holds a row, joined at its rank, and hangs by
    /// an edge without slack from the root or from a column that joined
    /// before it.
    spec fn tree(&self, c: Seq<Seq<int>>, m: int, i: int) -> bool {
        &&& is_assignment(self.joined@, self.joined@.len() as int, i)
        &&& forall|k: int|
            0 <= k < self.joined@.len() ==> self.used@[self.col_of@[#[trigger] self.joined@[k]]]
        &&& forall|j: int|
            0 <= j < m && #[trigger] self.used@[j] ==> {
                &&& self.p@[j] != NONE
                &&& 0 <= self.rank@[j] < self.joined@.len()
                &&& linked(self.way@, self.used@, m, j)
                &&& self.way@[j] != NONE ==> self.rank@[self.way@[j] as int] < self.rank@[j]
                &&& slack(c, self.u@, self.v@, row_of(self.p@, self.way@[j], i), j) == 0
            }
    }

    /// For each column outside the tree, `minv` is the slack of the edge
    /// from the row before it on its way, and no row of the tree but
    /// `skip_row` has an edge to it with less slack.
    spec fn reach(&self, c: Seq<Seq<int>>, m: int, i: int, skip_row: int) -> bool {
        &&& forall|j: int|
            0 <= j < m && !#[trigger] self.used@[j] ==> {
                ||| self.minv@[j] == UNREACHED
                ||| {
                    &&& 0 <= self.minv@[j] <= 2 * u64::MAX
                    &&& linked(self.way@, self.used@, m, j)
                    &&& self.minv@[j] == slack(c, self.u@, self.v@, row_of(self.p@, self.way@[j], i), j)
                }
            }
        &&& forall|r: int, j: int|
            0 <= r <= i && 0 <= j < m && !self.used@[j] && in_tree(self.used@, self.col_of@, r, i) && r != skip_row
                ==> self.minv@[j] <= #[trigger] slack(c, self.u@, self.v@, r, j)
    }

    /// The search from root `i` has a tree, and row `i0`, which hangs from
    /// column `j0`, is the one row of the tree whose edges were not looked at
    /// yet.
    spec fn growing(&self, c: Seq<Seq<int>>, m: int, i: int, i0: int, j0: usize) -> bool {
        &&& self.settled(c, m, i)
        &&& i < c.len()
        &&& self.tree(c, m, i)
        &&& self.reach(c, m, i, i0)
        &&& j0 == NONE || (j0 < m && self.used@[j0 as int])
        &&& row_of(self.p@, j0, i) == i0
    }

    /// Every row of the tree has been looked at, and column `j1`, outside
    /// the tree, is the nearest, at distance `delta`.
    spec fn scanned(&self, c: Seq<Seq<int>>, m: int, i: int, delta: int, j1: int) -> bool {
        &&& self.settled(c, m, i)
        &&& i < c.len()
        &&& self.tree(c, m, i)
        &&& self.reach(c, m, i, -1)
        &&& 0 <= j1 < m
        &&& !self.used@[j1]
        &&& delta == self.minv@[j1]
        &&& 0 <= delta <= 2 * u64::MAX
        &&& forall|j: int|
            0 <= j < m && !#[trigger] self.used@[j] ==> self.minv@[j] != UNREACHED && delta
                <= self.minv@[j]
    }

    /// Nothing but `minv` and `way` differs from `pre`.
    spec fn same_but_reach(&self, pre: Search) -> bool {
        &&& self.u@ == pre.u@
        &&& self.v@ == pre.v@
        &&& self.p@ == pre.p@
        &&& self.used@ == pre.used@
        &&& self.col_of@ == pre.col_of@
        &&& self.rank@ == pre.rank@
        &&& self.joined@ == pre.joined@
    }

    /// Looks at every edge from row `i0` to a column outside the tree, and
    /// finds the column outside the tree that is nearest to the tree.
    fn scan(&mut self, cost: &ScoringMatrix, i: usize, i0: usize, j0: usize, Ghost(free): Ghost<int>)
        -> (found: (i128, usize))
        requires
            old(self).growing(cost@, cost.spec_slots(), i as int, i0 as int, j0),
            0 <= free < cost.spec_slots(),
            old(self).p@[free] == NONE,
        ensures
            final(self).scanned(
                cost@,
                cost.spec_slots(),
                i as int,
                found.0 as int,
                found.1 as int,
            ),
            final(self).same_but_reach(*old(self)),
    {
        let ghost c = cost@;
        let ghost pre = *self;
        let m = cost.slots();
        let mut delta: i128 = UNREACHED;
        let mut j1: usize = NONE;
        let mut j: usize = 0;
        while j < m
            invariant
                c == cost@,
                m == cost.spec_slots(),
                j <= m,
                0 <= free < m,
                i0 < c.len(),
                i0 <= i,
                pre.growing(c, m as int, i as int, i0 as int, j0),
                pre.p@[free] == NONE,
                self.same_but_reach(pre),
                self.shaped(c, m as int),
                forall|k: int| j <= k < m ==> self.minv@[k] == pre.minv@[k] && self.way@[k] == pre.way@[k],
                forall|k: int|
                    0 <= k < m && !#[trigger] self.used@[k] ==> {
                        ||| self.minv@[k] == UNREACHED && k >= j
                        ||| {
                            &&& 0 <= self.minv@[k] <= 2 * u64::MAX
                            &&& linked(self.way@, self.used@, m as int, k)
                            &&& self.minv@[k] == slack(c, self.u@, self.v@, row_of(self.p@, self.way@[k], i as int), k)
                        }
                    },
                forall|k: int|
                    0 <= k < j && !#[trigger] self.used@[k] ==> self.minv@[k] <= slack(c, self.u@, self.v@, i0 as int, k) && self.minv@[k] <= pre.minv@[k] && delta <= self.minv@[k],
                forall|k: int|
                    0 <= k < m && #[trigger] self.used@[k] ==> self.minv@[k] == pre.minv@[k]
                        && self.way@[k] == pre.way@[k],
                j1 == NONE ==> delta == UNREACHED && (free < j ==> false),
                j1 != NONE ==> j1 < j && !self.used@[j1 as int] && delta == self.minv@[j1 as int],
            decreases m - j,
        {
            if !self.used[j] {
                proof {
                    assert(slack(c, pre.u@, pre.v@, i0 as int, j as int) >= 0);
                    assert(0 <= c[i0 as int][j as int] <= u64::MAX);
                    assert(0 <= self.u@[i0 as int] <= u64::MAX);
                    assert(-u64::MAX <= self.v@[j as int] <= 0);
                }
                let cur: i128 = cost.get(i0, j) as i128 - self.u[i0] - self.v[j];
                if cur < self.minv[j] {
                    self.minv.set(j, cur);
                    self.way.set(j, j0);
                }
                if self.minv[j] < delta {
                    delta = self.minv[j];
                    j1 = j;
                }
            }
            j += 1;
        }
        proof {
            assert(!pre.used@[free]);
            assert forall|r: int, k: int|
                0 <= r <= i && 0 <= k < m && !self.used@[k] && in_tree(self.used@, self.col_of@, r, i as int) && r
                    != -1 implies self.minv@[k] <= #[trigger] slack(c, self.u@, self.v@, r, k) by {
                if r != i0 {
                    assert(in_tree(pre.used@, pre.col_of@, r, i as int));
                    assert(pre.minv@[k] <= slack(c, pre.u@, pre.v@, r, k));
                }
            }
            assert(self.tree(c, m as int, i as int));
        }
        (delta, j1)
    }

    /// `self` is `pre` after the potentials of the rows of the tree went up
    /// by `delta`, those of its columns went down by `delta`, and the
    /// distances to the columns outside went down by `delta`.
    spec fn shifted_from(&self, pre: Search, m: int, i: int, delta: int) -> bool {
        &&& self.p@ == pre.p@
        &&& self.way@ == pre.way@
        &&& self.used@ == pre.used@
        &&& self.col_of@ == pre.col_of@
        &&& self.rank@ == pre.rank@
        &&& self.joined@ == pre.joined@
        &&& self.u@.len() == pre.u@.len()
        &&& self.v@.len() == pre.v@.len()
        &&& self.minv@.len() == pre.minv@.len()
        &&& forall|r: int|
            0 <= r < self.u@.len() ==> #[trigger] self.u@[r] == pre.u@[r] + if in_tree(
                pre.used@,
                pre.col_of@,
                r,
                i,
            ) {
                delta
            } else {
                0
            }
        &&& forall|j: int|
            0 <= j < m ==> #[trigger] self.v@[j] == pre.v@[j] - if pre.used@[j] {
                delta
            } else {
                0
            }
        &&& forall|j: int|
            0 <= j < m ==> #[trigger] self.minv@[j] == pre.minv@[j] - if pre.used@[j] {
                0
            } else {
                delta
            }
    }

    /// Raises the potentials of the rows of the tree by `delta` and lowers
    /// those of its columns by `delta`, so that the nearest column outside
    /// comes to hang by an edge without slack.
    fn shift(&mut self, cost: &ScoringMatrix, i: usize, delta: i128, Ghost(j1): Ghost<int>)
        requires
            old(self).scanned(cost@, cost.spec_slots(), i as int, delta as int, j1),
        ensures
            final(self).shifted_from(*old(self), cost.spec_slots(), i as int, delta as int),
    {
        let ghost c = cost@;
        let ghost pre = *self;
        let m = self.v.len();
        let mut j: usize = 0;
        while j < m
            invariant
                j <= m,
                m == cost.spec_slots(),
                c == cost@,
                pre.scanned(c, m as int, i as int, delta as int, j1),
                self.p@ == pre.p@,
                self.way@ == pre.way@,
                self.used@ == pre.used@,
                self.col_of@ == pre.col_of@,
                self.rank@ == pre.rank@,
                self.joined@ == pre.joined@,
                self.u@.len() == pre.u@.len(),
                self.v@.len() == pre.v@.len(),
                self.minv@.len() == pre.minv@.len(),
                forall|r: int|
                    0 <= r < self.u@.len() ==> #[trigger] self.u@[r] == pre.u@[r] + if 0 <= r < i
                        && pre.used@[pre.col_of@[r]] && pre.col_of@[r] < j {
                        delta as int
                    } else {
                        0
                    },
                forall|k: int|
                    0 <= k < m ==> #[trigger] self.v@[k] == pre.v@[k] - if pre.used@[k] && k < j {
                        delta as int
                    } else {
                        0
                    },
                forall|k: int|
                    0 <= k < m ==> #[trigger] self.minv@[k] == pre.minv@[k] - if !pre.used@[k] && k
                        < j {
                        delta as int
                    } else {
                        0
                    },
            decreases m - j,
        {
            if self.used[j] {
                let r = self.p[j];
                proof {
                    assert(pre.p@[j as int] != NONE);
                    assert(pre.col_of@[r as int] == j);
                    assert(0 <= pre.u@[r as int] <= u64::MAX);
                    assert(-u64::MAX <= pre.v@[j as int] <= 0);
                }
                let raised = self.u[r] + delta;
                let lowered = self.v[j] - delta;
                self.u.set(r, raised);
                self.v.set(j, lowered);
            } else {
                let nearer = self.minv[j] - delta;
                self.minv.set(j, nearer);
            }
            j += 1;
        }
        proof {
            assert(0 <= pre.u@[i as int] <= u64::MAX);
        }
        let raised = self.u[i] + delta;
        self.u.set(i, raised);
    }

    /// After a shift by the distance to the nearest column `j1` outside the
    /// tree, the potentials still fit the matching and the tree, and `j1`
    /// hangs off the tree by an edge without slack.
    proof fn lemma_shift_keeps(
        self,
        pre: Search,
        c: Seq<Seq<int>>,
        m: int,
        i: int,
        delta: int,
        j1: int,
        free: int,
    )
        requires
            pre.scanned(c, m, i, delta, j1),
            self.shifted_from(pre, m, i, delta),
            0 <= free < m,
            pre.p@[free] == NONE,
        ensures
            self.settled(c, m, i),
            self.tree(c, m, i),
            self.reach(c, m, i, -1),
            self.minv@[j1] == 0,
            forall|j: int| 0 <= j < m && !#[trigger] self.used@[j] ==> self.minv@[j] != UNREACHED,
            linked(self.way@, self.used@, m, j1),
            slack(c, self.u@, self.v@, row_of(self.p@, self.way@[j1], i), j1) == 0,
    {
        let n = c.len() as int;
        // The change of the slack of every edge.
        assert forall|r: int, j: int| 0 <= r < n && 0 <= j < m implies #[trigger] slack(c, self.u@, self.v@, r, j) == slack(c, pre.u@, pre.v@, r, j) - (if in_tree(pre.used@, pre.col_of@, r, i) {
            delta
        } else {
            0
        }) + (if pre.used@[j] {
            delta
        } else {
            0
        }) by {
            let _ = self.u@[r];
            let _ = self.v@[j];
        }
        // The row before a linked column on its way is a row of the tree.
        assert forall|j: int| 0 <= j < m && linked(pre.way@, pre.used@, m, j) implies in_tree(
            pre.used@,
            pre.col_of@,
            #[trigger] row_of(pre.p@, pre.way@[j], i),
            i,
        ) && 0 <= row_of(pre.p@, pre.way@[j], i) <= i by {
            let w = pre.way@[j];
            if w != NONE {
                assert(pre.used@[w as int]);
                assert(pre.p@[w as int] != NONE);
            }
        }
        assert(!pre.used@[free]);
        assert forall|r: int, j: int| 0 <= r < n && 0 <= j < m implies #[trigger] slack(c, self.u@, self.v@, r, j) >= 0 by {
            assert(slack(c, pre.u@, pre.v@, r, j) >= 0);
            if in_tree(pre.used@, pre.col_of@, r, i) && !pre.used@[j] {
                assert(pre.minv@[j] <= slack(c, pre.u@, pre.v@, r, j));
            }
        }
        assert(self.tight_except(c, m, -1)) by {
            assert forall|j: int| 0 <= j < m && j != -1 && (#[trigger] self.p@[j])
                != NONE implies slack(c, self.u@, self.v@, self.p@[j] as int, j) == 0 by {
                let r = pre.p@[j] as int;
                assert(pre.col_of@[r] == j);
                assert(slack(c, pre.u@, pre.v@, r, j) == 0);
                assert(in_tree(pre.used@, pre.col_of@, r, i) == pre.used@[j]);
            }
        }
        assert forall|r: int| 0 <= r < n implies 0 <= #[trigger] self.u@[r] <= u64::MAX by {
            assert(0 <= pre.u@[r] <= u64::MAX);
            assert(slack(c, self.u@, self.v@, r, free) >= 0);
            assert(self.v@[free] == 0);
            assert(0 <= c[r][free] <= u64::MAX);
        }
        assert forall|j: int| 0 <= j < m implies -u64::MAX <= #[trigger] self.v@[j] <= 0 by {
            assert(-u64::MAX <= pre.v@[j] <= 0);
            if pre.used@[j] {
                let r = pre.p@[j] as int;
                assert(self.p@[j] != NONE);
                assert(slack(c, self.u@, self.v@, r, j) == 0);
                assert(0 <= self.u@[r] <= u64::MAX);
                assert(0 <= c[r][j] <= u64::MAX);
            }
        }
        assert(self.duals(c, m));
        assert(self.matched(i, m));
        assert(self.settled(c, m, i));
        assert(self.tree(c, m, i)) by {
            assert forall|j: int| 0 <= j < m && #[trigger] self.used@[j] implies slack(c, self.u@, self.v@, row_of(self.p@, self.way@[j], i), j) == 0 by {
                assert(linked(pre.way@, pre.used@, m, j));
                let rw = row_of(pre.p@, pre.way@[j], i);
                assert(in_tree(pre.used@, pre.col_of@, rw, i));
                assert(slack(c, pre.u@, pre.v@, rw, j) == 0);
            }
        }
        assert(self.reach(c, m, i, -1)) by {
            assert forall|j: int| 0 <= j < m && !#[trigger] self.used@[j] implies {
                &&& 0 <= self.minv@[j] <= 2 * u64::MAX
                &&& linked(self.way@, self.used@, m, j)
                &&& self.minv@[j] == slack(c, self.u@, self.v@, row_of(self.p@, self.way@[j], i), j)
            } by {
                assert(pre.minv@[j] != UNREACHED);
                assert(linked(pre.way@, pre.used@, m, j));
                let rw = row_of(pre.p@, pre.way@[j], i);
                assert(in_tree(pre.used@, pre.col_of@, rw, i));
                assert(pre.minv@[j] == slack(c, pre.u@, pre.v@, rw, j));
                let _ = self.minv@[j];
            }
            assert forall|r: int, j: int|
                0 <= r <= i && 0 <= j < m && !self.used@[j] && in_tree(
                    self.used@,
                    self.col_of@,
                    r,
                    i,
                ) && r != -1 implies self.minv@[j] <= #[trigger] slack(c, self.u@, self.v@, r, j) by {
                assert(pre.minv@[j] <= slack(c, pre.u@, pre.v@, r, j));
                let _ = self.minv@[j];
            }
        }
        let _ = self.minv@[j1];
        assert(linked(pre.way@, pre.used@, m, j1));
    }

    /// While fewer rows are matched than there are columns, some column is
    /// free.
    proof fn lemma_free_column(self, i: int, m: int)
        requires
            self.matched(i, m),
            self.p@.len() == m,
            0 <= i < m,
        ensures
            exists|f: int| 0 <= f < m && self.p@[f] == NONE,
    {
        if forall|f: int| 0 <= f < m ==> self.p@[f] != NONE {
            let holders = Seq::new(m as nat, |j: int| self.p@[j] as int);
            assert forall|j1: int, j2: int| 0 <= j1 < j2 < holders.len() implies holders[j1]
                != holders[j2] by {
                assert(self.col_of@[self.p@[j1] as int] == j1);
                assert(self.col_of@[self.p@[j2] as int] == j2);
            }
            assert forall|j: int| 0 <= j < holders.len() implies 0 <= #[trigger] holders[j] < i by {
                assert(self.p@[j] != NONE);
            }
            lemma_no_assignment(holders, m, i);
        }
    }

    /// The search from root `i` has reached the free column `leaf`, which
    /// hangs off the tree by an edge without slack.
    spec fn grown(&self, c: Seq<Seq<int>>, m: int, i: int, leaf: int) -> bool {
        &&& self.settled(c, m, i)
        &&& i < c.len()
        &&& self.tree(c, m, i)
        &&& 0 <= leaf < m
        &&& !self.used@[leaf]
        &&& self.p@[leaf] == NONE
        &&& linked(self.way@, self.used@, m, leaf)
        &&& slack(c, self.u@, self.v@, row_of(self.p@, self.way@[leaf], i), leaf) == 0
        &&& self.rank@[leaf] == self.joined@.len()
    }

    /// Grows a tree of edges without slack from row `i` until it reaches a
    /// free column, and returns that column.
    fn grow(&mut self, cost: &ScoringMatrix, i: usize) -> (leaf: usize)
        requires
            old(self).settled(cost@, cost.spec_slots(), i as int),
            i < cost@.len(),
        ensures
            final(self).grown(cost@, cost.spec_slots(), i as int, leaf as int),
    {
        let ghost c = cost@;
        let ghost start = *self;
        let m = cost.slots();
        let mut j: usize = 0;
        while j < m
            invariant
                j <= m,
                m == cost.spec_slots(),
                self.shaped(c, m as int),
                self.u@ == start.u@,
                self.v@ == start.v@,
                self.p@ == start.p@,
                self.col_of@ == start.col_of@,
                forall|k: int| 0 <= k < j ==> !self.used@[k] && self.minv@[k] == UNREACHED,
            decreases m - j,
        {
            self.used.set(j, false);
            self.minv.set(j, UNREACHED);
            j += 1;
        }
        self.joined = Ghost(Seq::empty());
        proof {
            self.lemma_free_column(i as int, m as int);
        }
        let ghost free = choose|f: int| 0 <= f < m && self.p@[f] == NONE;
        let mut j0: usize = NONE;
        let mut i0: usize = i;
        proof {
            assert(self.duals(c, m as int));
            assert(self.tight_except(c, m as int, -1));
            assert(self.matched(i as int, m as int));
        }
        loop
            invariant_except_break
                self.growing(c, m as int, i as int, i0 as int, j0),
                self.p@[free] == NONE,
                self.joined@.len() <= i,
            invariant
                c == cost@,
                m == cost.spec_slots(),
                i < c.len(),
                0 <= free < m,
            ensures
                self.grown(c, m as int, i as int, j0 as int),
            decreases i - self.joined@.len(),
        {
            j0 = self.nearest(cost, i, i0, j0, Ghost(free));
            if self.p[j0] == NONE {
                self.stop(Ghost(c), Ghost(i as int), j0);
                break ;
            }
            i0 = self.join(Ghost(c), Ghost(i as int), j0);
        }
        j0
    }

    /// Every row of the tree has been looked at, and column `j1`, the
    /// nearest outside the tree, hangs off it by an edge without slack.
    spec fn reached(&self, c: Seq<Seq<int>>, m: int, i: int, j1: int) -> bool {
        &&& self.settled(c, m, i)
        &&& i < c.len()
        &&& self.tree(c, m, i)
        &&& self.reach(c, m, i, -1)
        &&& 0 <= j1 < m
        &&& !self.used@[j1]
        &&& self.minv@[j1] == 0
        &&& forall|j: int| 0 <= j < m && !#[trigger] self.used@[j] ==> self.minv@[j] != UNREACHED
        &&& linked(self.way@, self.used@, m, j1)
        &&& slack(c, self.u@, self.v@, row_of(self.p@, self.way@[j1], i), j1) == 0
    }

    /// Looks at the edges of row `i0`, the newest of the tree, and moves the
    /// potentials so that the nearest column outside the tree comes to hang
    /// off it by an edge without slack. Returns that column.
    fn nearest(&mut self, cost: &ScoringMatrix, i: usize, i0: usize, j0: usize, Ghost(free): Ghost<int>)
        -> (j1: usize)
        requires
            old(self).growing(cost@, cost.spec_slots(), i as int, i0 as int, j0),
            0 <= free < cost.spec_slots(),
            old(self).p@[free] == NONE,
        ensures
            final(self).reached(cost@, cost.spec_slots(), i as int, j1 as int),
            final(self).p@ == old(self).p@,
            final(self).joined@ == old(self).joined@,
    {
        let found = self.scan(cost, i, i0, j0, Ghost(free));
        let ghost mid = *self;
        self.shift(cost, i, found.0, Ghost(found.1 as int));
        proof {
            self.lemma_shift_keeps(
                mid,
                cost@,
                cost.spec_slots(),
                i as int,
                found.0 as int,
                found.1 as int,
                free,
            );
        }
        found.1
    }

    /// Ends the growth of the tree at the free column `leaf`.
    fn stop(&mut self, Ghost(c): Ghost<Seq<Seq<int>>>, Ghost(i): Ghost<int>, leaf: usize)
        requires
            old(self).reached(c, old(self).v@.len() as int, i, leaf as int),
            old(self).p@[leaf as int] == NONE,
        ensures
            final(self).grown(c, old(self).v@.len() as int, i, leaf as int),
    {
        let ghost pre = *self;
        let ghost m = self.v@.len() as int;
        self.rank = Ghost(self.rank@.update(leaf as int, self.joined@.len() as int));
        proof {
            assert(self.duals(c, m));
            assert(self.tight_except(c, m, -1));
            assert(self.matched(i, m));
            assert forall|j: int| 0 <= j < m && #[trigger] self.used@[j] implies {
                &&& self.p@[j] != NONE
                &&& 0 <= self.rank@[j] < self.joined@.len()
                &&& linked(self.way@, self.used@, m, j)
                &&& self.way@[j] != NONE ==> self.rank@[self.way@[j] as int] < self.rank@[j]
                &&& slack(c, self.u@, self.v@, row_of(self.p@, self.way@[j], i), j) == 0
            } by {
                assert(pre.used@[j]);
                assert(linked(pre.way@, pre.used@, m, j));
            }
        }
    }

    /// Takes column `j1`, the nearest outside the tree, and the row that
    /// holds it into the tree. Returns that row.
    fn join(&mut self, Ghost(c): Ghost<Seq<Seq<int>>>, Ghost(i): Ghost<int>, j1: usize) -> (row: usize)
        requires
            old(self).reached(c, old(self).v@.len() as int, i, j1 as int),
            old(self).p@[j1 as int] != NONE,
        ensures
            final(self).growing(c, old(self).v@.len() as int, i, row as int, j1),
            final(self).p@ == old(self).p@,
            final(self).joined@.len() == old(self).joined@.len() + 1,
            final(self).joined@.len() <= i,
    {
        let ghost pre = *self;
        let row = self.p[j1];
        self.used.set(j1, true);
        self.rank = Ghost(self.rank@.update(j1 as int, self.joined@.len() as int));
        self.joined = Ghost(self.joined@.push(row as int));
        proof {
            self.lemma_join_keeps(pre, c, self.v@.len() as int, i, j1 as int);
        }
        row
    }

    /// `self` is `pre` after column `j1` and the row that holds it joined the
    /// tree.
    spec fn joined_from(&self, pre: Search, j1: int) -> bool {
        &&& self.u@ == pre.u@
        &&& self.v@ == pre.v@
        &&& self.p@ == pre.p@
        &&& self.minv@ == pre.minv@
        &&& self.way@ == pre.way@
        &&& self.col_of@ == pre.col_of@
        &&& self.used@ == pre.used@.update(j1, true)
        &&& self.rank@ == pre.rank@.update(j1, pre.joined@.len() as int)
        &&& self.joined@ == pre.joined@.push(pre.p@[j1] as int)
    }

    /// When the nearest column outside the tree holds a row, the two join
    /// the tree, and that row is the one whose edges are looked at next.
    proof fn lemma_join_keeps(self, pre: Search, c: Seq<Seq<int>>, mi: int, ii: int, j0: int)
        requires
            pre.settled(c, mi, ii),
            ii < c.len(),
            pre.tree(c, mi, ii),
            pre.reach(c, mi, ii, -1),
            0 <= j0 < mi,
            !pre.used@[j0],
            pre.p@[j0] != NONE,
            pre.minv@[j0] == 0,
            forall|j: int| 0 <= j < mi && !#[trigger] pre.used@[j] ==> pre.minv@[j] != UNREACHED,
            linked(pre.way@, pre.used@, mi, j0),
            slack(c, pre.u@, pre.v@, row_of(pre.p@, pre.way@[j0], ii), j0) == 0,
            self.joined_from(pre, j0),
        ensures
            self.growing(c, mi, ii, pre.p@[j0] as int, j0 as usize),
            self.joined@.len() <= ii,
    {
        let i0 = pre.p@[j0] as int;
        let m = mi;
        assert(pre.col_of@[i0] == j0);
        assert(self.duals(c, mi));
        assert(self.tight_except(c, mi, -1));
        assert(self.matched(ii, mi));
        assert forall|k: int| 0 <= k < self.joined@.len() implies self.used@[self.col_of@[#[trigger] self.joined@[k]]] by {
            if k < pre.joined@.len() {
                assert(self.joined@[k] == pre.joined@[k]);
                assert(pre.used@[pre.col_of@[pre.joined@[k]]]);
            }
        }
        assert forall|k1: int, k2: int| 0 <= k1 < k2 < self.joined@.len() implies self.joined@[k1] != self.joined@[k2] by {
            assert(self.joined@[k1] == pre.joined@[k1]);
            assert(pre.used@[pre.col_of@[pre.joined@[k1]]]);
            if k2 < pre.joined@.len() {
                assert(self.joined@[k2] == pre.joined@[k2]);
            }
        }
        assert forall|k: int| 0 <= k < self.joined@.len() implies 0 <= #[trigger] self.joined@[k] < ii by {
            if k < pre.joined@.len() {
                assert(self.joined@[k] == pre.joined@[k]);
            }
        }
        assert(is_assignment(self.joined@, self.joined@.len() as int, ii));
        if self.joined@.len() > ii {
            lemma_no_assignment(self.joined@, self.joined@.len() as int, ii);
        }
        assert forall|j: int| 0 <= j < mi && #[trigger] self.used@[j] implies {
            &&& self.p@[j] != NONE
            &&& 0 <= self.rank@[j] < self.joined@.len()
            &&& linked(self.way@, self.used@, mi, j)
            &&& self.way@[j] != NONE ==> self.rank@[self.way@[j] as int] < self.rank@[j]
            &&& slack(c, self.u@, self.v@, row_of(self.p@, self.way@[j], ii), j) == 0
        } by {
            if j != j0 {
                assert(pre.used@[j]);
                assert(linked(pre.way@, pre.used@, mi, j));
            } else {
                assert(linked(pre.way@, pre.used@, mi, j));
                if pre.way@[j] != NONE {
                    assert(pre.used@[pre.way@[j] as int]);
                }
            }
        }
        assert(self.tree(c, mi, ii));
        assert forall|j: int| 0 <= j < mi && !#[trigger] self.used@[j] implies {
            &&& 0 <= self.minv@[j] <= 2 * u64::MAX
            &&& linked(self.way@, self.used@, mi, j)
            &&& self.minv@[j] == slack(c, self.u@, self.v@, row_of(self.p@, self.way@[j], ii), j)
        } by {
            assert(!pre.used@[j]);
            assert(pre.minv@[j] != UNREACHED);
            assert(linked(pre.way@, pre.used@, mi, j));
        }
        assert forall|r: int, j: int|
            0 <= r <= ii && 0 <= j < mi && !self.used@[j] && in_tree(self.used@, self.col_of@, r, ii)
                && r != i0 implies self.minv@[j] <= #[trigger] slack(c, self.u@, self.v@, r, j) by {
            assert(in_tree(pre.used@, pre.col_of@, r, ii)) by {
                if r != ii {
                    if self.col_of@[r] == j0 {
                        assert(pre.p@[pre.col_of@[r]] == r);
                    }
                }
            }
            assert(!pre.used@[j]);
        }
        assert(self.reach(c, mi, ii, i0));
    }

    /// On the way from the free column `leaf` back to the root, column `j0`
    /// waits for its new row; every column after it on the way has got its
    /// own, and nothing else has changed since `before`.
    spec fn augmenting(&self, before: Search, c: Seq<Seq<int>>, m: int, i: int, leaf: int, j0: int) -> bool {
        &&& before.grown(c, m, i, leaf)
        &&& self.shaped(c, m)
        &&& self.u@ == before.u@
        &&& self.v@ == before.v@
        &&& self.way@ == before.way@
        &&& self.used@ == before.used@
        &&& self.rank@ == before.rank@
        &&& self.col_of@.len() == i + 1
        &&& 0 <= j0 < m
        &&& j0 == leaf || self.used@[j0]
        &&& forall|r: int|
            0 <= r < i ==> 0 <= #[trigger] self.col_of@[r] < m && self.p@[self.col_of@[r]] == r
                && self.col_of@[r] != j0
        &&& forall|j: int|
            0 <= j < m && j != j0 && (#[trigger] self.p@[j]) != NONE ==> self.p@[j] < i
                && self.col_of@[self.p@[j] as int] == j
        &&& forall|j: int|
            0 <= j < m && #[trigger] self.used@[j] && self.rank@[j] < self.rank@[j0] ==> self.p@[j]
                == before.p@[j]
        &&& forall|j: int| 0 <= j < m && (#[trigger] self.p@[j]) == NONE ==> before.p@[j] == NONE
        &&& self.tight_except(c, m, j0)
    }

    /// Gives row `i` a column by moving every row on the way from `leaf`
    /// back to the root one column on.
    fn augment(&mut self, cost: &ScoringMatrix, i: usize, leaf: usize)
        requires
            old(self).grown(cost@, cost.spec_slots(), i as int, leaf as int),
        ensures
            final(self).settled(cost@, cost.spec_slots(), i + 1),
    {
        let ghost c = cost@;
        let ghost m = cost.spec_slots();
        let ghost before = *self;
        self.col_of = Ghost(self.col_of@.push(leaf as int));
        let mut j0: usize = leaf;
        proof {
            assert forall|r: int| 0 <= r < i implies 0 <= #[trigger] self.col_of@[r] < m
                && self.p@[self.col_of@[r]] == r && self.col_of@[r] != j0 by {
                assert(self.col_of@[r] == before.col_of@[r]);
            }
            assert forall|j: int| 0 <= j < m && j != j0 && (#[trigger] self.p@[j]) != NONE implies self.p@[j] < i
                && self.col_of@[self.p@[j] as int] == j by {
                assert(before.col_of@[before.p@[j] as int] == j);
            }
            assert(self.tight_except(c, m, j0 as int));
        }
        loop
            invariant_except_break
                self.augmenting(before, c, m, i as int, leaf as int, j0 as int),
            invariant
                c == cost@,
                m == cost.spec_slots(),
            ensures
                self.settled(c, m, i + 1),
            decreases self.rank@[j0 as int],
        {
            let ghost pre = *self;
            let j_prev = self.way[j0];
            proof {
                assert(linked(before.way@, before.used@, m, j0 as int));
                if j0 != leaf {
                    assert(before.used@[j0 as int]);
                }
                if j_prev != NONE {
                    assert(before.used@[j_prev as int]);
                    assert(before.p@[j_prev as int] != NONE);
                    assert(before.rank@[j_prev as int] < before.rank@[j0 as int]);
                    assert(self.p@[j_prev as int] == before.p@[j_prev as int]);
                }
            }
            let row = if j_prev == NONE {
                i
            } else {
                self.p[j_prev]
            };
            self.p.set(j0, row);
            self.col_of = Ghost(self.col_of@.update(row as int, j0 as int));
            proof {
                assert(row as int == row_of(before.p@, before.way@[j0 as int], i as int));
                assert(slack(c, self.u@, self.v@, row as int, j0 as int) == 0);
            }
            if j_prev == NONE {
                proof {
                    let i1 = i + 1;
                    assert forall|r: int| 0 <= r < i1 implies 0 <= #[trigger] self.col_of@[r] < m
                        && self.p@[self.col_of@[r]] == r by {
                        if r < i {
                            assert(pre.col_of@[r] != j0);
                        }
                    }
                    assert forall|j: int| 0 <= j < m && (#[trigger] self.p@[j]) != NONE implies self.p@[j] < i1
                        && self.col_of@[self.p@[j] as int] == j by {
                        if j != j0 {
                            assert(pre.p@[j] != NONE);
                        }
                    }
                    assert(self.matched(i1, m));
                    assert forall|j: int| 0 <= j < m && (#[trigger] self.p@[j]) == NONE implies self.v@[j] == 0 by {
                        assert(pre.p@[j] == NONE);
                        assert(before.p@[j] == NONE);
                    }
                    assert(self.duals(c, m));
                    assert forall|j: int| 0 <= j < m && j != -1 && (#[trigger] self.p@[j]) != NONE implies slack(c, self.u@, self.v@, self.p@[j] as int, j) == 0 by {
                        if j != j0 {
                            assert(pre.p@[j] != NONE);
                        }
                    }
                }
                break ;
            }
            proof {
                let jp = j_prev as int;
                assert(pre.col_of@[row as int] == jp);
                assert forall|r: int| 0 <= r < i implies 0 <= #[trigger] self.col_of@[r] < m
                    && self.p@[self.col_of@[r]] == r && self.col_of@[r] != jp by {
                    if r != row {
                        assert(pre.col_of@[r] != j0);
                        if pre.col_of@[r] == jp {
                            assert(pre.p@[pre.col_of@[r]] == r);
                        }
                    }
                }
                assert forall|j: int| 0 <= j < m && j != jp && (#[trigger] self.p@[j]) != NONE implies self.p@[j] < i
                    && self.col_of@[self.p@[j] as int] == j by {
                    if j != j0 {
                        assert(pre.p@[j] != NONE);
                        assert(pre.col_of@[pre.p@[j] as int] == j);
                    }
                }
                assert forall|j: int| 0 <= j < m && #[trigger] self.used@[j] && self.rank@[j] < self.rank@[jp] implies self.p@[j]
                    == before.p@[j] by {
                    assert(pre.used@[j]);
                }
                assert forall|j: int| 0 <= j < m && (#[trigger] self.p@[j]) == NONE implies before.p@[j] == NONE by {
                    assert(pre.p@[j] == NONE);
                }
                assert forall|j: int| 0 <= j < m && j != jp && (#[trigger] self.p@[j]) != NONE implies slack(c, self.u@, self.v@, self.p@[j] as int, j) == 0 by {
                    if j != j0 {
                        assert(pre.p@[j] != NONE);
                    }
                }
                assert(0 <= before.rank@[jp]);
            }
            j0 = j_prev;
        }
    }

    /// Once every row is matched and the potentials fit the matching, what
    /// the matched edges cost together is the least total of any assignment.
    proof fn lemma_optimal(self, c: Seq<Seq<int>>, m: int)
        requires
            self.settled(c, m, c.len() as int),
        ensures
            is_min_total(c, m, sum(paid(c, self.p@), m)),
    {
        let n = c.len() as int;
        let best = self.col_of@;
        let u = self.u@;
        let v = self.v@;
        let pay = paid(c, self.p@);
        let of_u = |t: int| u[t] as int;
        let of_v = |j: int| v[j] as int;
        let sum_u = sum(of_u, n);
        let sum_v = sum(of_v, m);
        assert(is_assignment(best, n, m)) by {
            assert forall|t1: int, t2: int| 0 <= t1 < t2 < best.len() implies best[t1] != best[t2] by {
                assert(self.p@[best[t1]] == t1);
                assert(self.p@[best[t2]] == t2);
            }
        }
        // What is paid, summed over the columns, is what the matching is
        // worth, summed over the rows.
        let worth = |t: int| c[t][best[t]];
        assert(total(c, best) == sum(pay, m)) by {
            let pay_along = |t: int| pay(best[t]);
            let pay_over = |j: int| if best.contains(j) { pay(j) } else { 0 };
            lemma_sum_along(best, pay, m);
            assert forall|t: int| 0 <= t < n implies #[trigger] worth(t) == pay_along(t) by {
                assert(self.p@[best[t]] == t);
            }
            lemma_sum_eq(worth, pay_along, n);
            assert forall|j: int| 0 <= j < m implies #[trigger] pay_over(j) == pay(j) by {
                if self.p@[j] != NONE {
                    assert(best[self.p@[j] as int] == j);
                }
            }
            lemma_sum_eq(pay_over, pay, m);
        }
        // The matching is worth the sum of all potentials.
        assert(total(c, best) == sum_u + sum_v) by {
            let along = |t: int| of_v(best[t]);
            let both = |t: int| of_u(t) + along(t);
            let over = |j: int| if best.contains(j) { of_v(j) } else { 0 };
            assert forall|t: int| 0 <= t < n implies #[trigger] worth(t) == both(t) by {
                assert(self.p@[best[t]] == t);
                assert(slack(c, u, v, t, best[t]) == 0);
            }
            lemma_sum_eq(worth, both, n);
            lemma_sum_add(of_u, along, n);
            lemma_sum_along(best, of_v, m);
            assert forall|j: int| 0 <= j < m implies #[trigger] over(j) == of_v(j) by {
                if !best.contains(j) {
                    if self.p@[j] != NONE {
                        assert(best[self.p@[j] as int] == j);
                    }
                    assert(self.v@[j] == 0);
                }
            }
            lemma_sum_eq(over, of_v, m);
        }
        // No assignment is worth less than the sum of all potentials.
        assert forall|a: Seq<int>| #[trigger] is_assignment(a, n, m) implies total(c, a) >= sum_u
            + sum_v by {
            let worth_a = |t: int| c[t][a[t]];
            let along = |t: int| of_v(a[t]);
            let both = |t: int| of_u(t) + along(t);
            let over = |j: int| if a.contains(j) { of_v(j) } else { 0 };
            assert forall|t: int| 0 <= t < n implies #[trigger] both(t) <= worth_a(t) by {
                assert(0 <= a[t] < m);
                assert(slack(c, u, v, t, a[t]) >= 0);
            }
            lemma_sum_le(both, worth_a, n);
            lemma_sum_add(of_u, along, n);
            lemma_sum_along(a, of_v, m);
            assert forall|j: int| 0 <= j < m implies #[trigger] of_v(j) <= over(j) by {
                assert(self.v@[j] <= 0);
            }
            lemma_sum_le(of_v, over, m);
        }
    }
}

/// What column `j` adds to the total: the cost of the edge from the row that
/// holds it, or nothing if it is free.
spec fn paid(c: Seq<Seq<int>>, p: Seq<usize>) -> spec_fn(int) -> int {
    |j: int|
        if p[j] != NONE {
            c[p[j] as int][j]
        } else {
            0
        }
}

/// The least total that the tokens can be made to cost when each is given a
/// slot of its own: the rows of `cost` are the tokens, the columns the
/// slots. With more tokens than slots there is no assignment, and the
/// request is refused.
pub fn hungarian_rect(cost: &ScoringMatrix) -> (r: Result<u128, Error>)
    ensures
        match r {
            Ok(least) => cost@.len() <= cost.spec_slots() && is_min_total(
                cost@,
                cost.spec_slots(),
                least as int,
            ),
            Err(e) => cost@.len() > cost.spec_slots() && e == Error::TooManyTokens,
        },
{
    let n = cost.tokens();
    let m = cost.slots();
    if n > m {
        return Err(Error::TooManyTokens);
    }
    let ghost c = cost@;
    let mut s = Search {
        u: vec![0i128; n],
        v: vec![0i128; m],
        p: vec![NONE; m],
        minv: vec![UNREACHED; m],
        way: vec![NONE; m],
        used: vec![false; m],
        col_of: Ghost(Seq::empty()),
        rank: Ghost(Seq::new(m as nat, |j: int| 0int)),
        joined: Ghost(Seq::empty()),
    };
    proof {
        assert(s.shaped(c, m as int));
        assert(s.duals(c, m as int));
    }
    let mut i: usize = 0;
    while i < n
        invariant
            i <= n,
            n == c.len(),
            c == cost@,
            m == cost.spec_slots(),
            s.settled(c, m as int, i as int),
        decreases n - i,
    {
        let leaf = s.grow(cost, i);
        s.augment(cost, i, leaf);
        i += 1;
    }
    let mut least: u128 = 0;
    let mut j: usize = 0;
    while j < m
        invariant
            j <= m,
            c == cost@,
            m == cost.spec_slots(),
            s.settled(c, m as int, c.len() as int),
            least == sum(paid(c, s.p@), j as int),
            least <= j * u64::MAX,
        decreases m - j,
    {
        let row = s.p[j];
        if row != NONE {
            proof {
                assert(s.p@[j as int] != NONE);
                assert(0 <= c[row as int][j as int] <= u64::MAX);
            }
            least = least + cost.get(row, j) as u128;
        }
        proof {
            assert((j + 1) * u64::MAX == j * u64::MAX + u64::MAX) by (nonlinear_arith);
            assert(j * u64::MAX + u64::MAX <= u128::MAX) by (nonlinear_arith)
                requires
                    0 <= j < usize::MAX,
                    usize::MAX <= u64::MAX,
            ;
        }
        j += 1;
    }
    proof {
        s.lemma_optimal(c, m as int);
    }
    Ok(least)
}

/// The greatest total that the tokens can be made to win when each is given
/// a slot of its own. It is found as a least total: of the matrix whose
/// entries are the greatest entry of `values` less the entries of `values`.
/// With more tokens than slots the request is refused.
pub fn solve_part3_max(values: &ScoringMatrix) -> (r: Result<u128, Error>)
    ensures
        match r {
            Ok(greatest) => values@.len() <= values.spec_slots() && is_max_total(
                values@,
                values.spec_slots(),
                greatest as int,
            ),
            Err(e) => values@.len() > values.spec_slots() && e == Error::TooManyTokens,
        },
{
    let n = values.tokens();
    let slots = values.slots();
    let max_val = values.max_entry();
    let costs = values.complement(max_val);
    match hungarian_rect(&costs) {
        Ok(min_transformed_total) => {
            proof {
                lemma_max_by_complement(
                    values@,
                    values.spec_slots(),
                    max_val as int,
                    min_transformed_total as int,
                );
                let best = choose|a: Seq<int>| #[trigger]
                    is_assignment(a, values@.len() as int, values.spec_slots()) && total(
                        values@,
                        a,
                    ) == n * max_val - min_transformed_total;
                lemma_total_bounds(values@, values.spec_slots(), best, 0, u64::MAX as int);
                assert(n * max_val <= u128::MAX) by (nonlinear_arith)
                    requires
                        0 <= n <= u64::MAX,
                        0 <= max_val <= u64::MAX,
                ;
            }
            Ok(n as u128 * max_val as u128 - min_transformed_total)
        },
        Err(e) => Err(e),
    }
}

} // verus!
