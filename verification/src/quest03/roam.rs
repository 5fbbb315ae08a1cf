//! The third game: the dice roam a field of digits, and the cells that any
//! of them comes to are counted.

use vstd::prelude::*;
use vstd::arithmetic::div_mod::lemma_fundamental_div_mod;
use crate::quest03::die::{rolled, Die, DieView};
use crate::quest03::field::{
    digit_at, digit_cols, digit_grid, digits, in_grid, into_marks, mark_cols, mark_grid, marks,
    set_mark,
};
use crate::quest03::games::die_views;
use crate::quest03::race::spare;
use crate::text::{lines_of, split_lines, trim, trimmed, views, CR, LF};
use grid::Grid;

verus! {

/// A field of digits, held row by row in rows of `cols`.
pub struct Field {
    pub cells: Seq<i64>,
    pub cols: int,
}

/// The digits that the bytes of `s` spell, line ends left out: what each
/// other byte is above the byte for zero. A byte below that spells none.
pub open spec fn cell_digits(s: Seq<u8>) -> Option<Seq<i64>>
    decreases s.len(),
{
    if s.len() == 0 {
        Some(Seq::empty())
    } else {
        match cell_digits(s.drop_last()) {
            None => None,
            Some(ds) => if s.last() == LF || s.last() == CR {
                Some(ds)
            } else if s.last() < 48 {
                None
            } else {
                Some(ds.push((s.last() - 48) as i64))
            },
        }
    }
}

/// The field that the notes draw: its rows are as long as the first line
/// of the notes, and its digits are those between the blanks at the ends of
/// the notes. There is no field without a line, nor where the digits do not
/// fill their rows.
pub open spec fn field_of(text: Seq<u8>) -> Option<Field> {
    let lines = lines_of(text);
    if lines.len() == 0 {
        None
    } else {
        let cols = lines[0].len() as int;
        match cell_digits(trimmed(text)) {
            None => None,
            Some(cells) => if cells.len() == 0 {
                Some(Field { cells, cols: 0 })
            } else if cols == 0 || cells.len() as int % cols != 0 {
                None
            } else {
                Some(Field { cells, cols })
            },
        }
    }
}

/// One of the cells is marked.
pub open spec fn any(states: Seq<bool>) -> bool {
    exists|i: int| 0 <= i < states.len() && states[i]
}

/// Cell `i` or one of the cells beside, above or below it is marked.
pub open spec fn near(cols: int, states: Seq<bool>, i: int) -> bool {
    ||| states[i]
    ||| i + cols < states.len() && states[i + cols]
    ||| i - cols >= 0 && states[i - cols]
    ||| i % cols + 1 < cols && i + 1 < states.len() && states[i + 1]
    ||| i % cols >= 1 && states[i - 1]
}

/// The cells that hold the digit `face`.
pub open spec fn showing(f: Field, face: int) -> Seq<bool> {
    Seq::new(f.cells.len(), |i: int| f.cells[i] == face)
}

/// The cells that a die comes to from the marked cells when it shows
/// `face`: it stays, or moves to the cell beside, above or below, and the
/// cell that it comes to has to hold the digit that it shows.
pub open spec fn spread(f: Field, states: Seq<bool>, face: int) -> Seq<bool> {
    Seq::new(f.cells.len(), |i: int| f.cells[i] == face && near(f.cols, states, i))
}

/// The cells that are marked in `a` or in `b`.
pub open spec fn joined(a: Seq<bool>, b: Seq<bool>) -> Seq<bool> {
    Seq::new(a.len(), |i: int| a[i] || b[i])
}

/// The cells that were come to, `visited`, and those that the die comes to
/// from the cells `states` in which it may be now, roll by roll, for as long
/// as there is a cell in which it may be.
pub open spec fn roam(f: Field, die: DieView, states: Seq<bool>, visited: Seq<bool>) -> Option<
    Seq<bool>,
>
    decreases spare(die),
{
    if !any(states) {
        Some(visited)
    } else {
        match rolled(die) {
            None => None,
            Some((d, face)) => roam(f, d, spread(f, states, face), joined(visited, states)),
        }
    }
}

/// The cells that were come to, and those that the die comes to when it
/// starts from any cell that holds the digit of its first roll.
pub open spec fn roam_from_start(f: Field, die: DieView, visited: Seq<bool>) -> Option<Seq<bool>> {
    match rolled(die) {
        None => None,
        Some((d, face)) => roam(f, d, showing(f, face), visited),
    }
}

/// The cells that the first `upto` dice come to, one die after the other.
pub open spec fn roam_all(f: Field, dice: Seq<DieView>, upto: int) -> Option<Seq<bool>>
    decreases upto,
{
    if upto <= 0 {
        Some(Seq::new(f.cells.len(), |i: int| false))
    } else {
        match roam_all(f, dice, upto - 1) {
            None => None,
            Some(visited) => roam_from_start(f, dice[upto - 1], visited),
        }
    }
}

/// How many of the cells are marked.
pub open spec fn count_marks(v: Seq<bool>) -> int
    decreases v.len(),
{
    if v.len() == 0 {
        0
    } else {
        count_marks(v.drop_last()) + if v.last() {
            1int
        } else {
            0int
        }
    }
}

/// How many of the cells are marked.
pub fn count(v: &Vec<bool>) -> (n: usize)
    ensures
        n == count_marks(v@),
{
    let mut n: usize = 0;
    let mut i: usize = 0;
    proof {
        assert(v@.subrange(0, 0) =~= Seq::<bool>::empty());
    }
    while i < v.len()
        invariant
            i <= v@.len(),
            n <= i,
            n == count_marks(v@.subrange(0, i as int)),
        decreases v@.len() - i,
    {
        proof {
            assert(v@.subrange(0, i + 1).drop_last() =~= v@.subrange(0, i as int));
        }
        if v[i] {
            n += 1;
        }
        i += 1;
    }
    proof {
        assert(v@.subrange(0, i as int) =~= v@);
    }
    n
}

/// Reads the digits of a field, line ends left out.
pub fn parse_cells(s: &[u8]) -> (r: Option<Vec<i64>>)
    ensures
        match r {
            Some(cells) => cell_digits(s@) == Some(cells@),
            None => cell_digits(s@) is None,
        },
{
    let mut cells: Vec<i64> = Vec::new();
    let mut k: usize = 0;
    proof {
        assert(s@.subrange(0, 0) =~= Seq::<u8>::empty());
    }
    while k < s.len()
        invariant
            k <= s@.len(),
            cell_digits(s@.subrange(0, k as int)) == Some(cells@),
        decreases s@.len() - k,
    {
        proof {
            assert(s@.subrange(0, k + 1).drop_last() =~= s@.subrange(0, k as int));
        }
        let b = s[k];
        if b != LF && b != CR {
            if b < 48 {
                proof {
                    lemma_cells_fail(s@, k + 1);
                }
                return None;
            }
            cells.push((b - 48) as i64);
        }
        k += 1;
    }
    proof {
        assert(s@.subrange(0, k as int) =~= s@);
    }
    Some(cells)
}

/// Once a byte spells no digit, the whole spells no digits.
pub proof fn lemma_cells_fail(s: Seq<u8>, k: int)
    requires
        0 <= k <= s.len(),
        cell_digits(s.subrange(0, k)) is None,
    ensures
        cell_digits(s) is None,
    decreases s.len() - k,
{
    if k < s.len() {
        assert(s.subrange(0, k + 1).drop_last() =~= s.subrange(0, k));
        lemma_cells_fail(s, k + 1);
    } else {
        assert(s.subrange(0, k) =~= s);
    }
}

/// The field that a grid of digits holds.
pub open spec fn field(map: Grid<i64>) -> Field {
    Field { cells: digits(map), cols: digit_cols(map) }
}

/// Whether the cell with the number `i`, counted row by row, holds `face`.
fn holds_face(map: &Grid<i64>, cols: usize, i: usize, face: i64) -> (r: bool)
    requires
        cols > 0,
        digit_cols(*map) == cols,
        i < digits(*map).len(),
    ensures
        r == (digits(*map)[i as int] == face),
{
    proof {
        lemma_fundamental_div_mod(i as int, cols as int);
        assert((i / cols) * cols == cols * (i / cols)) by (nonlinear_arith);
    }
    match digit_at(map, i / cols, i % cols) {
        Some(digit) => digit == face,
        None => false,
    }
}

/// The cells that hold the digit `face`.
fn cells_showing(map: &Grid<i64>, len: usize, cols: usize, face: i64) -> (states: Vec<bool>)
    requires
        cols > 0,
        digit_cols(*map) == cols,
        digits(*map).len() == len,
    ensures
        states@ == showing(field(*map), face as int),
{
    let mut states: Vec<bool> = Vec::new();
    let mut i: usize = 0;
    while i < len
        invariant
            i <= len,
            cols > 0,
            digit_cols(*map) == cols,
            digits(*map).len() == len,
            states@.len() == i,
            forall|j: int| 0 <= j < i ==> #[trigger] states@[j] == (digits(*map)[j] == face),
        decreases len - i,
    {
        states.push(holds_face(map, cols, i, face));
        i += 1;
    }
    proof {
        assert(states@ =~= showing(field(*map), face as int));
    }
    states
}

/// Whether cell `i` or one of the cells beside, above or below it is
/// marked.
fn is_near(states: &Vec<bool>, cols: usize, i: usize) -> (r: bool)
    requires
        cols > 0,
        i < states@.len(),
    ensures
        r == near(cols as int, states@, i as int),
{
    let len = states.len();
    proof {
        if i == 0 {
            vstd::arithmetic::div_mod::lemma_small_mod(0, cols as nat);
        }
    }
    states[i] || (cols < len - i && states[i + cols]) || (i >= cols && states[i - cols]) || (i
        % cols + 1 < cols && i + 1 < len && states[i + 1]) || (i % cols >= 1 && states[i - 1])
}

/// The cells that a die comes to from the marked cells when it shows
/// `face`.
fn spread_to(map: &Grid<i64>, len: usize, cols: usize, states: &Vec<bool>, face: i64) -> (next: Vec<
    bool,
>)
    requires
        cols > 0,
        digit_cols(*map) == cols,
        digits(*map).len() == len,
        states@.len() == len,
        len % cols == 0,
    ensures
        next@ == spread(field(*map), states@, face as int),
{
    let mut next: Vec<bool> = Vec::new();
    let mut i: usize = 0;
    while i < len
        invariant
            i <= len,
            cols > 0,
            digit_cols(*map) == cols,
            digits(*map).len() == len,
            states@.len() == len,
            len % cols == 0,
            next@.len() == i,
            forall|j: int|
                0 <= j < i ==> #[trigger] next@[j] == (digits(*map)[j] == face && near(
                    cols as int,
                    states@,
                    j,
                )),
        decreases len - i,
    {
        let here = holds_face(map, cols, i, face) && is_near(states, cols, i);
        next.push(here);
        i += 1;
    }
    proof {
        assert(next@ =~= spread(field(*map), states@, face as int));
    }
    next
}

/// Whether one of the cells is marked.
fn any_marked(states: &Vec<bool>) -> (r: bool)
    ensures
        r == any(states@),
{
    let mut i: usize = 0;
    while i < states.len()
        invariant
            i <= states@.len(),
            forall|j: int| 0 <= j < i ==> !states@[j],
        decreases states@.len() - i,
    {
        if states[i] {
            return true;
        }
        i += 1;
    }
    false
}

/// Marks, on the grid of marks, the cells that are marked in `states`.
fn mark_all(visited: &mut Grid<bool>, states: &Vec<bool>, cols: usize)
    requires
        cols > 0,
        mark_cols(*old(visited)) == cols,
        marks(*old(visited)).len() == states@.len(),
    ensures
        marks(*final(visited)) == joined(marks(*old(visited)), states@),
        mark_cols(*final(visited)) == cols,
{
    let len = states.len();
    let mut i: usize = 0;
    while i < len
        invariant
            i <= len,
            cols > 0,
            len == states@.len(),
            mark_cols(*visited) == cols,
            marks(*visited).len() == len,
            forall|j: int|
                0 <= j < len ==> #[trigger] marks(*visited)[j] == (marks(*old(visited))[j] || (j
                    < i && states@[j])),
        decreases len - i,
    {
        if states[i] {
            proof {
                lemma_fundamental_div_mod(i as int, cols as int);
                assert((i / cols) * cols == cols * (i / cols)) by (nonlinear_arith);
            }
            set_mark(visited, i / cols, i % cols);
        }
        i += 1;
    }
    proof {
        assert(marks(*visited) =~= joined(marks(*old(visited)), states@));
    }
}

/// Lets one die roam the field from every cell that holds the digit of its
/// first roll, and marks the cells that it comes to. Returns whether the
/// die could be rolled whenever it had to be.
fn roam_die(map: &Grid<i64>, visited: &mut Grid<bool>, die: &mut Die, len: usize, cols: usize) -> (ok:
    bool)
    requires
        cols > 0,
        len % cols == 0,
        digit_cols(*map) == cols,
        digits(*map).len() == len,
        mark_cols(*old(visited)) == cols,
        marks(*old(visited)).len() == len,
    ensures
        mark_cols(*final(visited)) == cols,
        marks(*final(visited)).len() == len,
        match roam_from_start(field(*map), old(die)@, marks(*old(visited))) {
            Some(v) => ok && marks(*final(visited)) == v,
            None => !ok,
        },
{
    let first_roll = match die.roll() {
        Some(face) => face,
        None => {
            return false;
        },
    };
    let mut states = cells_showing(map, len, cols, first_roll);
    loop
        invariant
            cols > 0,
            len % cols == 0,
            digit_cols(*map) == cols,
            digits(*map).len() == len,
            mark_cols(*visited) == cols,
            marks(*visited).len() == len,
            states@.len() == len,
            roam_from_start(field(*map), old(die)@, marks(*old(visited))) == roam(
                field(*map),
                die@,
                states@,
                marks(*visited),
            ),
        decreases spare(die@),
    {
        if !any_marked(&states) {
            return true;
        }
        mark_all(visited, &states, cols);
        let next_roll = match die.roll() {
            Some(face) => face,
            None => {
                return false;
            },
        };
        states = spread_to(map, len, cols, &states, next_roll);
    }
}

/// How many cells the dice come to on the field, one die roaming after the
/// other. There is no number where a die cannot be rolled when it has to
/// be.
pub open spec fn roam_count(f: Field, dice: Seq<DieView>) -> Option<int> {
    match roam_all(f, dice, dice.len() as int) {
        None => None,
        Some(visited) => Some(count_marks(visited)),
    }
}

/// Once a die cannot be rolled, no later die roams.
pub proof fn lemma_roam_fails(f: Field, dice: Seq<DieView>, short: int, long: int)
    requires
        short <= long,
        roam_all(f, dice, short) is None,
    ensures
        roam_all(f, dice, long) is None,
    decreases long - short,
{
    if short < long {
        lemma_roam_fails(f, dice, short, long - 1);
    }
}

/// `r` holds `want`, or nothing as `want` does.
pub open spec fn is_cells(r: Option<usize>, want: Option<int>) -> bool {
    match r {
        Some(n) => want == Some(n as int),
        None => want is None,
    }
}

/// Lets the dice roam a field of the given digits in rows of `cols`, one
/// die after the other, and returns how many cells they come to. The digits
/// have to fill their rows.
pub fn roam_field(dice: Vec<Die>, cells: Vec<i64>, cols: usize) -> (r: Option<usize>)
    requires
        cells@.len() > 0 ==> cols > 0 && cells@.len() as int % (cols as int) == 0,
    ensures
        is_cells(
            r,
            roam_count(
                Field { cells: cells@, cols: if cells@.len() > 0 { cols as int } else { 0 } },
                die_views(dice@),
            ),
        ),
{
    let mut roaming = dice;
    let n = roaming.len();
    let len = cells.len();
    let ghost start = die_views(roaming@);
    if len == 0 {
        let ghost f = Field { cells: cells@, cols: 0 };
        let mut k: usize = 0;
        while k < n
            invariant
                k <= n,
                n == roaming@.len(),
                n == start.len(),
                start == die_views(dice@),
                cells@.len() == 0,
                f == (Field { cells: cells@, cols: 0 }),
                forall|j: int| k <= j < n ==> #[trigger] roaming@[j]@ == start[j],
                roam_all(f, start, k as int) == Some(Seq::<bool>::empty()),
            decreases n - k,
        {
            proof {
                assert(roaming@[k as int]@ == start[k as int]);
                assert(showing(f, 0) =~= Seq::<bool>::empty());
                assert forall|face: int| !any(#[trigger] showing(f, face)) by {}
            }
            match roaming[k].roll() {
                Some(_) => {},
                None => {
                    proof {
                        lemma_roam_fails(f, start, k + 1, n as int);
                    }
                    return None;
                },
            }
            k += 1;
        }
        proof {
            assert(Seq::new(0, |i: int| false) =~= Seq::<bool>::empty());
        }
        return Some(0);
    }
    let mut blank: Vec<bool> = Vec::new();
    let mut i: usize = 0;
    while i < len
        invariant
            i <= len,
            blank@.len() == i,
            forall|j: int| 0 <= j < i ==> !#[trigger] blank@[j],
        decreases len - i,
    {
        blank.push(false);
        i += 1;
    }
    let ghost none = blank@;
    let mut visited = mark_grid(blank, cols);
    let map = digit_grid(cells, cols);
    let ghost f = field(map);
    proof {
        assert(none =~= Seq::new(f.cells.len(), |i: int| false));
    }
    let mut k: usize = 0;
    while k < n
        invariant
            k <= n,
            n == roaming@.len(),
            n == start.len(),
            start == die_views(dice@),
            f == (Field { cells: cells@, cols: cols as int }),
            cells@.len() > 0,
            cols > 0,
            len % cols == 0,
            f == field(map),
            digit_cols(map) == cols,
            digits(map).len() == len,
            mark_cols(visited) == cols,
            marks(visited).len() == len,
            forall|j: int| k <= j < n ==> #[trigger] roaming@[j]@ == start[j],
            roam_all(f, start, k as int) == Some(marks(visited)),
        decreases n - k,
    {
        proof {
            assert(roaming@[k as int]@ == start[k as int]);
        }
        if !roam_die(&map, &mut visited, &mut roaming[k], len, cols) {
            proof {
                lemma_roam_fails(f, start, k + 1, n as int);
            }
            return None;
        }
        k += 1;
    }
    let all = into_marks(visited);
    Some(count(&all))
}

} // verus!
