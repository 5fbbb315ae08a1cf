//! The two grids of the third game: the digits of the field, and the marks
//! on the cells that a die has come to. Both are grids of the `grid` crate,
//! filled row by row.

use vstd::prelude::*;
use grid::Grid;

verus! {

/// The grid of the `grid` crate.
#[verifier::external_type_specification]
#[verifier::external_body]
#[verifier::reject_recursive_types(T)]
pub struct ExGrid<T>(Grid<T>);

/// The digits that a grid of digits holds, row by row: the grids of this
/// library are all filled row by row, by `digit_grid`.
pub uninterp spec fn digits(g: Grid<i64>) -> Seq<i64>;

/// The number of columns of a grid of digits.
pub uninterp spec fn digit_cols(g: Grid<i64>) -> int;

/// The marks that a grid of marks holds, row by row: the grids of this
/// library are all filled row by row, by `mark_grid`.
pub uninterp spec fn marks(g: Grid<bool>) -> Seq<bool>;

/// The number of columns of a grid of marks.
pub uninterp spec fn mark_cols(g: Grid<bool>) -> int;

/// Cell `(row, col)` lies in a grid of `len` cells in rows of `cols`.
pub open spec fn in_grid(len: int, cols: int, row: int, col: int) -> bool {
    0 <= row && 0 <= col < cols && row * cols + col < len
}

/// A grid of the given digits in rows of `cols`, from `Grid::from_vec`,
/// which panics unless the digits fill their rows. Taken on trust from its
/// source: that the grid holds the digits as given, row by row, in rows of
/// `cols`.
#[verifier::external_body]
pub(crate) fn digit_grid(cells: Vec<i64>, cols: usize) -> (g: Grid<i64>)
    requires
        cols > 0,
        cells@.len() > 0,
        cells@.len() as int % (cols as int) == 0,
    ensures
        digits(g) == cells@,
        digit_cols(g) == cols,
{
    Grid::from_vec(cells, cols)
}

/// A grid of the given marks in rows of `cols`, from `Grid::from_vec`,
/// which panics unless the marks fill their rows. Taken on trust from its
/// source: that the grid holds the marks as given, row by row, in rows of
/// `cols`.
#[verifier::external_body]
pub(crate) fn mark_grid(cells: Vec<bool>, cols: usize) -> (g: Grid<bool>)
    requires
        cols > 0,
        cells@.len() > 0,
        cells@.len() as int % (cols as int) == 0,
    ensures
        marks(g) == cells@,
        mark_cols(g) == cols,
{
    Grid::from_vec(cells, cols)
}

/// The digit in a cell, from `Grid::get`. Taken on trust from its source:
/// that it returns the digit of the cell where the cell lies in the grid,
/// and nothing where it lies beyond.
#[verifier::external_body]
pub(crate) fn digit_at(g: &Grid<i64>, row: usize, col: usize) -> (r: Option<i64>)
    ensures
        r == if in_grid(digits(*g).len() as int, digit_cols(*g), row as int, col as int) {
            Some(digits(*g)[row * digit_cols(*g) + col])
        } else {
            None
        },
{
    g.get(row, col).copied()
}

/// Marks a cell, through the index of the grid by row and column, which
/// panics beyond the grid. Taken on trust from its source: that the one
/// cell is changed and nothing else.
#[verifier::external_body]
pub(crate) fn set_mark(g: &mut Grid<bool>, row: usize, col: usize)
    requires
        in_grid(marks(*old(g)).len() as int, mark_cols(*old(g)), row as int, col as int),
    ensures
        marks(*final(g)) == marks(*old(g)).update(row * mark_cols(*old(g)) + col, true),
        mark_cols(*final(g)) == mark_cols(*old(g)),
{
    g[(row, col)] = true;
}

/// The marks of a grid as a list, row by row, from `Grid::into_vec`.
#[verifier::external_body]
pub(crate) fn into_marks(g: Grid<bool>) -> (out: Vec<bool>)
    ensures
        out@ == marks(g),
{
    g.into_vec()
}

} // verus!
