//! Index geometry of the 9x9 grid: rows, columns, and 3x3 boxes.  Cells are
//! addressed both as `(row, column)` pairs and as row-major indices `0..81`;
//! the 27 groups (9 rows, then 9 columns, then 9 boxes) are the units within
//! which committed values must stay pairwise distinct.

use vstd::prelude::*;

verus! {

/// Row of the cell with row-major index `i`.
pub open spec fn row_of(i: int) -> int {
    i / 9
}

/// Column of the cell with row-major index `i`.
pub open spec fn col_of(i: int) -> int {
    i % 9
}

/// 3x3 box (0..9, row-major over boxes) of the cell with index `i`.
pub open spec fn box_of(i: int) -> int {
    (i / 27) * 3 + (i % 9) / 3
}

/// A position `(row, column)` lies on the grid.
pub open spec fn pos_in_bounds(pos: (usize, usize)) -> bool {
    pos.0 < 9 && pos.1 < 9
}

/// Row-major index of a position.
pub open spec fn idx_of(pos: (usize, usize)) -> int {
    pos.0 * 9 + pos.1
}

/// Two distinct cells share a row, a column, or a box: each is a peer of the
/// other, and no group may give them the same committed value.
pub open spec fn same_unit(i: int, j: int) -> bool {
    i != j && (row_of(i) == row_of(j) || col_of(i) == col_of(j) || box_of(i) == box_of(j))
}

/// Peer test over row-major indices.
pub fn cells_share_unit(i: usize, j: usize) -> (r: bool)
    requires
        i < 81,
        j < 81,
    ensures
        r == same_unit(i as int, j as int),
{
    i != j && (i / 9 == j / 9 || i % 9 == j % 9 || (i / 27) * 3 + (i % 9) / 3 == (j / 27) * 3 + (j
        % 9) / 3)
}

/// Cell `k` (0..9) of group `g` (0..27): groups 0..9 are rows, 9..18 are
/// columns, 18..27 are boxes.
pub open spec fn group_cell(g: int, k: int) -> int {
    if g < 9 {
        g * 9 + k
    } else if g < 18 {
        k * 9 + (g - 9)
    } else {
        ((g - 18) / 3 * 3 + k / 3) * 9 + ((g - 18) % 3 * 3 + k % 3)
    }
}

/// Row-major index of cell `k` of group `g`.
pub fn group_cell_at(g: usize, k: usize) -> (i: usize)
    requires
        g < 27,
        k < 9,
    ensures
        i == group_cell(g as int, k as int),
        i < 81,
{
    if g < 9 {
        g * 9 + k
    } else if g < 18 {
        k * 9 + (g - 9)
    } else {
        ((g - 18) / 3 * 3 + k / 3) * 9 + ((g - 18) % 3 * 3 + k % 3)
    }
}

} // verus!
