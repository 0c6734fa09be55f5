//! Positions of the grid: rows, columns, boxes, and which cells share one.

use vstd::prelude::*;
use crate::board::{BOX, CELLS, SIDE};

verus! {

/// Position of the cell at `row`, `col` in row-major order.
pub open spec fn index_of(row: int, col: int) -> int {
    row * SIDE as int + col
}

/// Row of the cell at position `i`.
pub open spec fn row_of(i: int) -> int {
    i / SIDE as int
}

/// Column of the cell at position `i`.
pub open spec fn col_of(i: int) -> int {
    i % SIDE as int
}

/// Box of the cell at position `i`, counted row by row from the top left.
pub open spec fn box_of(i: int) -> int {
    (row_of(i) / BOX as int) * BOX as int + col_of(i) / BOX as int
}

/// Whether `i` is a position of the grid.
pub open spec fn in_grid(i: int) -> bool {
    0 <= i < CELLS
}

/// Whether positions `i` and `j` share a row, a column or a box.
/// Every position is its own peer.
pub open spec fn peers(i: int, j: int) -> bool {
    row_of(i) == row_of(j) || col_of(i) == col_of(j) || box_of(i) == box_of(j)
}

/// Position of the `k`-th cell of the box that holds the cell at `row`,
/// `col`, the cells of a box counted row by row from its top left.
pub open spec fn box_cell(row: int, col: int, k: int) -> int {
    index_of(
        (row / BOX as int) * BOX as int + k / BOX as int,
        (col / BOX as int) * BOX as int + k % BOX as int,
    )
}

/// The cell at `row`, `col` lies in the grid, in that row and that column.
pub proof fn lemma_index_of_in_grid(row: int, col: int)
    requires
        0 <= row < SIDE,
        0 <= col < SIDE,
    ensures
        in_grid(index_of(row, col)),
        row_of(index_of(row, col)) == row,
        col_of(index_of(row, col)) == col,
{
}

/// A position of the grid is the cell at its row and its column.
pub proof fn lemma_position_has_row_and_column(i: int)
    requires
        in_grid(i),
    ensures
        0 <= row_of(i) < SIDE,
        0 <= col_of(i) < SIDE,
        i == index_of(row_of(i), col_of(i)),
{
}

/// The `k`-th cell of the box of `row`, `col` lies in the grid and in that
/// box, and `k` can be read off its row and column.
pub proof fn lemma_box_cell_in_box(row: int, col: int, k: int)
    requires
        0 <= row < SIDE,
        0 <= col < SIDE,
        0 <= k < SIDE,
    ensures
        in_grid(box_cell(row, col, k)),
        box_of(box_cell(row, col, k)) == box_of(index_of(row, col)),
        (row_of(box_cell(row, col, k)) % BOX as int) * BOX as int + col_of(box_cell(row, col, k))
            % BOX as int == k,
{
    let r = (row / 3) * 3 + k / 3;
    let c = (col / 3) * 3 + k % 3;
    assert(0 <= r < 9 && 0 <= c < 9);
    lemma_index_of_in_grid(r, c);
    lemma_index_of_in_grid(row, col);
    assert(r / 3 == row / 3);
    assert(c / 3 == col / 3);
    assert(r % 3 == k / 3);
    assert(c % 3 == k % 3);
}

/// A cell in the box of `row`, `col` is one of the nine cells of that box.
pub proof fn lemma_box_member(q: int, row: int, col: int) -> (k: int)
    requires
        in_grid(q),
        0 <= row < SIDE,
        0 <= col < SIDE,
        box_of(q) == box_of(index_of(row, col)),
    ensures
        0 <= k < SIDE,
        q == box_cell(row, col, k),
{
    let qr = row_of(q);
    let qc = col_of(q);
    lemma_index_of_in_grid(row, col);
    assert(qr / 3 == row / 3 && qc / 3 == col / 3);
    (qr % 3) * 3 + qc % 3
}

} // verus!
