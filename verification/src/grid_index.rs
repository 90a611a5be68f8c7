//! Row-major indexing arithmetic shared by the grid code.

use vstd::prelude::*;

verus! {

/// A cell inside the grid has an index inside the cell array.
pub proof fn lemma_index_in_grid(row: int, col: int, rows: int, cols: int)
    requires
        0 <= row < rows,
        0 <= col < cols,
    ensures
        0 <= row * cols + col < rows * cols,
        row * cols + col <= (rows - 1) * cols + col,
{
    assert(0 <= row * cols) by (nonlinear_arith)
        requires
            0 <= row,
            0 <= col < cols,
    ;
    assert(row * cols + col < rows * cols) by (nonlinear_arith)
        requires
            0 <= row < rows,
            0 <= col < cols,
    ;
    assert(row * cols <= (rows - 1) * cols) by (nonlinear_arith)
        requires
            0 <= row < rows,
            0 <= col < cols,
    ;
}

} // verus!

verus! {

/// A cell's index splits back into its row and column.
pub proof fn lemma_split_index(row: int, col: int, cols: int)
    requires
        0 <= row,
        0 <= col < cols,
    ensures
        (row * cols + col) / cols == row,
        (row * cols + col) % cols == col,
{
    vstd::arithmetic::div_mod::lemma_fundamental_div_mod_converse(row * cols + col, cols, row, col);
}

/// An index inside the grid has its row inside the grid.
pub proof fn lemma_row_of_index(u: int, rows: int, cols: int)
    requires
        0 <= u < rows * cols,
        cols > 0,
    ensures
        0 <= u / cols < rows,
        0 <= u % cols < cols,
        u == (u / cols) * cols + u % cols,
{
    vstd::arithmetic::div_mod::lemma_fundamental_div_mod(u, cols);
    vstd::arithmetic::div_mod::lemma_mod_pos_bound(u, cols);
    vstd::arithmetic::div_mod::lemma_div_pos_is_pos(u, cols);
    assert(cols * (u / cols) == (u / cols) * cols) by (nonlinear_arith);
    if u / cols >= rows {
        assert((u / cols) * cols >= rows * cols) by (nonlinear_arith)
            requires
                u / cols >= rows,
                cols > 0,
        ;
    }
}

} // verus!
