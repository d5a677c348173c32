//! Cells of a square board, their flat indices, and the neighbour relations
//! the puzzle uses.

use vstd::prelude::*;

verus! {

/// Flat index of the cell in row `r`, column `c` of an `n`-wide board.
pub open spec fn cell_index(n: int, r: int, c: int) -> int {
    r * n + c
}

/// Row of the flat index `j`.
pub open spec fn row_of(n: int, j: int) -> int {
    j / n
}

/// Column of the flat index `j`.
pub open spec fn col_of(n: int, j: int) -> int {
    j % n
}

/// `|a - b| <= 1`.
pub open spec fn within_one(a: int, b: int) -> bool {
    -1 <= a - b <= 1
}

/// Cells `(r1, c1)` and `(r2, c2)` touch or coincide: they are at most one
/// step apart in both directions (the eight neighbours and the cell itself).
pub open spec fn touching(r1: int, c1: int, r2: int, c2: int) -> bool {
    within_one(r1, r2) && within_one(c1, c2)
}

/// Flat indices `a` and `b` of an `n x n` board are orthogonal neighbours.
pub open spec fn adjacent4(n: int, a: int, b: int) -> bool {
    &&& 0 <= a < n * n
    &&& 0 <= b < n * n
    &&& ((row_of(n, a) == row_of(n, b) && (col_of(n, a) - col_of(n, b) == 1 || col_of(n, b) - col_of(n, a) == 1))
        || (col_of(n, a) == col_of(n, b) && (row_of(n, a) - row_of(n, b) == 1 || row_of(n, b) - row_of(n, a) == 1)))
}

pub proof fn lemma_cell_index(n: int, r: int, c: int)
    requires
        0 <= r < n,
        0 <= c < n,
    ensures
        row_of(n, cell_index(n, r, c)) == r,
        col_of(n, cell_index(n, r, c)) == c,
        0 <= cell_index(n, r, c) < n * n,
{
    vstd::arithmetic::div_mod::lemma_fundamental_div_mod_converse(r * n + c, n, r, c);
    assert(0 <= r * n + c < n * n) by (nonlinear_arith)
        requires 0 <= r < n, 0 <= c < n;
}

pub proof fn lemma_index_cell(n: int, j: int)
    requires
        0 < n,
        0 <= j < n * n,
    ensures
        0 <= row_of(n, j) < n,
        0 <= col_of(n, j) < n,
        j == cell_index(n, row_of(n, j), col_of(n, j)),
{
    vstd::arithmetic::div_mod::lemma_fundamental_div_mod(j, n);
    vstd::arithmetic::div_mod::lemma_mod_bound(j, n);
    vstd::arithmetic::div_mod::lemma_div_pos_is_pos(j, n);
    assert(j / n < n) by (nonlinear_arith)
        requires 0 <= j < n * n, n > 0, j == n * (j / n) + j % n, 0 <= j % n;
    assert(j == (j / n) * n + j % n) by (nonlinear_arith)
        requires j == n * (j / n) + j % n;
}

/// Two flat indices with the same row and column are equal.
pub proof fn lemma_index_unique(n: int, a: int, b: int)
    requires
        0 < n,
        0 <= a < n * n,
        0 <= b < n * n,
        row_of(n, a) == row_of(n, b),
        col_of(n, a) == col_of(n, b),
    ensures
        a == b,
{
    lemma_index_cell(n, a);
    lemma_index_cell(n, b);
}

} // verus!
