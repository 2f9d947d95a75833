//! Arithmetic facts about row-major indices into a grid.
use vstd::prelude::*;

verus! {

/// The row and column of a row-major index are recovered by division and remainder.
pub proof fn lemma_index_div_mod(y: int, x: int, c: int)
    requires
        c > 0,
        0 <= x < c,
    ensures
        (y * c + x) / c == y,
        (y * c + x) % c == x,
{
    vstd::arithmetic::div_mod::lemma_fundamental_div_mod_converse(y * c + x, c, y, x);
}

/// A cell inside the grid has an index below the number of cells.
pub proof fn lemma_index_bound(y: int, x: int, c: int, r: int)
    requires
        0 <= y < r,
        0 <= x < c,
    ensures
        0 <= y * c + x < r * c,
        y * c + x + 1 <= (y + 1) * c,
        (y + 1) * c <= r * c,
{
    assert(0 <= y * c) by (nonlinear_arith)
        requires
            0 <= y,
            0 <= c,
    ;
    assert((y + 1) * c <= r * c) by (nonlinear_arith)
        requires
            y + 1 <= r,
            0 <= c,
    ;
    assert((y + 1) * c == y * c + c) by (nonlinear_arith);
}

/// Every index below the number of cells lies in some row and column of the grid.
pub proof fn lemma_index_in_grid(i: int, c: int, r: int)
    requires
        c > 0,
        0 <= i < r * c,
    ensures
        0 <= i / c < r,
        0 <= i % c < c,
        i == (i / c) * c + i % c,
{
    vstd::arithmetic::div_mod::lemma_fundamental_div_mod(i, c);
    vstd::arithmetic::div_mod::lemma_div_pos_is_pos(i, c);
    vstd::arithmetic::div_mod::lemma_mod_pos_bound(i, c);
    assert(i / c < r) by (nonlinear_arith)
        requires
            i == c * (i / c) + i % c,
            i % c >= 0,
            i < r * c,
            c > 0,
    ;
    assert(i == (i / c) * c + i % c) by (nonlinear_arith)
        requires
            i == c * (i / c) + i % c,
    ;
}

} // verus!
