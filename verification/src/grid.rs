//! Row-major grids: where a cell lies in the flat buffer that holds it.
use vstd::arithmetic::div_mod::{lemma_fundamental_div_mod, lemma_fundamental_div_mod_converse};
use vstd::prelude::*;

verus! {

/// The offset of column `x` of row `y` in a buffer whose rows are `w` cells long.
pub open spec fn cell(w: int, x: int, y: int) -> int {
    y * w + x
}

/// A cell of a `w` by `h` grid lies inside the buffer, and its offset gives back its column and row.
pub proof fn lemma_cell(w: int, h: int, x: int, y: int)
    requires
        0 <= x < w,
        0 <= y < h,
    ensures
        0 <= cell(w, x, y) < w * h,
        cell(w, x, y) / w == y,
        cell(w, x, y) % w == x,
        0 <= y * w <= cell(w, x, y),
        cell(w, x, y) < (y + 1) * w,
        (y + 1) * w <= w * h,
{
    lemma_fundamental_div_mod_converse(cell(w, x, y), w, y, x);
    assert(0 <= y * w) by (nonlinear_arith)
        requires
            0 <= y,
            0 <= w,
    ;
    assert((y + 1) * w == y * w + w) by (nonlinear_arith);
    assert((y + 1) * w <= w * h) by (nonlinear_arith)
        requires
            y + 1 <= h,
            0 <= w,
    ;
}

/// Every offset of a `w` by `h` grid is the offset of one cell.
pub proof fn lemma_offset(w: int, h: int, k: int)
    requires
        0 < w,
        0 <= k < w * h,
    ensures
        0 <= k % w < w,
        0 <= k / w < h,
        cell(w, k % w, k / w) == k,
{
    lemma_fundamental_div_mod(k, w);
    assert(w * (k / w) == (k / w) * w) by (nonlinear_arith);
    assert(k / w < h) by (nonlinear_arith)
        requires
            k < w * h,
            0 < w,
            k == w * (k / w) + k % w,
            0 <= k % w,
    ;
    assert(0 <= k / w) by (nonlinear_arith)
        requires
            0 <= k,
            0 < w,
    ;
}

/// Every non-negative offset is the offset of one cell of an unbounded grid.
pub proof fn lemma_offset_open(w: int, k: int)
    requires
        0 < w,
        0 <= k,
    ensures
        0 <= k % w < w,
        0 <= k / w,
        cell(w, k % w, k / w) == k,
{
    lemma_fundamental_div_mod(k, w);
    assert(w * (k / w) == (k / w) * w) by (nonlinear_arith);
    assert(0 <= k / w) by (nonlinear_arith)
        requires
            0 <= k,
            0 < w,
    ;
}

} // verus!
