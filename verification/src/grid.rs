//! Row-major pixel-grid conventions shared by every image module: a `w × h`
//! image is a buffer whose pixel `(x, y)` sits at index `y·w + x`; a binary
//! image marks ink (ON) with the byte `0` and background with any other
//! byte (`255` when produced here).
use vstd::prelude::*;
use vstd::arithmetic::div_mod::{lemma_fundamental_div_mod, lemma_fundamental_div_mod_converse, lemma_mod_pos_bound};

verus! {

/// Is the byte an ink (ON) pixel in the crate's bitonal convention?
pub open spec fn is_ink(b: u8) -> bool {
    b == 0
}

/// The canonical byte for an ON / OFF pixel.
pub open spec fn ink_byte(on: bool) -> u8 {
    if on { 0u8 } else { 255u8 }
}

/// Flat index of pixel `(x, y)` in a row-major grid of width `w`.
pub open spec fn idx(x: int, y: int, w: int) -> int {
    y * w + x
}

/// A pixel inside a `w × h` grid has an in-bounds flat index.
pub proof fn lemma_idx_bounds(x: int, y: int, w: int, h: int)
    requires
        0 <= x < w,
        0 <= y < h,
    ensures
        0 <= y * w + x < w * h,
        y * w + x <= w * h - 1,
        0 <= y * w,
        y * w + w <= w * h,
{
    assert(0 <= y * w) by (nonlinear_arith)
        requires
            0 <= y,
            0 <= w,
    ;
    assert(y * w + w <= w * h) by (nonlinear_arith)
        requires
            0 <= y < h,
            0 <= w,
    ;
}

/// A flat index built from `(x, y)` decomposes back into `(x, y)`.
pub proof fn lemma_idx_decompose(x: int, y: int, w: int)
    requires
        0 <= x < w,
        0 <= y,
    ensures
        (y * w + x) / w == y,
        (y * w + x) % w == x,
{
    lemma_fundamental_div_mod_converse(y * w + x, w, y, x);
}

/// Every flat index of a `w × h` grid splits into an in-bounds `(x, y)`.
pub proof fn lemma_idx_split(i: int, w: int, h: int)
    requires
        w >= 0,
        h >= 0,
        0 <= i < w * h,
    ensures
        w > 0,
        0 <= i % w < w,
        0 <= i / w < h,
        i == (i / w) * w + i % w,
{
    assert(w > 0) by (nonlinear_arith)
        requires
            w >= 0,
            h >= 0,
            0 <= i < w * h,
    ;
    lemma_fundamental_div_mod(i, w);
    lemma_mod_pos_bound(i, w);
    let q = i / w;
    let r = i % w;
    assert(i == q * w + r) by (nonlinear_arith)
        requires
            i == w * q + r,
    ;
    assert(0 <= q < h) by (nonlinear_arith)
        requires
            i == q * w + r,
            0 <= r < w,
            0 <= i < w * h,
            w > 0,
    ;
}

/// Products of grid dimensions are monotone.
pub proof fn lemma_mul_mono(a: int, b: int, c: int, d: int)
    requires
        0 <= a <= c,
        0 <= b <= d,
    ensures
        0 <= a * b <= c * d,
{
    assert(0 <= a * b <= c * d) by (nonlinear_arith)
        requires
            0 <= a <= c,
            0 <= b <= d,
    ;
}

} // verus!
