use vstd::prelude::*;
use vstd::arithmetic::div_mod::{
    lemma_div_by_multiple, lemma_div_is_ordered, lemma_fundamental_div_mod, lemma_mod_bound,
};

verus! {

/// The byte of channel `c` (0 = red, 1 = green, 2 = blue, 3 = alpha) of the
/// pixel at column `x`, row `y` of a row-major RGBA buffer `w` pixels wide.
pub open spec fn chan(d: Seq<u8>, w: int, c: int, x: int, y: int) -> int {
    d[(y * w + x) * 4 + c] as int
}

/// Luminance in thousandths: 0.299 R + 0.587 G + 0.114 B, scaled by 1000
/// so that it is an exact integer between 0 and 255000.
pub open spec fn luma(r: int, g: int, b: int) -> int {
    299 * r + 587 * g + 114 * b
}

/// Luminance (in thousandths) of pixel number `i` of an RGBA buffer.
pub open spec fn pixel_luma(d: Seq<u8>, i: int) -> int {
    luma(d[4 * i] as int, d[4 * i + 1] as int, d[4 * i + 2] as int)
}

/// `d` is a `w` x `h` RGBA buffer.
pub open spec fn is_rgba(d: Seq<u8>, w: int, h: int) -> bool {
    w >= 0 && h >= 0 && d.len() == w * h * 4
}

/// Pixel `(x, y)` lies inside a `w` x `h` grid, and its bytes inside the buffer.
pub proof fn lemma_pixel_index(x: int, y: int, w: int, h: int)
    requires
        0 <= x < w,
        0 <= y < h,
    ensures
        0 <= y * w + x < w * h,
        y * w + x < h * w,
        w * h == h * w,
        (y * w + x) * 4 + 3 < w * h * 4,
        y * w <= y * w + x,
        (y + 1) * w == y * w + w,
{
    assert(y * w + x < w * h) by (nonlinear_arith)
        requires
            0 <= x < w,
            0 <= y < h,
    ;
    assert(0 <= y * w) by (nonlinear_arith)
        requires
            0 <= x < w,
            0 <= y < h,
    ;
    assert((y + 1) * w == y * w + w) by (nonlinear_arith);
    assert(w * h == h * w) by (nonlinear_arith);
}

/// The luminance of an 8-bit pixel lies between 0 and 255000.
pub proof fn lemma_luma_range(r: int, g: int, b: int)
    requires
        0 <= r <= 255,
        0 <= g <= 255,
        0 <= b <= 255,
    ensures
        0 <= luma(r, g, b) <= 255000,
{
}

/// Pixel number `p` of a `w` x `h` grid sits at column `p % w`, row `p / w`.
pub proof fn lemma_pixel_coords(p: int, w: int, h: int)
    requires
        0 <= p < w * h,
        0 <= h,
    ensures
        w > 0,
        0 <= p % w < w,
        0 <= p / w < h,
        (p / w) * w + p % w == p,
{
    if w <= 0 {
        assert(w * h <= 0) by (nonlinear_arith)
            requires
                w <= 0,
                0 <= h,
        ;
    }
    lemma_fundamental_div_mod(p, w);
    lemma_mod_bound(p, w);
    let q = p / w;
    let r = p % w;
    assert(q * w == w * q) by (nonlinear_arith);
    assert(0 <= q < h) by (nonlinear_arith)
        requires
            p == w * q + r,
            0 <= r < w,
            0 <= p < w * h,
    ;
}

/// `x / b * b` is the start of the length-`b` tile holding `x`.
pub proof fn lemma_tile_start(x: int, b: int)
    requires
        0 <= x,
        0 < b,
    ensures
        0 <= x / b * b <= x < x / b * b + b,
        x - x / b * b == x % b,
{
    lemma_fundamental_div_mod(x, b);
    lemma_mod_bound(x, b);
    assert(x / b * b == b * (x / b)) by (nonlinear_arith);
    assert(0 <= x / b * b) by (nonlinear_arith)
        requires
            0 <= x,
            0 < b,
    ;
}

/// A sum of `a` values, none above `m`, divided by `a` is at most `m`.
pub proof fn lemma_mean_at_most(s: int, a: int, m: int)
    requires
        0 <= s <= m * a,
        0 < a,
        0 <= m,
    ensures
        0 <= s / a <= m,
{
    lemma_div_is_ordered(s, m * a, a);
    lemma_div_is_ordered(0, s, a);
    lemma_div_by_multiple(m, a);
}

} // verus!
