//! Summed-area tables: per-channel prefix sums of an RGBA buffer, answering
//! rectangle-sum queries in constant time.
use vstd::prelude::*;
use crate::image::{chan, is_rgba, lemma_pixel_index};

verus! {

/// Sum of channel `c` over the first `x` pixels of row `y`.
pub open spec fn row_prefix(d: Seq<u8>, w: int, c: int, x: int, y: int) -> int
    decreases x,
{
    if x <= 0 {
        0
    } else {
        row_prefix(d, w, c, x - 1, y) + chan(d, w, c, x - 1, y)
    }
}

/// Sum of channel `c` over the pixels left of column `x` and above row `y`.
pub open spec fn prefix(d: Seq<u8>, w: int, c: int, x: int, y: int) -> int
    decreases y,
{
    if y <= 0 {
        0
    } else {
        prefix(d, w, c, x, y - 1) + row_prefix(d, w, c, x, y - 1)
    }
}

/// Sum of channel `c` over the inclusive rectangle `[x0, x1] x [y0, y1]`,
/// row by row.
pub open spec fn box_sum(d: Seq<u8>, w: int, c: int, x0: int, y0: int, x1: int, y1: int) -> int
    decreases y1 - y0 + 1,
{
    if y1 < y0 {
        0
    } else {
        box_sum(d, w, c, x0, y0, x1, y1 - 1) + (row_prefix(d, w, c, x1 + 1, y1) - row_prefix(
            d,
            w,
            c,
            x0,
            y1,
        ))
    }
}

/// `ii` is the summed-area table of channel `c` of the `w` x `h` buffer `d`:
/// entry `y * w + x` holds the sum over `[0, x] x [0, y]`.
pub open spec fn is_integral(ii: Seq<u128>, d: Seq<u8>, w: int, h: int, c: int) -> bool {
    &&& ii.len() == w * h
    &&& forall|x: int, y: int|
        0 <= x < w && 0 <= y < h ==> #[trigger] ii[y * w + x] == prefix(d, w, c, x + 1, y + 1)
}

pub proof fn lemma_row_prefix_bounds(d: Seq<u8>, w: int, c: int, x0: int, x1: int, y: int)
    requires
        0 <= x0 <= x1,
    ensures
        0 <= row_prefix(d, w, c, x0, y) <= row_prefix(d, w, c, x1, y),
        row_prefix(d, w, c, x1, y) - row_prefix(d, w, c, x0, y) <= 255 * (x1 - x0),
    decreases x1,
{
    if x1 > x0 {
        lemma_row_prefix_bounds(d, w, c, x0, x1 - 1, y);
    } else if x0 > 0 {
        lemma_row_prefix_bounds(d, w, c, x0 - 1, x0 - 1, y);
    }
}

pub proof fn lemma_prefix_bounds(d: Seq<u8>, w: int, c: int, x: int, y: int)
    requires
        0 <= x,
        0 <= y,
    ensures
        0 <= prefix(d, w, c, x, y) <= 255 * x * y,
    decreases y,
{
    if y > 0 {
        lemma_prefix_bounds(d, w, c, x, y - 1);
        lemma_row_prefix_bounds(d, w, c, 0, x, y - 1);
        assert(255 * x * (y - 1) + 255 * x == 255 * x * y) by (nonlinear_arith);
    }
}

pub proof fn lemma_prefix_left_edge(d: Seq<u8>, w: int, c: int, y: int)
    ensures
        prefix(d, w, c, 0, y) == 0,
    decreases y,
{
    if y > 0 {
        lemma_prefix_left_edge(d, w, c, y - 1);
    }
}

/// Inclusion-exclusion: a rectangle sum from four corner prefix sums.
pub proof fn lemma_box_sum_corners(
    d: Seq<u8>,
    w: int,
    c: int,
    x0: int,
    y0: int,
    x1: int,
    y1: int,
)
    requires
        0 <= y0 <= y1 + 1,
    ensures
        box_sum(d, w, c, x0, y0, x1, y1) == prefix(d, w, c, x1 + 1, y1 + 1) - prefix(
            d,
            w,
            c,
            x0,
            y1 + 1,
        ) - prefix(d, w, c, x1 + 1, y0) + prefix(d, w, c, x0, y0),
    decreases y1 - y0 + 1,
{
    if y1 >= y0 {
        lemma_box_sum_corners(d, w, c, x0, y0, x1, y1 - 1);
    }
}

pub proof fn lemma_box_sum_bounds(d: Seq<u8>, w: int, c: int, x0: int, y0: int, x1: int, y1: int)
    requires
        0 <= x0 <= x1 + 1,
        y0 <= y1 + 1,
    ensures
        0 <= box_sum(d, w, c, x0, y0, x1, y1) <= 255 * ((x1 + 1 - x0) * (y1 + 1 - y0)),
    decreases y1 - y0 + 1,
{
    if y1 >= y0 {
        lemma_box_sum_bounds(d, w, c, x0, y0, x1, y1 - 1);
        lemma_row_prefix_bounds(d, w, c, x0, x1 + 1, y1);
        let a = x1 + 1 - x0;
        assert(255 * (a * (y1 - y0)) + 255 * a == 255 * (a * (y1 + 1 - y0))) by (nonlinear_arith);
    }
}

/// Builds the summed-area table of channel `c` of a `w` x `h` RGBA buffer.
pub fn channel_integral(data: &Vec<u8>, w: usize, h: usize, c: usize) -> (ii: Vec<u128>)
    requires
        is_rgba(data@, w as int, h as int),
        c < 3,
    ensures
        is_integral(ii@, data@, w as int, h as int, c as int),
{
    let n = data.len();
    let mut ii: Vec<u128> = Vec::new();
    let mut y: usize = 0;
    while y < h
        invariant
            n == data@.len(),
            is_rgba(data@, w as int, h as int),
            c < 3,
            y <= h,
            ii@.len() == y * w,
            forall|px: int, py: int|
                0 <= px < w && 0 <= py < y ==> #[trigger] ii@[py * w + px] == prefix(
                    data@,
                    w as int,
                    c as int,
                    px + 1,
                    py + 1,
                ),
        decreases h - y,
    {
        let mut row_sum: u128 = 0;
        let mut x: usize = 0;
        while x < w
            invariant
                n == data@.len(),
                is_rgba(data@, w as int, h as int),
                c < 3,
                y < h,
                x <= w,
                ii@.len() == y * w + x,
                row_sum == row_prefix(data@, w as int, c as int, x as int, y as int),
                forall|px: int, py: int|
                    0 <= px < w && 0 <= py < y ==> #[trigger] ii@[py * w + px] == prefix(
                        data@,
                        w as int,
                        c as int,
                        px + 1,
                        py + 1,
                    ),
                forall|px: int| 0 <= px < x ==> #[trigger] ii@[y * w + px] == prefix(
                    data@,
                    w as int,
                    c as int,
                    px + 1,
                    y + 1,
                ),
            decreases w - x,
        {
            proof {
                lemma_pixel_index(x as int, y as int, w as int, h as int);
                lemma_row_prefix_bounds(data@, w as int, c as int, 0, x as int, y as int);
                lemma_prefix_bounds(data@, w as int, c as int, x as int + 1, y as int + 1);
                lemma_prefix_bounds(data@, w as int, c as int, x as int + 1, y as int);
                assert(255 * (x + 1) * (y + 1) <= 255 * w * h) by (nonlinear_arith)
                    requires
                        x < w,
                        y < h,
                ;
                assert(w * h * 4 <= usize::MAX);
                assert(255 * w * h == 255 * (w * h)) by (nonlinear_arith);
            }
            let idx = y * w + x;
            row_sum = row_sum + data[idx * 4 + c] as u128;
            let above: u128 = if y > 0 {
                proof {
                    lemma_pixel_index(x as int, y - 1, w as int, h as int);
                    assert(idx - w == (y - 1) * w + x);
                    assert(ii@[(y - 1) * w + x] == prefix(data@, w as int, c as int, x + 1, y as int));
                }
                ii[idx - w]
            } else {
                0
            };
            assert(row_sum + above == prefix(data@, w as int, c as int, x + 1, y + 1));
            let ghost prev = ii@;
            ii.push(row_sum + above);
            proof {
                assert forall|px: int, py: int|
                    0 <= px < w && 0 <= py < y implies #[trigger] ii@[py * w + px] == prefix(
                        data@,
                        w as int,
                        c as int,
                        px + 1,
                        py + 1,
                    ) by {
                    lemma_pixel_index(px, py, w as int, y as int);
                    assert(prev[py * w + px] == ii@[py * w + px]);
                }
            }
            x = x + 1;
        }
        proof {
            assert((y + 1) * w == y * w + w) by (nonlinear_arith);
            assert forall|px: int, py: int|
                0 <= px < w && 0 <= py < y + 1 implies #[trigger] ii@[py * w + px] == prefix(
                    data@,
                    w as int,
                    c as int,
                    px + 1,
                    py + 1,
                ) by {
                if py == y {
                    assert(ii@[y * w + px] == prefix(data@, w as int, c as int, px + 1, y + 1));
                }
            }
        }
        y = y + 1;
    }
    assert(h * w == w * h) by (nonlinear_arith);
    ii
}

/// The summed-area tables of the red, green and blue channels.
pub fn compute_integral_images(data: &Vec<u8>, w: usize, h: usize) -> (r: (
    Vec<u128>,
    Vec<u128>,
    Vec<u128>,
))
    requires
        is_rgba(data@, w as int, h as int),
    ensures
        is_integral(r.0@, data@, w as int, h as int, 0),
        is_integral(r.1@, data@, w as int, h as int, 1),
        is_integral(r.2@, data@, w as int, h as int, 2),
{
    let int_r = channel_integral(data, w, h, 0);
    let int_g = channel_integral(data, w, h, 1);
    let int_b = channel_integral(data, w, h, 2);
    (int_r, int_g, int_b)
}

/// Sum over the inclusive rectangle `[x0, x1] x [y0, y1]`, by inclusion-exclusion
/// on the summed-area table.
pub fn rect_sum(
    integral: &Vec<u128>,
    Ghost(d): Ghost<Seq<u8>>,
    w: usize,
    h: usize,
    Ghost(c): Ghost<int>,
    x0: usize,
    y0: usize,
    x1: usize,
    y1: usize,
) -> (r: u128)
    requires
        is_rgba(d, w as int, h as int),
        is_integral(integral@, d, w as int, h as int, c),
        x0 <= x1 < w,
        y0 <= y1 < h,
    ensures
        r == box_sum(d, w as int, c, x0 as int, y0 as int, x1 as int, y1 as int),
        r <= 255 * ((x1 + 1 - x0) * (y1 + 1 - y0)),
{
    let n = integral.len();
    proof {
        lemma_pixel_index(x1 as int, y1 as int, w as int, h as int);
        lemma_pixel_index(x0 as int, y1 as int, w as int, h as int);
        lemma_box_sum_corners(d, w as int, c, x0 as int, y0 as int, x1 as int, y1 as int);
        lemma_box_sum_corners(d, w as int, c, 0, y0 as int, x1 as int, y1 as int);
        lemma_box_sum_bounds(d, w as int, c, x0 as int, y0 as int, x1 as int, y1 as int);
        lemma_box_sum_bounds(d, w as int, c, 0, y0 as int, x1 as int, y1 as int);
        lemma_box_sum_bounds(d, w as int, c, 0, y0 as int, x0 as int - 1, y1 as int);
        lemma_box_sum_corners(d, w as int, c, 0, y0 as int, x0 as int - 1, y1 as int);
        lemma_prefix_left_edge(d, w as int, c, y1 as int + 1);
        lemma_prefix_left_edge(d, w as int, c, y0 as int);
    }
    let d_ = integral[y1 * w + x1];
    let b: u128 = if y0 > 0 {
        proof {
            lemma_pixel_index(x1 as int, y0 - 1, w as int, h as int);
            assert((y0 - 1 + 1) as int == y0 as int);
        }
        integral[(y0 - 1) * w + x1]
    } else {
        0
    };
    let c_: u128 = if x0 > 0 {
        integral[y1 * w + (x0 - 1)]
    } else {
        0
    };
    let a: u128 = if x0 > 0 && y0 > 0 {
        proof {
            lemma_pixel_index(x0 - 1, y0 - 1, w as int, h as int);
        }
        integral[(y0 - 1) * w + (x0 - 1)]
    } else {
        0
    };
    (d_ - b) - (c_ - a)
}

} // verus!
