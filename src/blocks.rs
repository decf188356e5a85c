//! Coarsening: the `bs` x `bs` cells that the quantization grid is made of
//! when `block_scale > 1`, their luminance sums, and painting a per-cell
//! result back onto the pixels.
use vstd::prelude::*;
use crate::image::{is_rgba, lemma_luma_range, lemma_pixel_coords, lemma_pixel_index, pixel_luma};
use vstd::arithmetic::div_mod::{lemma_fundamental_div_mod, lemma_mod_bound};

verus! {

/// Number of cells of edge `bs` needed to cover `n` pixels (rounded up).
pub open spec fn cells_for(n: int, bs: int) -> int {
    n / bs + if n % bs == 0 {
        0int
    } else {
        1int
    }
}

/// Sum of the luminance (thousandths) of the pixels `x0 <= x < x1` of row `y`.
pub open spec fn row_luma(d: Seq<u8>, w: int, y: int, x0: int, x1: int) -> int
    decreases x1 - x0,
{
    if x1 <= x0 {
        0
    } else {
        row_luma(d, w, y, x0, x1 - 1) + pixel_luma(d, y * w + x1 - 1)
    }
}

/// Sum of the luminance over the half-open rectangle `[x0, x1) x [y0, y1)`.
pub open spec fn block_luma(d: Seq<u8>, w: int, x0: int, y0: int, x1: int, y1: int) -> int
    decreases y1 - y0,
{
    if y1 <= y0 {
        0
    } else {
        block_luma(d, w, x0, y0, x1, y1 - 1) + row_luma(d, w, y1 - 1, x0, x1)
    }
}

/// Half-open pixel bounds `(x0, y0, x1, y1)` of cell `(cx, cy)`; cells on
/// the right and bottom edges are clipped to the image.
pub open spec fn cell_bounds(w: int, h: int, bs: int, cx: int, cy: int) -> (int, int, int, int) {
    (
        cx * bs,
        cy * bs,
        if cx * bs + bs < w { cx * bs + bs } else { w },
        if cy * bs + bs < h { cy * bs + bs } else { h },
    )
}

/// The index, in a grid `gw` cells wide, of the cell that holds pixel `q`.
pub open spec fn cell_of(w: int, bs: int, gw: int, q: int) -> int {
    (q / w / bs) * gw + (q % w) / bs
}

/// The image with the colour bytes of every pixel set to the byte of its
/// cell; alpha bytes are kept.
pub open spec fn painted(d: Seq<u8>, w: int, bs: int, gw: int, cells: Seq<u8>) -> Seq<u8> {
    Seq::new(
        d.len(),
        |i: int|
            if i % 4 == 3 {
                d[i]
            } else {
                cells[cell_of(w, bs, gw, i / 4)]
            },
    )
}

pub proof fn lemma_cells_for(n: int, bs: int, i: int)
    requires
        0 < bs,
        0 <= i < n,
    ensures
        0 <= i / bs < cells_for(n, bs),
        cells_for(n, bs) <= n,
        (i / bs) * bs <= i < (i / bs) * bs + bs,
{
    lemma_fundamental_div_mod(n, bs);
    lemma_mod_bound(n, bs);
    lemma_fundamental_div_mod(i, bs);
    lemma_mod_bound(i, bs);
    let qn = n / bs;
    let rn = n % bs;
    let qi = i / bs;
    let ri = i % bs;
    assert(qi * bs == bs * qi) by (nonlinear_arith);
    assert(0 <= qi) by (nonlinear_arith)
        requires
            i == bs * qi + ri,
            0 <= ri < bs,
            0 <= i,
    ;
    assert(qi <= qn) by (nonlinear_arith)
        requires
            i == bs * qi + ri,
            n == bs * qn + rn,
            0 <= ri < bs,
            0 <= rn < bs,
            i < n,
    ;
    if qi == qn {
        assert(ri < rn);
    }
    assert(qn <= n) by (nonlinear_arith)
        requires
            n == bs * qn + rn,
            0 <= rn,
            0 < bs,
            0 < n,
            0 <= qn,
    ;
    if rn != 0 && qn == n {
        assert(bs * qn >= qn) by (nonlinear_arith)
            requires
                0 < bs,
                0 <= qn,
        ;
    }
}

/// Cell `c` of a grid of `cells_for(n, bs)` starts inside the image.
pub proof fn lemma_cell_start(n: int, bs: int, c: int)
    requires
        0 < bs,
        0 <= c < cells_for(n, bs),
        0 <= n,
    ensures
        0 <= c * bs < n,
{
    lemma_fundamental_div_mod(n, bs);
    lemma_mod_bound(n, bs);
    let qn = n / bs;
    let rn = n % bs;
    assert(0 <= c * bs) by (nonlinear_arith)
        requires
            0 <= c,
            0 < bs,
    ;
    if c < qn {
        assert(c * bs < n) by (nonlinear_arith)
            requires
                c < qn,
                n == bs * qn + rn,
                0 <= rn,
                0 < bs,
        ;
    } else {
        assert(c == qn);
        assert(c * bs == bs * qn) by (nonlinear_arith)
            requires
                c == qn,
        ;
    }
}

pub proof fn lemma_row_luma_bounds(d: Seq<u8>, w: int, y: int, x0: int, x1: int)
    requires
        x0 <= x1,
    ensures
        0 <= row_luma(d, w, y, x0, x1) <= 255000 * (x1 - x0),
    decreases x1 - x0,
{
    if x1 > x0 {
        lemma_row_luma_bounds(d, w, y, x0, x1 - 1);
        let i = y * w + x1 - 1;
        lemma_luma_range(d[4 * i] as int, d[4 * i + 1] as int, d[4 * i + 2] as int);
    }
}

pub proof fn lemma_block_luma_bounds(d: Seq<u8>, w: int, x0: int, y0: int, x1: int, y1: int)
    requires
        x0 <= x1,
        y0 <= y1,
    ensures
        0 <= block_luma(d, w, x0, y0, x1, y1) <= 255000 * ((x1 - x0) * (y1 - y0)),
    decreases y1 - y0,
{
    if y1 > y0 {
        lemma_block_luma_bounds(d, w, x0, y0, x1, y1 - 1);
        lemma_row_luma_bounds(d, w, y1 - 1, x0, x1);
        let a = x1 - x0;
        assert(255000 * (a * (y1 - 1 - y0)) + 255000 * a == 255000 * (a * (y1 - y0)))
            by (nonlinear_arith);
    }
}

/// Number of cells of edge `bs` that cover `n` pixels.
pub fn cell_count(n: usize, bs: usize) -> (r: usize)
    requires
        0 < bs,
    ensures
        r == cells_for(n as int, bs as int),
        r <= n,
{
    if n > 0 {
        proof {
            lemma_cells_for(n as int, bs as int, 0);
        }
    }
    n / bs + if n % bs == 0 {
        0
    } else {
        1
    }
}

/// Half-open bounds of cell `(cx, cy)`, computed.
pub fn cell_bounds_of(w: usize, h: usize, bs: usize, cx: usize, cy: usize) -> (r: (
    usize,
    usize,
    usize,
    usize,
))
    requires
        0 < bs,
        cx < cells_for(w as int, bs as int),
        cy < cells_for(h as int, bs as int),
    ensures
        (r.0 as int, r.1 as int, r.2 as int, r.3 as int) == cell_bounds(
            w as int,
            h as int,
            bs as int,
            cx as int,
            cy as int,
        ),
        r.0 < r.2 <= w,
        r.1 < r.3 <= h,
{
    proof {
        lemma_cell_start(w as int, bs as int, cx as int);
        lemma_cell_start(h as int, bs as int, cy as int);
    }
    let x0 = cx * bs;
    let y0 = cy * bs;
    let x1 = if bs < w - x0 {
        x0 + bs
    } else {
        w
    };
    let y1 = if bs < h - y0 {
        y0 + bs
    } else {
        h
    };
    (x0, y0, x1, y1)
}

/// Sum of the luminance (thousandths) over the half-open rectangle.
pub fn block_luma_sum(data: &Vec<u8>, w: usize, h: usize, x0: usize, y0: usize, x1: usize, y1: usize) -> (r: u128)
    requires
        is_rgba(data@, w as int, h as int),
        x0 <= x1 <= w,
        y0 <= y1 <= h,
    ensures
        r == block_luma(data@, w as int, x0 as int, y0 as int, x1 as int, y1 as int),
{
    let n = data.len();
    let mut sum: u128 = 0;
    let mut y = y0;
    while y < y1
        invariant
            n == data@.len(),
            is_rgba(data@, w as int, h as int),
            x0 <= x1 <= w,
            y0 <= y <= y1 <= h,
            sum == block_luma(data@, w as int, x0 as int, y0 as int, x1 as int, y as int),
        decreases y1 - y,
    {
        let mut x = x0;
        let mut row: u128 = 0;
        while x < x1
            invariant
                n == data@.len(),
                is_rgba(data@, w as int, h as int),
                x0 <= x <= x1 <= w,
                y0 <= y < y1 <= h,
                row == row_luma(data@, w as int, y as int, x0 as int, x as int),
            decreases x1 - x,
        {
            proof {
                lemma_pixel_index(x as int, y as int, w as int, h as int);
                lemma_row_luma_bounds(data@, w as int, y as int, x0 as int, x as int);
                assert(255000 * (x - x0) <= 255000 * w);
            }
            let i = (y * w + x) * 4;
            let l = 299 * data[i] as u128 + 587 * data[i + 1] as u128 + 114 * data[i + 2] as u128;
            row = row + l;
            x = x + 1;
        }
        proof {
            lemma_block_luma_bounds(data@, w as int, x0 as int, y0 as int, x1 as int, y as int);
            lemma_row_luma_bounds(data@, w as int, y as int, x0 as int, x1 as int);
            assert(255000 * ((x1 - x0) * (y - y0)) <= 255000 * (w * h)) by (nonlinear_arith)
                requires
                    x1 - x0 <= w,
                    y - y0 <= h,
                    x0 <= x1,
                    y0 <= y,
            ;
            assert(w <= w * h || h == 0) by (nonlinear_arith)
                requires
                    0 <= w,
                    0 <= h,
            ;
        }
        sum = sum + row;
        y = y + 1;
    }
    sum
}

/// Sets the colour bytes of every pixel to the byte of its cell.
pub fn paint_cells(data: &mut Vec<u8>, w: usize, h: usize, bs: usize, gw: usize, cells: &Vec<u8>)
    requires
        is_rgba(old(data)@, w as int, h as int),
        0 < bs,
        gw == cells_for(w as int, bs as int),
        cells@.len() == gw * cells_for(h as int, bs as int),
    ensures
        final(data)@ == painted(old(data)@, w as int, bs as int, gw as int, cells@),
{
    let ghost d = data@;
    let n = data.len();
    let ghost gh = cells_for(h as int, bs as int);
    let cn = cells.len();
    let mut p: usize = 0;
    proof {
        assert(w * h * 4 == n);
    }
    while p < w * h
        invariant
            d == old(data)@,
            n == d.len(),
            is_rgba(d, w as int, h as int),
            0 < bs,
            gw == cells_for(w as int, bs as int),
            gh == cells_for(h as int, bs as int),
            cells@.len() == gw * gh,
            cn == cells@.len(),
            p <= w * h,
            data@.len() == n,
            forall|i: int|
                0 <= i < n ==> #[trigger] data@[i] == if i < 4 * p && i % 4 != 3 {
                    cells@[cell_of(w as int, bs as int, gw as int, i / 4)]
                } else {
                    d[i]
                },
        decreases w * h - p,
    {
        proof {
            lemma_pixel_coords(p as int, w as int, h as int);
            lemma_cells_for(w as int, bs as int, (p % w) as int);
            lemma_cells_for(h as int, bs as int, (p / w) as int);
            lemma_pixel_index((p % w / bs) as int, (p / w / bs) as int, gw as int, gh);
        }
        let c = (p / w / bs) * gw + (p % w) / bs;
        let v = cells[c];
        let base = p * 4;
        data.set(base, v);
        data.set(base + 1, v);
        data.set(base + 2, v);
        proof {
            assert forall|i: int|
                0 <= i < n implies #[trigger] data@[i] == if i < 4 * (p + 1) && i % 4 != 3 {
                    cells@[cell_of(w as int, bs as int, gw as int, i / 4)]
                } else {
                    d[i]
                } by {
                if 4 * p <= i < 4 * p + 4 {
                    assert(i / 4 == p);
                    assert(i % 4 == i - 4 * p);
                }
            }
        }
        p = p + 1;
    }
    proof {
        assert(data@ =~= painted(d, w as int, bs as int, gw as int, cells@));
    }
}

} // verus!
