//! Ordered dithering: every cell is compared with the threshold matrix
//! entry at its centre, taken modulo the matrix size.
use vstd::prelude::*;
use crate::image::{is_rgba, lemma_pixel_coords, lemma_pixel_index};
use crate::blocks::{
    block_luma, block_luma_sum, cell_bounds, cell_bounds_of, cell_count, cells_for,
    lemma_block_luma_bounds, paint_cells, painted,
};
use crate::bayer::{bayer_matrix, generate_bayer_matrix};
use crate::diffusion::effective_scale;

verus! {

/// The decision for cell `c`: 0 when the cell's mean luminance is below
/// `(rank + 0.5) / (mw * mh) * 255`, where `rank` is the matrix entry at the
/// cell's centre (modulo the matrix size); 255 otherwise. Luminance sums
/// are in thousandths, so the comparison is exact.
pub open spec fn ordered_cell(
    d: Seq<u8>,
    w: int,
    h: int,
    bs: int,
    gw: int,
    mw: int,
    mh: int,
    c: int,
) -> u8 {
    let b = cell_bounds(w, h, bs, c % gw, c / gw);
    let count = (b.2 - b.0) * (b.3 - b.1);
    let cx = (b.0 + (b.2 - b.0) / 2) % mw;
    let cy = (b.1 + (b.3 - b.1) / 2) % mh;
    let rank = bayer_matrix(mw, mh)[cy * mw + cx];
    if block_luma(d, w, b.0, b.1, b.2, b.3) * (2 * mw * mh) < (2 * rank + 1) * 255000 * count {
        0
    } else {
        255
    }
}

/// A matrix side of 0 counts as 1.
pub open spec fn matrix_side(s: int) -> int {
    if s >= 1 {
        s
    } else {
        1
    }
}

/// The image after ordered dithering.
pub open spec fn ordered_result(
    d: Seq<u8>,
    w: int,
    h: int,
    block_scale: int,
    matrix_width: int,
    matrix_height: int,
) -> Seq<u8> {
    let s = effective_scale(block_scale);
    let gw = cells_for(w, s);
    let gh = cells_for(h, s);
    let mw = matrix_side(matrix_width);
    let mh = matrix_side(matrix_height);
    painted(d, w, s, gw, Seq::new((gw * gh) as nat, |c: int| ordered_cell(d, w, h, s, gw, mw, mh, c)))
}

/// Ordered dithering of an RGBA buffer with a freshly generated
/// `matrix_width` x `matrix_height` threshold matrix (sides of 0 count as 1),
/// per pixel or per cell of edge `block_scale`.
pub fn ordered_dither(
    data: &mut Vec<u8>,
    width: u32,
    height: u32,
    block_scale: u32,
    matrix_width: u8,
    matrix_height: u8,
)
    requires
        is_rgba(old(data)@, width as int, height as int),
    ensures
        final(data)@ == ordered_result(
            old(data)@,
            width as int,
            height as int,
            block_scale as int,
            matrix_width as int,
            matrix_height as int,
        ),
{
    let w = width as usize;
    let h = height as usize;
    let n = data.len();
    let bs: usize = if block_scale > 1 {
        block_scale as usize
    } else {
        1
    };
    let mw: u8 = if matrix_width >= 1 {
        matrix_width
    } else {
        1
    };
    let mh: u8 = if matrix_height >= 1 {
        matrix_height
    } else {
        1
    };
    let matrix = generate_bayer_matrix(mw, mh);
    let mw = mw as usize;
    let mh = mh as usize;
    let gw = cell_count(w, bs);
    let gh = cell_count(h, bs);
    proof {
        assert(gw * gh <= w * h) by (nonlinear_arith)
            requires
                gw <= w,
                gh <= h,
                0 <= gw,
                0 <= gh,
        ;
        assert(w * h * 4 == n);
    }
    let total = gw * gh;
    let ghost d = data@;
    let mut cells: Vec<u8> = Vec::new();
    let mut c: usize = 0;
    while c < total
        invariant
            d == data@,
            n == d.len(),
            is_rgba(d, w as int, h as int),
            0 < bs,
            bs == effective_scale(block_scale as int),
            1 <= mw <= 255,
            1 <= mh <= 255,
            mw == crate::ordered::matrix_side(matrix_width as int),
            mh == crate::ordered::matrix_side(matrix_height as int),
            matrix@.len() == mw * mh,
            forall|p: int| 0 <= p < matrix@.len() ==> #[trigger] matrix@[p] == bayer_matrix(mw as int, mh as int)[p],
            forall|p: int| 0 <= p < matrix@.len() ==> #[trigger] matrix@[p] < mw * mh,
            gw == cells_for(w as int, bs as int),
            gh == cells_for(h as int, bs as int),
            total == gw * gh,
            c <= total,
            cells@.len() == c,
            forall|k: int|
                0 <= k < c ==> #[trigger] cells@[k] == ordered_cell(
                    d,
                    w as int,
                    h as int,
                    bs as int,
                    gw as int,
                    mw as int,
                    mh as int,
                    k,
                ),
        decreases total - c,
    {
        proof {
            lemma_pixel_coords(c as int, gw as int, gh as int);
        }
        let (x0, y0, x1, y1) = cell_bounds_of(w, h, bs, c % gw, c / gw);
        let sum = block_luma_sum(data, w, h, x0, y0, x1, y1);
        let cx = (x0 + (x1 - x0) / 2) % mw;
        let cy = (y0 + (y1 - y0) / 2) % mh;
        proof {
            lemma_pixel_index(cx as int, cy as int, mw as int, mh as int);
            assert(mw * mh <= 65025) by (nonlinear_arith)
                requires
                    mw <= 255,
                    mh <= 255,
            ;
        }
        let rank = matrix[cy * mw + cx] as u128;
        let ghost count = (x1 - x0) * (y1 - y0);
        proof {
            lemma_block_luma_bounds(d, w as int, x0 as int, y0 as int, x1 as int, y1 as int);
            assert(0 < count <= w * h) by (nonlinear_arith)
                requires
                    count == (x1 - x0) * (y1 - y0),
                    x0 < x1 <= w,
                    y0 < y1 <= h,
            ;
            assert(mw * mh <= 65025) by (nonlinear_arith)
                requires
                    mw <= 255,
                    mh <= 255,
            ;
            assert(sum * (2 * mw * mh) <= 255000 * count * 131050) by (nonlinear_arith)
                requires
                    0 <= sum <= 255000 * count,
                    0 < count,
                    1 <= mw * mh <= 65025,
            ;
            assert((2 * rank + 1) * 255000 * count <= 131051 * 255000 * count) by (nonlinear_arith)
                requires
                    rank < 65025,
                    0 < count,
            ;
            assert(count <= n);
            assert(131051 * 255000 * count <= 131051 * 255000 * 0xffff_ffff_ffff_ffff) by (nonlinear_arith)
                requires
                    0 < count <= 0xffff_ffff_ffff_ffff,
            ;
            assert(2 * mw * mh == 2 * (mw * mh)) by (nonlinear_arith);
        }
        let count = ((x1 - x0) * (y1 - y0)) as u128;
        let scale: u128 = 2 * ((mw * mh) as u128);
        let v: u8 = if sum * scale < (2 * rank + 1) * 255000 * count {
            0
        } else {
            255
        };
        cells.push(v);
        c = c + 1;
    }
    paint_cells(data, w, h, bs, gw, &cells);
    proof {
        assert(cells@ =~= Seq::new((gw * gh) as nat, |k: int| ordered_cell(d, w as int, h as int, bs as int, gw as int, mw as int, mh as int, k)));
    }
}

} // verus!
