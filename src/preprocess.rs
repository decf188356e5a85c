//! The preprocessing pipeline: box blur, pixelation and a tone table, each
//! a no-op under its neutral setting. The alpha channel is never changed.
use vstd::prelude::*;
use crate::image::{is_rgba, lemma_mean_at_most, lemma_pixel_coords};
use crate::integral::{box_sum, compute_integral_images, rect_sum};

verus! {

/// Inclusive window `(x0, y0, x1, y1)` of the box blur of radius `r` around
/// `(x, y)`, clamped to the image.
pub open spec fn blur_window(w: int, h: int, r: int, x: int, y: int) -> (int, int, int, int) {
    (
        if x >= r { x - r } else { 0 },
        if y >= r { y - r } else { 0 },
        if x + r < w { x + r } else { w - 1 },
        if y + r < h { y + r } else { h - 1 },
    )
}

/// Inclusive window of the `b` x `b` tile holding `(x, y)`; edge tiles are clipped.
pub open spec fn tile_window(w: int, h: int, b: int, x: int, y: int) -> (int, int, int, int) {
    let x0 = x / b * b;
    let y0 = y / b * b;
    (
        x0,
        y0,
        if x0 + b - 1 < w { x0 + b - 1 } else { w - 1 },
        if y0 + b - 1 < h { y0 + b - 1 } else { h - 1 },
    )
}

pub open spec fn window(w: int, h: int, size: int, tiled: bool, x: int, y: int) -> (
    int,
    int,
    int,
    int,
) {
    if tiled {
        tile_window(w, h, size, x, y)
    } else {
        blur_window(w, h, size, x, y)
    }
}

/// Mean of channel `c` over an inclusive window, rounded down.
pub open spec fn window_mean(d: Seq<u8>, w: int, c: int, win: (int, int, int, int)) -> int {
    box_sum(d, w, c, win.0, win.1, win.2, win.3) / ((win.2 - win.0 + 1) * (win.3 - win.1 + 1))
}

/// Byte `i` of the image after each colour byte is replaced by the mean of
/// its window; alpha bytes are kept.
pub open spec fn filtered_byte(d: Seq<u8>, w: int, h: int, size: int, tiled: bool, i: int) -> u8 {
    if i % 4 == 3 {
        d[i]
    } else {
        let q = i / 4;
        window_mean(d, w, i % 4, window(w, h, size, tiled, q % w, q / w)) as u8
    }
}

pub open spec fn box_filtered(d: Seq<u8>, w: int, h: int, size: int, tiled: bool) -> Seq<u8> {
    Seq::new(d.len(), |i: int| filtered_byte(d, w, h, size, tiled, i))
}

/// The image after a box blur of radius `r` (no change when `r == 0`).
pub open spec fn blurred(d: Seq<u8>, w: int, h: int, r: int) -> Seq<u8> {
    if r > 0 {
        box_filtered(d, w, h, r, false)
    } else {
        d
    }
}

/// The image after pixelation with `b` x `b` tiles (no change when `b <= 1`).
pub open spec fn pixelated(d: Seq<u8>, w: int, h: int, b: int) -> Seq<u8> {
    if b > 1 {
        box_filtered(d, w, h, b, true)
    } else {
        d
    }
}

/// The image with every colour byte `v` replaced by `table[v]`.
pub open spec fn toned(d: Seq<u8>, table: Seq<u8>) -> Seq<u8> {
    Seq::new(d.len(), |i: int| if i % 4 == 3 { d[i] } else { table[d[i] as int] })
}

/// The whole pipeline: blur, then pixelation, then the tone table.
pub open spec fn preprocessed(
    d: Seq<u8>,
    w: int,
    h: int,
    table: Seq<u8>,
    pixelation: int,
    blur: int,
) -> Seq<u8> {
    toned(pixelated(blurred(d, w, h, blur), w, h, pixelation), table)
}

/// A tone table of 256 entries that maps every byte to itself.
pub open spec fn is_identity_table(table: Seq<u8>) -> bool {
    table.len() == 256 && forall|v: int| 0 <= v < 256 ==> #[trigger] table[v] == v
}

/// The window of `(x, y)`, computed.
fn window_of(w: usize, h: usize, size: usize, tiled: bool, x: usize, y: usize) -> (r: (
    usize,
    usize,
    usize,
    usize,
))
    requires
        x < w,
        y < h,
        tiled ==> size > 0,
    ensures
        (r.0 as int, r.1 as int, r.2 as int, r.3 as int) == window(w as int, h as int, size as int, tiled, x as int, y as int),
        r.0 <= x <= r.2 < w,
        r.1 <= y <= r.3 < h,
{
    if tiled {
        proof {
            crate::image::lemma_tile_start(x as int, size as int);
            crate::image::lemma_tile_start(y as int, size as int);
        }
        let x0 = x / size * size;
        let y0 = y / size * size;
        let x1 = if size <= w - x0 {
            x0 + size - 1
        } else {
            w - 1
        };
        let y1 = if size <= h - y0 {
            y0 + size - 1
        } else {
            h - 1
        };
        (x0, y0, x1, y1)
    } else {
        let x0 = if x >= size {
            x - size
        } else {
            0
        };
        let y0 = if y >= size {
            y - size
        } else {
            0
        };
        let x1 = if size < w - x {
            x + size
        } else {
            w - 1
        };
        let y1 = if size < h - y {
            y + size
        } else {
            h - 1
        };
        (x0, y0, x1, y1)
    }
}

/// Replaces every colour byte by the mean of its window (a blur window of
/// radius `size`, or the `size` x `size` tile it lies in).
fn box_filter(data: &mut Vec<u8>, w: usize, h: usize, size: usize, tiled: bool)
    requires
        is_rgba(old(data)@, w as int, h as int),
        tiled ==> size > 0,
    ensures
        final(data)@ == box_filtered(old(data)@, w as int, h as int, size as int, tiled),
{
    let src = data.clone();
    let ghost d = src@;
    let n = data.len();
    let (int_r, int_g, int_b) = compute_integral_images(&src, w, h);
    let mut p: usize = 0;
    proof {
        assert(w * h * 4 == n);
    }
    while p < w * h
        invariant
            d == old(data)@,
            n == d.len(),
            is_rgba(d, w as int, h as int),
            tiled ==> size > 0,
            crate::integral::is_integral(int_r@, d, w as int, h as int, 0),
            crate::integral::is_integral(int_g@, d, w as int, h as int, 1),
            crate::integral::is_integral(int_b@, d, w as int, h as int, 2),
            p <= w * h,
            data@.len() == n,
            forall|i: int|
                0 <= i < n ==> #[trigger] data@[i] == if i < 4 * p {
                    filtered_byte(d, w as int, h as int, size as int, tiled, i)
                } else {
                    d[i]
                },
        decreases w * h - p,
    {
        proof {
            lemma_pixel_coords(p as int, w as int, h as int);
        }
        let x = p % w;
        let y = p / w;
        let win = window_of(w, h, size, tiled, x, y);
        let (x0, y0, x1, y1) = win;
        let sr = rect_sum(&int_r, Ghost(d), w, h, Ghost(0), x0, y0, x1, y1);
        let sg = rect_sum(&int_g, Ghost(d), w, h, Ghost(1), x0, y0, x1, y1);
        let sb = rect_sum(&int_b, Ghost(d), w, h, Ghost(2), x0, y0, x1, y1);
        let ghost a = (x1 + 1 - x0) * (y1 + 1 - y0);
        proof {
            assert(0 < a <= w * h) by (nonlinear_arith)
                requires
                    a == (x1 + 1 - x0) * (y1 + 1 - y0),
                    x0 <= x1 < w,
                    y0 <= y1 < h,
            ;
            assert(w * h <= n);
            crate::integral::lemma_box_sum_bounds(d, w as int, 0, x0 as int, y0 as int, x1 as int, y1 as int);
            crate::integral::lemma_box_sum_bounds(d, w as int, 1, x0 as int, y0 as int, x1 as int, y1 as int);
            crate::integral::lemma_box_sum_bounds(d, w as int, 2, x0 as int, y0 as int, x1 as int, y1 as int);
            lemma_mean_at_most(sr as int, a, 255);
            lemma_mean_at_most(sg as int, a, 255);
            lemma_mean_at_most(sb as int, a, 255);
        }
        let area = ((x1 - x0 + 1) * (y1 - y0 + 1)) as u128;
        let base = p * 4;
        data.set(base, (sr / area) as u8);
        data.set(base + 1, (sg / area) as u8);
        data.set(base + 2, (sb / area) as u8);
        proof {
            assert forall|i: int|
                0 <= i < n implies #[trigger] data@[i] == if i < 4 * (p + 1) {
                    filtered_byte(d, w as int, h as int, size as int, tiled, i)
                } else {
                    d[i]
                } by {
                if 4 * p <= i < 4 * p + 4 {
                    assert(i / 4 == p);
                    assert(i % 4 == i - 4 * p);
                }
            }
        }
        p = p + 1;
    }
    proof {
        assert(data@ =~= box_filtered(d, w as int, h as int, size as int, tiled));
    }
}

/// Box blur of radius `radius`: every colour byte becomes the mean of the
/// `(2r+1) x (2r+1)` window around its pixel, clamped to the image.
pub fn blur_image(data: &mut Vec<u8>, w: usize, h: usize, radius: usize)
    requires
        is_rgba(old(data)@, w as int, h as int),
    ensures
        final(data)@ == blurred(old(data)@, w as int, h as int, radius as int),
{
    if radius > 0 {
        box_filter(data, w, h, radius, false);
    }
}

/// Pixelation: every colour byte becomes the mean of its `block` x `block` tile.
pub fn pixelate_image(data: &mut Vec<u8>, w: usize, h: usize, block: usize)
    requires
        is_rgba(old(data)@, w as int, h as int),
    ensures
        final(data)@ == pixelated(old(data)@, w as int, h as int, block as int),
{
    if block > 1 {
        box_filter(data, w, h, block, true);
    }
}

/// Maps every colour byte through the 256-entry tone table.
pub fn apply_tone_table(data: &mut Vec<u8>, table: &Vec<u8>)
    requires
        table@.len() == 256,
    ensures
        final(data)@ == toned(old(data)@, table@),
{
    let ghost d = data@;
    let n = data.len();
    let mut i: usize = 0;
    while i < n
        invariant
            table@.len() == 256,
            n == d.len(),
            data@.len() == n,
            i <= n,
            forall|j: int|
                0 <= j < n ==> #[trigger] data@[j] == if j < i && j % 4 != 3 {
                    table@[d[j] as int]
                } else {
                    d[j]
                },
        decreases n - i,
    {
        if i % 4 != 3 {
            let v = data[i];
            data.set(i, table[v as usize]);
        }
        i = i + 1;
    }
    assert(data@ =~= toned(d, table@));
}

/// The tone table that changes nothing.
pub fn identity_tone_table() -> (table: Vec<u8>)
    ensures
        is_identity_table(table@),
{
    let mut table: Vec<u8> = Vec::new();
    let mut v: usize = 0;
    while v < 256
        invariant
            v <= 256,
            table@.len() == v,
            forall|u: int| 0 <= u < v ==> #[trigger] table@[u] == u,
        decreases 256 - v,
    {
        table.push(v as u8);
        v = v + 1;
    }
    table
}

/// Runs the pipeline in its fixed order: blur, pixelation, tone table.
pub fn apply_preprocessing(
    data: &mut Vec<u8>,
    width: u32,
    height: u32,
    table: &Vec<u8>,
    pixelation: u32,
    blur: u32,
)
    requires
        is_rgba(old(data)@, width as int, height as int),
        table@.len() == 256,
    ensures
        final(data)@ == preprocessed(
            old(data)@,
            width as int,
            height as int,
            table@,
            pixelation as int,
            blur as int,
        ),
{
    let w = width as usize;
    let h = height as usize;
    blur_image(data, w, h, blur as usize);
    pixelate_image(data, w, h, pixelation as usize);
    apply_tone_table(data, table);
}

/// With no blur, no pixelation and the identity tone table the pipeline
/// leaves every byte as it was.
pub proof fn lemma_neutral_preprocessing(
    d: Seq<u8>,
    w: int,
    h: int,
    table: Seq<u8>,
    pixelation: int,
    blur: int,
)
    requires
        is_rgba(d, w, h),
        is_identity_table(table),
        pixelation <= 1,
        blur == 0,
    ensures
        preprocessed(d, w, h, table, pixelation, blur) == d,
{
    assert(toned(d, table) =~= d);
}

} // verus!
