//! The entry point: premultiply, run the selected strategy, un-premultiply,
//! and give every pixel that was not fully opaque its original bytes back.
use vstd::prelude::*;
use vstd::arithmetic::div_mod::lemma_fundamental_div_mod_converse;
use crate::image::{is_rgba, pixel_luma};
use crate::algorithms::{algorithm_named, algorithm_output, Algorithm, DitherParams};
use crate::preprocess::preprocessed;

verus! {

/// Why a buffer was rejected.
#[derive(Clone, Copy, Debug, PartialEq, Eq)]
pub enum DitherError {
    /// The buffer's length is not `width * height * 4`.
    BufferSizeMismatch,
    /// The tone table does not have 256 entries.
    ToneTableSize,
}

/// The alpha byte of the pixel that byte `i` belongs to.
pub open spec fn alpha_of(d: Seq<u8>, i: int) -> int {
    d[4 * (i / 4) + 3] as int
}

/// Every colour byte scaled by its pixel's alpha / 255, rounded to nearest.
pub open spec fn premultiplied(d: Seq<u8>) -> Seq<u8> {
    Seq::new(
        d.len(),
        |i: int|
            if i % 4 == 3 {
                d[i]
            } else {
                ((d[i] * alpha_of(d, i) + 127) / 255) as u8
            },
    )
}

/// Every colour byte of a pixel with alpha `a > 0` scaled by 255 / a,
/// rounded to nearest (halves up) and capped at 255.
pub open spec fn unpremultiplied(d: Seq<u8>) -> Seq<u8> {
    Seq::new(
        d.len(),
        |i: int|
            if i % 4 == 3 || alpha_of(d, i) == 0 {
                d[i]
            } else {
                let v = (d[i] * 510 + alpha_of(d, i)) / (2 * alpha_of(d, i));
                if v > 255 {
                    255u8
                } else {
                    v as u8
                }
            },
    )
}

/// `out`, except that every pixel whose alpha in `orig` is not 255 has its
/// bytes from `orig`.
pub open spec fn restored(out: Seq<u8>, orig: Seq<u8>) -> Seq<u8> {
    Seq::new(orig.len(), |i: int| if alpha_of(orig, i) != 255 { orig[i] } else { out[i] })
}

/// The buffer after a successful `apply_dither` with strategy `alg`.
pub open spec fn dither_output(alg: Algorithm, d: Seq<u8>, w: int, h: int, params: DitherParams) -> Seq<
    u8,
> {
    restored(unpremultiplied(algorithm_output(alg, premultiplied(d), w, h, params)), d)
}

fn premultiply(data: &mut Vec<u8>)
    requires
        old(data)@.len() % 4 == 0,
    ensures
        final(data)@ == premultiplied(old(data)@),
{
    let ghost d = data@;
    let n = data.len();
    let mut p: usize = 0;
    while p < n / 4
        invariant
            n == d.len(),
            n % 4 == 0,
            p <= n / 4,
            data@.len() == n,
            forall|i: int|
                0 <= i < n ==> #[trigger] data@[i] == if i < 4 * p {
                    premultiplied(d)[i]
                } else {
                    d[i]
                },
        decreases n / 4 - p,
    {
        let base = p * 4;
        let a = data[base + 3] as u32;
        proof {
            let (x0, x1, x2) = (data@[4 * p] as int, data@[4 * p + 1] as int, data@[4 * p + 2] as int);
            assert(x0 * a <= 255 * 255 && x1 * a <= 255 * 255 && x2 * a <= 255 * 255) by (nonlinear_arith)
                requires
                    0 <= x0 <= 255,
                    0 <= x1 <= 255,
                    0 <= x2 <= 255,
                    0 <= a <= 255,
            ;
            assert(d[4 * p] * a <= 255 * 255);
            assert(d[4 * p + 1] * a <= 255 * 255);
            assert(d[4 * p + 2] * a <= 255 * 255);
        }
        let r = (data[base] as u32 * a + 127) / 255;
        let g = (data[base + 1] as u32 * a + 127) / 255;
        let b = (data[base + 2] as u32 * a + 127) / 255;
        proof {
            assert(r <= 255 && g <= 255 && b <= 255) by (nonlinear_arith)
                requires
                    a <= 255,
                    r == (d[4 * p] * a + 127) / 255,
                    g == (d[4 * p + 1] * a + 127) / 255,
                    b == (d[4 * p + 2] * a + 127) / 255,
                    d[4 * p] <= 255,
                    d[4 * p + 1] <= 255,
                    d[4 * p + 2] <= 255,
            ;
        }
        data.set(base, r as u8);
        data.set(base + 1, g as u8);
        data.set(base + 2, b as u8);
        proof {
            assert forall|i: int|
                0 <= i < n implies #[trigger] data@[i] == if i < 4 * (p + 1) {
                    premultiplied(d)[i]
                } else {
                    d[i]
                } by {
                if 4 * p <= i < 4 * p + 4 {
                    assert(i / 4 == p);
                    assert(i % 4 == i - 4 * p);
                }
            }
        }
        p = p + 1;
    }
    proof {
        assert(data@ =~= premultiplied(d));
    }
}

fn unpremultiply_byte(v: u8, a: u8) -> (r: u8)
    requires
        a > 0,
    ensures
        r == ({
            let q = (v * 510 + a) / (2 * a);
            if q > 255 {
                255
            } else {
                q
            }
        }),
{
    let q = (v as u32 * 510 + a as u32) / (2 * a as u32);
    if q > 255 {
        255
    } else {
        q as u8
    }
}

fn unpremultiply(data: &mut Vec<u8>)
    requires
        old(data)@.len() % 4 == 0,
    ensures
        final(data)@ == unpremultiplied(old(data)@),
{
    let ghost d = data@;
    let n = data.len();
    let mut p: usize = 0;
    while p < n / 4
        invariant
            n == d.len(),
            n % 4 == 0,
            p <= n / 4,
            data@.len() == n,
            forall|i: int|
                0 <= i < n ==> #[trigger] data@[i] == if i < 4 * p {
                    unpremultiplied(d)[i]
                } else {
                    d[i]
                },
        decreases n / 4 - p,
    {
        let base = p * 4;
        let a = data[base + 3];
        if a > 0 {
            let r = unpremultiply_byte(data[base], a);
            let g = unpremultiply_byte(data[base + 1], a);
            let b = unpremultiply_byte(data[base + 2], a);
            data.set(base, r);
            data.set(base + 1, g);
            data.set(base + 2, b);
        }
        proof {
            assert forall|i: int|
                0 <= i < n implies #[trigger] data@[i] == if i < 4 * (p + 1) {
                    unpremultiplied(d)[i]
                } else {
                    d[i]
                } by {
                if 4 * p <= i < 4 * p + 4 {
                    assert(i / 4 == p);
                    assert(i % 4 == i - 4 * p);
                }
            }
        }
        p = p + 1;
    }
    proof {
        assert(data@ =~= unpremultiplied(d));
    }
}

fn restore_non_opaque(data: &mut Vec<u8>, backup: &Vec<u8>)
    requires
        old(data)@.len() == backup@.len(),
        backup@.len() % 4 == 0,
    ensures
        final(data)@ == restored(old(data)@, backup@),
{
    let ghost d = data@;
    let n = data.len();
    let mut i: usize = 0;
    while i < n
        invariant
            n == d.len(),
            n == backup@.len(),
            n % 4 == 0,
            i <= n,
            data@.len() == n,
            forall|j: int|
                0 <= j < n ==> #[trigger] data@[j] == if j < i {
                    restored(d, backup@)[j]
                } else {
                    d[j]
                },
        decreases n - i,
    {
        let alpha_at = i - i % 4 + 3;
        proof {
            assert(alpha_at == 4 * (i / 4) + 3);
        }
        if backup[alpha_at] != 255 {
            let v = backup[i];
            data.set(i, v);
        }
        i = i + 1;
    }
    proof {
        assert(data@ =~= restored(d, backup@));
    }
}

/// Dithers a straight-alpha RGBA buffer in place with the strategy that
/// `algorithm` names (unknown names select plain thresholding). Pixels that
/// are not fully opaque come out byte for byte as they went in. A buffer
/// whose length is not `width * height * 4`, or a tone table without 256
/// entries, is rejected before anything is changed.
pub fn apply_dither(
    algorithm: &str,
    data: &mut Vec<u8>,
    width: u32,
    height: u32,
    params: &DitherParams,
) -> (r: Result<(), DitherError>)
    ensures
        (r == Err::<(), DitherError>(DitherError::BufferSizeMismatch)) <==> old(data)@.len()
            != width * height * 4,
        (r == Err::<(), DitherError>(DitherError::ToneTableSize)) <==> (old(data)@.len() == width
            * height * 4 && params.tone_table@.len() != 256),
        r is Err ==> final(data)@ == old(data)@,
        r is Ok ==> final(data)@ == dither_output(
            algorithm_named(algorithm@),
            old(data)@,
            width as int,
            height as int,
            *params,
        ),
{
    assert(width * height <= 0xffff_ffff * 0xffff_ffff) by (nonlinear_arith)
        requires
            width <= 0xffff_ffff,
            height <= 0xffff_ffff,
    ;
    let expected = width as u128 * height as u128 * 4;
    if data.len() as u128 != expected {
        return Err(DitherError::BufferSizeMismatch);
    }
    if params.tone_table.len() != 256 {
        return Err(DitherError::ToneTableSize);
    }
    proof {
        assert(data@.len() % 4 == 0) by (nonlinear_arith)
            requires
                data@.len() == width * height * 4,
        ;
    }
    let backup = data.clone();
    premultiply(data);
    let alg = Algorithm::from_name(algorithm);
    alg.apply(data, width, height, params);
    unpremultiply(data);
    restore_non_opaque(data, &backup);
    Ok(())
}

/// Pixels that were not fully opaque come out of `apply_dither` exactly as
/// they went in, whatever the strategy and settings.
pub proof fn lemma_non_opaque_pixels_unchanged(
    alg: Algorithm,
    d: Seq<u8>,
    w: int,
    h: int,
    params: DitherParams,
)
    ensures
        dither_output(alg, d, w, h, params).len() == d.len(),
        forall|i: int|
            0 <= i < d.len() && alpha_of(d, i) != 255 ==> #[trigger] dither_output(
                alg,
                d,
                w,
                h,
                params,
            )[i] == d[i],
{
}

/// Under the threshold strategy every fully opaque pixel comes out grey
/// with R = G = B: 0 when its luminance after premultiplication and
/// preprocessing is below the threshold, 255 otherwise; its alpha stays 255.
pub proof fn lemma_threshold_opaque_pixels(d: Seq<u8>, w: int, h: int, params: DitherParams)
    requires
        is_rgba(d, w, h),
        params.tone_table@.len() == 256,
    ensures
        forall|q: int, c: int|
            0 <= q < w * h && d[4 * q + 3] == 255 && 0 <= c < 3 ==> #[trigger] dither_output(
                Algorithm::Threshold,
                d,
                w,
                h,
                params,
            )[4 * q + c] == if pixel_luma(
                preprocessed(
                    premultiplied(d),
                    w,
                    h,
                    params.tone_table@,
                    params.pixelation as int,
                    params.blur as int,
                ),
                q,
            ) < 1000 * params.threshold {
                0u8
            } else {
                255u8
            },
{
    let pm = premultiplied(d);
    let pre = preprocessed(pm, w, h, params.tone_table@, params.pixelation as int, params.blur as int);
    let out = algorithm_output(Algorithm::Threshold, pm, w, h, params);
    let un = unpremultiplied(out);
    assert forall|q: int, c: int|
        0 <= q < w * h && d[4 * q + 3] == 255 && 0 <= c < 3 implies #[trigger] dither_output(
            Algorithm::Threshold,
            d,
            w,
            h,
            params,
        )[4 * q + c] == if pixel_luma(pre, q) < 1000 * params.threshold {
            0u8
        } else {
            255u8
        } by {
        let i = 4 * q + c;
        assert(i / 4 == q);
        assert(i % 4 == c);
        assert((4 * q + 3) / 4 == q);
        assert((4 * q + 3) % 4 == 3);
        assert(4 * q + 3 < d.len());
        assert(pm[4 * q + 3] == 255);
        let bl = crate::preprocess::blurred(pm, w, h, params.blur as int);
        let px = crate::preprocess::pixelated(bl, w, h, params.pixelation as int);
        assert(bl[4 * q + 3] == 255);
        assert(px[4 * q + 3] == 255);
        assert(pre[4 * q + 3] == 255);
        assert(out[4 * q + 3] == 255);
        let v = out[i] as int;
        assert(v == 0 || v == 255);
        lemma_fundamental_div_mod_converse(v * 510 + 255, 510, v, 255);
        assert(un[i] == out[i]);
    }
}

/// `apply_dither` is a function of its inputs: the same strategy, settings
/// and buffer give the same bytes every time.
pub proof fn lemma_deterministic(
    name: Seq<char>,
    d1: Seq<u8>,
    d2: Seq<u8>,
    w: int,
    h: int,
    params1: DitherParams,
    params2: DitherParams,
)
    requires
        d1 == d2,
        params1 == params2,
    ensures
        dither_output(algorithm_named(name), d1, w, h, params1) == dither_output(
            algorithm_named(name),
            d2,
            w,
            h,
            params2,
        ),
{
}

} // verus!
