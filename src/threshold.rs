//! The plain threshold strategy: no diffusion, every pixel on its own.
use vstd::prelude::*;
use crate::image::pixel_luma;

verus! {

/// Every pixel's colour bytes become 0 when its luminance is below
/// `threshold`, 255 otherwise; alpha bytes are kept.
pub open spec fn threshold_result(d: Seq<u8>, threshold: int) -> Seq<u8> {
    Seq::new(
        d.len(),
        |i: int|
            if i % 4 == 3 {
                d[i]
            } else if pixel_luma(d, i / 4) < 1000 * threshold {
                0u8
            } else {
                255u8
            },
    )
}

/// Compares each pixel's luminance with `threshold`.
pub fn threshold_pixels(data: &mut Vec<u8>, threshold: u8)
    requires
        old(data)@.len() % 4 == 0,
    ensures
        final(data)@ == threshold_result(old(data)@, threshold as int),
{
    let ghost d = data@;
    let n = data.len();
    let mut p: usize = 0;
    while p < n / 4
        invariant
            n == d.len(),
            n % 4 == 0,
            p <= n / 4,
            data@.len() == n,
            forall|i: int|
                0 <= i < n ==> #[trigger] data@[i] == if i < 4 * p && i % 4 != 3 {
                    threshold_result(d, threshold as int)[i]
                } else {
                    d[i]
                },
        decreases n / 4 - p,
    {
        let base = p * 4;
        let l = 299 * (data[base] as u32) + 587 * (data[base + 1] as u32) + 114 * (data[base + 2] as u32);
        let v: u8 = if l < 1000 * (threshold as u32) {
            0
        } else {
            255
        };
        proof {
            assert(pixel_luma(d, p as int) == l);
        }
        data.set(base, v);
        data.set(base + 1, v);
        data.set(base + 2, v);
        proof {
            assert forall|i: int|
                0 <= i < n implies #[trigger] data@[i] == if i < 4 * (p + 1) && i % 4 != 3 {
                    threshold_result(d, threshold as int)[i]
                } else {
                    d[i]
                } by {
                if 4 * p <= i < 4 * p + 4 {
                    assert(i / 4 == p);
                    assert(i % 4 == i - 4 * p);
                }
            }
        }
        p = p + 1;
    }
    proof {
        assert(data@ =~= threshold_result(d, threshold as int));
    }
}

} // verus!
