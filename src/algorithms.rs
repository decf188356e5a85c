//! The eight strategies, each preprocessing and then quantizing, and the
//! registry that picks one by name.
use vstd::prelude::*;
use vstd::string::StrSliceExecFns;
use crate::image::is_rgba;
use crate::preprocess::{apply_preprocessing, preprocessed};
use crate::diffusion::{
    atkinson_kernel, atkinson_taps, diffusion_result, error_diffusion_generic,
    floyd_steinberg_kernel, floyd_steinberg_taps, jarvis_kernel, jarvis_taps, sierra_kernel,
    sierra_lite_kernel, sierra_lite_taps, sierra_taps, sierra_two_row_kernel, sierra_two_row_taps,
};
use crate::ordered::{ordered_dither, ordered_result};
use crate::threshold::{threshold_pixels, threshold_result};

verus! {

/// The settings shared by every strategy. `tone_table` maps each colour
/// byte to its contrast- and gamma-corrected value (256 entries).
#[derive(Clone, Debug)]
pub struct DitherParams {
    pub threshold: u8,
    pub tone_table: Vec<u8>,
    pub pixelation: u32,
    pub blur: u32,
    pub block_scale: u32,
    pub bayer_width: u8,
    pub bayer_height: u8,
}

/// The strategies that a name can select.
#[derive(Clone, Copy, Debug, PartialEq, Eq)]
pub enum Algorithm {
    Threshold,
    FloydSteinberg,
    Bayer,
    Jarvis,
    Atkinson,
    Sierra,
    SierraTwoRow,
    SierraLite,
}

/// The strategy a name selects; any name not listed selects `Threshold`.
pub open spec fn algorithm_named(name: Seq<char>) -> Algorithm {
    if name == "floyd-steinberg"@ {
        Algorithm::FloydSteinberg
    } else if name == "bayer"@ {
        Algorithm::Bayer
    } else if name == "jarvis"@ {
        Algorithm::Jarvis
    } else if name == "atkinson"@ {
        Algorithm::Atkinson
    } else if name == "sierra"@ {
        Algorithm::Sierra
    } else if name == "sierra-two-row"@ {
        Algorithm::SierraTwoRow
    } else if name == "sierra-lite"@ {
        Algorithm::SierraLite
    } else {
        Algorithm::Threshold
    }
}

/// What a strategy makes of the buffer `d`: the preprocessing pipeline,
/// then its own quantization.
pub open spec fn algorithm_output(
    alg: Algorithm,
    d: Seq<u8>,
    w: int,
    h: int,
    params: DitherParams,
) -> Seq<u8> {
    let pre = preprocessed(d, w, h, params.tone_table@, params.pixelation as int, params.blur as int);
    let t = params.threshold as int;
    let bs = params.block_scale as int;
    match alg {
        Algorithm::Threshold => threshold_result(pre, t),
        Algorithm::FloydSteinberg => diffusion_result(pre, w, h, t, floyd_steinberg_taps(), 16, bs),
        Algorithm::Bayer => ordered_result(
            pre,
            w,
            h,
            bs,
            params.bayer_width as int,
            params.bayer_height as int,
        ),
        Algorithm::Jarvis => diffusion_result(pre, w, h, t, jarvis_taps(), 48, bs),
        Algorithm::Atkinson => diffusion_result(pre, w, h, t, atkinson_taps(), 8, bs),
        Algorithm::Sierra => diffusion_result(pre, w, h, t, sierra_taps(), 32, bs),
        Algorithm::SierraTwoRow => diffusion_result(pre, w, h, t, sierra_two_row_taps(), 16, bs),
        Algorithm::SierraLite => diffusion_result(pre, w, h, t, sierra_lite_taps(), 4, bs),
    }
}

/// One dithering strategy: transforms an RGBA buffer in place.
pub trait DitherAlgorithm {
    /// The buffer after `apply`, given the buffer before.
    spec fn output(&self, d: Seq<u8>, w: int, h: int, params: DitherParams) -> Seq<u8>;

    fn apply(&self, data: &mut Vec<u8>, width: u32, height: u32, params: &DitherParams)
        requires
            is_rgba(old(data)@, width as int, height as int),
            params.tone_table@.len() == 256,
        ensures
            final(data)@ == self.output(old(data)@, width as int, height as int, *params),
    ;
}

fn preprocess_with(data: &mut Vec<u8>, width: u32, height: u32, params: &DitherParams)
    requires
        is_rgba(old(data)@, width as int, height as int),
        params.tone_table@.len() == 256,
    ensures
        final(data)@ == preprocessed(
            old(data)@,
            width as int,
            height as int,
            params.tone_table@,
            params.pixelation as int,
            params.blur as int,
        ),
        is_rgba(final(data)@, width as int, height as int),
{
    apply_preprocessing(data, width, height, &params.tone_table, params.pixelation, params.blur);
}

/// Threshold: each pixel's luminance against the threshold.
pub struct ThresholdDither;

impl DitherAlgorithm for ThresholdDither {
    open spec fn output(&self, d: Seq<u8>, w: int, h: int, params: DitherParams) -> Seq<u8> {
        algorithm_output(Algorithm::Threshold, d, w, h, params)
    }

    fn apply(&self, data: &mut Vec<u8>, width: u32, height: u32, params: &DitherParams) {
        preprocess_with(data, width, height, params);
        proof {
            assert(data@.len() % 4 == 0) by (nonlinear_arith)
                requires
                    data@.len() == width * height * 4,
            ;
        }
        threshold_pixels(data, params.threshold);
    }
}

/// Floyd–Steinberg error diffusion.
pub struct FloydSteinbergDither;

impl DitherAlgorithm for FloydSteinbergDither {
    open spec fn output(&self, d: Seq<u8>, w: int, h: int, params: DitherParams) -> Seq<u8> {
        algorithm_output(Algorithm::FloydSteinberg, d, w, h, params)
    }

    fn apply(&self, data: &mut Vec<u8>, width: u32, height: u32, params: &DitherParams) {
        preprocess_with(data, width, height, params);
        let k = floyd_steinberg_kernel();
        error_diffusion_generic(data, width, height, params.threshold, &k, params.block_scale);
    }
}

/// Ordered dithering with a generated threshold matrix.
pub struct BayerDither;

impl DitherAlgorithm for BayerDither {
    open spec fn output(&self, d: Seq<u8>, w: int, h: int, params: DitherParams) -> Seq<u8> {
        algorithm_output(Algorithm::Bayer, d, w, h, params)
    }

    fn apply(&self, data: &mut Vec<u8>, width: u32, height: u32, params: &DitherParams) {
        preprocess_with(data, width, height, params);
        ordered_dither(
            data,
            width,
            height,
            params.block_scale,
            params.bayer_width,
            params.bayer_height,
        );
    }
}

/// Jarvis–Judice–Ninke error diffusion.
pub struct JarvisJudiceNinkeDither;

impl DitherAlgorithm for JarvisJudiceNinkeDither {
    open spec fn output(&self, d: Seq<u8>, w: int, h: int, params: DitherParams) -> Seq<u8> {
        algorithm_output(Algorithm::Jarvis, d, w, h, params)
    }

    fn apply(&self, data: &mut Vec<u8>, width: u32, height: u32, params: &DitherParams) {
        preprocess_with(data, width, height, params);
        let k = jarvis_kernel();
        error_diffusion_generic(data, width, height, params.threshold, &k, params.block_scale);
    }
}

/// Atkinson error diffusion.
pub struct AtkinsonDither;

impl DitherAlgorithm for AtkinsonDither {
    open spec fn output(&self, d: Seq<u8>, w: int, h: int, params: DitherParams) -> Seq<u8> {
        algorithm_output(Algorithm::Atkinson, d, w, h, params)
    }

    fn apply(&self, data: &mut Vec<u8>, width: u32, height: u32, params: &DitherParams) {
        preprocess_with(data, width, height, params);
        let k = atkinson_kernel();
        error_diffusion_generic(data, width, height, params.threshold, &k, params.block_scale);
    }
}

/// Sierra (three-row) error diffusion.
pub struct SierraDither;

impl DitherAlgorithm for SierraDither {
    open spec fn output(&self, d: Seq<u8>, w: int, h: int, params: DitherParams) -> Seq<u8> {
        algorithm_output(Algorithm::Sierra, d, w, h, params)
    }

    fn apply(&self, data: &mut Vec<u8>, width: u32, height: u32, params: &DitherParams) {
        preprocess_with(data, width, height, params);
        let k = sierra_kernel();
        error_diffusion_generic(data, width, height, params.threshold, &k, params.block_scale);
    }
}

/// Two-row Sierra error diffusion.
pub struct SierraTwoRowDither;

impl DitherAlgorithm for SierraTwoRowDither {
    open spec fn output(&self, d: Seq<u8>, w: int, h: int, params: DitherParams) -> Seq<u8> {
        algorithm_output(Algorithm::SierraTwoRow, d, w, h, params)
    }

    fn apply(&self, data: &mut Vec<u8>, width: u32, height: u32, params: &DitherParams) {
        preprocess_with(data, width, height, params);
        let k = sierra_two_row_kernel();
        error_diffusion_generic(data, width, height, params.threshold, &k, params.block_scale);
    }
}

/// Sierra Lite error diffusion.
pub struct SierraLiteDither;

impl DitherAlgorithm for SierraLiteDither {
    open spec fn output(&self, d: Seq<u8>, w: int, h: int, params: DitherParams) -> Seq<u8> {
        algorithm_output(Algorithm::SierraLite, d, w, h, params)
    }

    fn apply(&self, data: &mut Vec<u8>, width: u32, height: u32, params: &DitherParams) {
        preprocess_with(data, width, height, params);
        let k = sierra_lite_kernel();
        error_diffusion_generic(data, width, height, params.threshold, &k, params.block_scale);
    }
}

/// Whether two strings hold the same characters.
fn same_text(a: &str, b: &str) -> (r: bool)
    ensures
        r == (a@ == b@),
{
    let n = a.unicode_len();
    if n != b.unicode_len() {
        return false;
    }
    let mut i: usize = 0;
    while i < n
        invariant
            n == a@.len(),
            n == b@.len(),
            i <= n,
            forall|j: int| 0 <= j < i ==> a@[j] == b@[j],
        decreases n - i,
    {
        if a.get_char(i) != b.get_char(i) {
            return false;
        }
        i = i + 1;
    }
    assert(a@ =~= b@);
    true
}

impl Algorithm {
    /// Looks a strategy up by name, falling back to `Threshold`.
    pub fn from_name(name: &str) -> (r: Algorithm)
        ensures
            r == algorithm_named(name@),
    {
        if same_text(name, "floyd-steinberg") {
            Algorithm::FloydSteinberg
        } else if same_text(name, "bayer") {
            Algorithm::Bayer
        } else if same_text(name, "jarvis") {
            Algorithm::Jarvis
        } else if same_text(name, "atkinson") {
            Algorithm::Atkinson
        } else if same_text(name, "sierra") {
            Algorithm::Sierra
        } else if same_text(name, "sierra-two-row") {
            Algorithm::SierraTwoRow
        } else if same_text(name, "sierra-lite") {
            Algorithm::SierraLite
        } else {
            Algorithm::Threshold
        }
    }

    /// Runs the strategy on the buffer.
    pub fn apply(self, data: &mut Vec<u8>, width: u32, height: u32, params: &DitherParams)
        requires
            is_rgba(old(data)@, width as int, height as int),
            params.tone_table@.len() == 256,
        ensures
            final(data)@ == algorithm_output(self, old(data)@, width as int, height as int, *params),
    {
        match self {
            Algorithm::Threshold => ThresholdDither.apply(data, width, height, params),
            Algorithm::FloydSteinberg => FloydSteinbergDither.apply(data, width, height, params),
            Algorithm::Bayer => BayerDither.apply(data, width, height, params),
            Algorithm::Jarvis => JarvisJudiceNinkeDither.apply(data, width, height, params),
            Algorithm::Atkinson => AtkinsonDither.apply(data, width, height, params),
            Algorithm::Sierra => SierraDither.apply(data, width, height, params),
            Algorithm::SierraTwoRow => SierraTwoRowDither.apply(data, width, height, params),
            Algorithm::SierraLite => SierraLiteDither.apply(data, width, height, params),
        }
    }
}

} // verus!
