use dither::algorithms::{Algorithm, DitherParams};
use dither::bayer::generate_bayer_matrix;
use dither::diffusion::{
    atkinson_kernel, floyd_steinberg_kernel, jarvis_kernel, sierra_kernel, sierra_lite_kernel,
    sierra_two_row_kernel, Kernel,
};
use dither::dither::{apply_dither, DitherError};
use dither::preprocess::{apply_preprocessing, identity_tone_table};

const ALL: [&str; 8] = [
    "threshold",
    "floyd-steinberg",
    "bayer",
    "jarvis",
    "atkinson",
    "sierra",
    "sierra-two-row",
    "sierra-lite",
];

fn params(threshold: u8) -> DitherParams {
    DitherParams {
        threshold,
        tone_table: identity_tone_table(),
        pixelation: 0,
        blur: 0,
        block_scale: 1,
        bayer_width: 4,
        bayer_height: 4,
    }
}

fn uniform(w: usize, h: usize, px: [u8; 4]) -> Vec<u8> {
    let mut v = Vec::new();
    for _ in 0..w * h {
        v.extend_from_slice(&px);
    }
    v
}

fn mixed_image(w: usize, h: usize) -> Vec<u8> {
    let mut v = Vec::new();
    for i in 0..w * h {
        let a = match i % 5 {
            0 => 0,
            1 => 128,
            2 => 254,
            _ => 255,
        };
        v.push((i * 37 % 256) as u8);
        v.push((i * 91 % 256) as u8);
        v.push((i * 13 % 256) as u8);
        v.push(a);
    }
    v
}

#[test]
fn white_square_stays_white_under_threshold() {
    let mut data = uniform(2, 2, [255, 255, 255, 255]);
    assert_eq!(apply_dither("threshold", &mut data, 2, 2, &params(128)), Ok(()));
    assert_eq!(data, uniform(2, 2, [255, 255, 255, 255]));
}

#[test]
fn transparent_pixel_passes_through_every_algorithm() {
    for name in ALL.iter().chain(["unknown"].iter()) {
        for bs in [1u32, 3] {
            let mut p = params(128);
            p.block_scale = bs;
            p.blur = 2;
            p.pixelation = 2;
            let mut data = vec![200, 10, 5, 0];
            assert_eq!(apply_dither(name, &mut data, 1, 1, &p), Ok(()));
            assert_eq!(data, vec![200, 10, 5, 0]);
        }
    }
}

#[test]
fn checkerboard_floyd_steinberg_golden() {
    let mut data = Vec::new();
    for y in 0..4 {
        for x in 0..4 {
            if (x + y) % 2 == 0 {
                data.extend_from_slice(&[0, 0, 0, 255]);
            } else {
                data.extend_from_slice(&[255, 255, 255, 255]);
            }
        }
    }
    let expected = data.clone();
    assert_eq!(apply_dither("floyd-steinberg", &mut data, 4, 4, &params(128)), Ok(()));
    assert_eq!(data, expected);
}

#[test]
fn mid_gray_bayer_is_half_white() {
    let mut data = uniform(8, 8, [128, 128, 128, 255]);
    assert_eq!(apply_dither("bayer", &mut data, 8, 8, &params(128)), Ok(()));
    let white = data.chunks(4).filter(|c| c[0] == 255).count();
    let black = data.chunks(4).filter(|c| c[0] == 0).count();
    assert_eq!(white, 32);
    assert_eq!(black, 32);
    for c in data.chunks(4) {
        assert_eq!(c[0], c[1]);
        assert_eq!(c[1], c[2]);
        assert_eq!(c[3], 255);
    }
}

#[test]
fn non_opaque_pixels_unchanged_for_all_algorithms() {
    let (w, h) = (7usize, 5usize);
    let orig = mixed_image(w, h);
    for name in ALL.iter() {
        for bs in [1u32, 2] {
            let mut p = params(100);
            p.block_scale = bs;
            p.blur = 1;
            p.bayer_width = 3;
            p.bayer_height = 2;
            let mut data = orig.clone();
            assert_eq!(apply_dither(name, &mut data, w as u32, h as u32, &p), Ok(()));
            for i in 0..w * h {
                if orig[4 * i + 3] != 255 {
                    assert_eq!(&data[4 * i..4 * i + 4], &orig[4 * i..4 * i + 4]);
                } else {
                    assert_eq!(data[4 * i + 3], 255);
                    assert!(data[4 * i] == 0 || data[4 * i] == 255);
                    assert_eq!(data[4 * i], data[4 * i + 1]);
                    assert_eq!(data[4 * i], data[4 * i + 2]);
                }
            }
        }
    }
}

#[test]
fn threshold_compares_luminance() {
    // 0.299 * 100 + 0.587 * 150 + 0.114 * 50 = 123.65
    let mut data = vec![100, 150, 50, 255, 100, 150, 50, 255];
    assert_eq!(apply_dither("threshold", &mut data, 2, 1, &params(124)), Ok(()));
    assert_eq!(data, vec![0, 0, 0, 255, 0, 0, 0, 255]);
    let mut data = vec![100, 150, 50, 255];
    assert_eq!(apply_dither("threshold", &mut data, 1, 1, &params(123)), Ok(()));
    assert_eq!(data, vec![255, 255, 255, 255]);
}

#[test]
fn bayer_matrix_is_a_permutation() {
    for (w, h) in [(1u8, 1u8), (2, 2), (4, 4), (3, 5), (7, 2), (17, 16)] {
        let m = generate_bayer_matrix(w, h);
        let n = w as usize * h as usize;
        assert_eq!(m.len(), n);
        let mut seen = vec![false; n];
        for &v in &m {
            assert!((v as usize) < n);
            assert!(!seen[v as usize]);
            seen[v as usize] = true;
        }
        assert_eq!(m[0], 0);
    }
}

#[test]
fn bayer_matrix_two_by_two() {
    assert_eq!(generate_bayer_matrix(2, 2), vec![0, 2, 3, 1]);
}

fn weight_sum(k: &Kernel) -> u32 {
    k.taps.iter().map(|t| t.weight as u32).sum()
}

#[test]
fn kernel_weights_sum_to_one() {
    for k in [
        floyd_steinberg_kernel(),
        jarvis_kernel(),
        sierra_kernel(),
        sierra_two_row_kernel(),
        sierra_lite_kernel(),
    ] {
        assert_eq!(weight_sum(&k), k.denominator as u32);
        let total: f64 = k.taps.iter().map(|t| t.weight as f64 / k.denominator as f64).sum();
        assert!((total - 1.0).abs() < 1e-9);
    }
    let a = atkinson_kernel();
    assert_eq!(a.taps.len(), 6);
    let total: f64 = a.taps.iter().map(|t| t.weight as f64 / a.denominator as f64).sum();
    assert!((total - 0.75).abs() < 1e-9);
}

#[test]
fn neutral_preprocessing_changes_nothing() {
    let orig = mixed_image(6, 4);
    let mut data = orig.clone();
    apply_preprocessing(&mut data, 6, 4, &identity_tone_table(), 1, 0);
    assert_eq!(data, orig);
    let mut data = orig.clone();
    apply_preprocessing(&mut data, 6, 4, &identity_tone_table(), 0, 0);
    assert_eq!(data, orig);
}

#[test]
fn repeated_runs_agree() {
    let orig = mixed_image(9, 6);
    for name in ALL.iter() {
        let mut p = params(90);
        p.blur = 1;
        let mut a = orig.clone();
        let mut b = orig.clone();
        apply_dither(name, &mut a, 9, 6, &p).unwrap();
        apply_dither(name, &mut b, 9, 6, &p).unwrap();
        assert_eq!(a, b);
    }
}

#[test]
fn wrong_buffer_length_is_rejected() {
    let mut data = vec![1, 2, 3, 4, 5, 6, 7];
    assert_eq!(
        apply_dither("threshold", &mut data, 2, 1, &params(128)),
        Err(DitherError::BufferSizeMismatch)
    );
    assert_eq!(data, vec![1, 2, 3, 4, 5, 6, 7]);
}

#[test]
fn short_tone_table_is_rejected() {
    let mut data = vec![1, 2, 3, 255];
    let mut p = params(128);
    p.tone_table = vec![0; 10];
    assert_eq!(apply_dither("threshold", &mut data, 1, 1, &p), Err(DitherError::ToneTableSize));
    assert_eq!(data, vec![1, 2, 3, 255]);
}

#[test]
fn unknown_name_behaves_as_threshold() {
    let orig = mixed_image(5, 5);
    let mut a = orig.clone();
    let mut b = orig.clone();
    apply_dither("threshold", &mut a, 5, 5, &params(120)).unwrap();
    apply_dither("no-such-algorithm", &mut b, 5, 5, &params(120)).unwrap();
    assert_eq!(a, b);
    assert_eq!(Algorithm::from_name("nope"), Algorithm::Threshold);
    assert_eq!(Algorithm::from_name("sierra-lite"), Algorithm::SierraLite);
    assert_eq!(Algorithm::from_name("jarvis"), Algorithm::Jarvis);
}

#[test]
fn blur_averages_clamped_window() {
    let mut data = vec![0, 0, 0, 255, 30, 30, 30, 255, 90, 90, 90, 255];
    apply_preprocessing(&mut data, 3, 1, &identity_tone_table(), 0, 1);
    assert_eq!(data, vec![15, 15, 15, 255, 40, 40, 40, 255, 60, 60, 60, 255]);
}

#[test]
fn pixelation_averages_tiles() {
    let mut data = vec![
        10, 0, 0, 255, 20, 0, 0, 255, 100, 0, 0, 255, //
        30, 0, 0, 255, 41, 0, 0, 255, 200, 0, 0, 7,
    ];
    apply_preprocessing(&mut data, 3, 2, &identity_tone_table(), 2, 0);
    assert_eq!(
        data,
        vec![25, 0, 0, 255, 25, 0, 0, 255, 150, 0, 0, 255, 25, 0, 0, 255, 25, 0, 0, 255, 150, 0, 0, 7]
    );
}

#[test]
fn tone_table_maps_colour_bytes_only() {
    let table: Vec<u8> = (0..256).map(|v| 255 - v as u8).collect();
    let mut data = vec![0, 10, 255, 40];
    apply_preprocessing(&mut data, 1, 1, &table, 0, 0);
    assert_eq!(data, vec![255, 245, 0, 40]);
}

#[test]
fn floyd_steinberg_pushes_error_right() {
    // 100 is below 128, its error of 100 sends 7/16 (43.75) to the right.
    let mut data = uniform(2, 1, [100, 100, 100, 255]);
    apply_dither("floyd-steinberg", &mut data, 2, 1, &params(128)).unwrap();
    assert_eq!(data, vec![0, 0, 0, 255, 255, 255, 255, 255]);
}

#[test]
fn atkinson_drops_part_of_the_error() {
    // Atkinson passes only 1/8 to the right: 100 + 12.5 stays below 128.
    let mut data = uniform(2, 1, [100, 100, 100, 255]);
    apply_dither("atkinson", &mut data, 2, 1, &params(128)).unwrap();
    assert_eq!(data, vec![0, 0, 0, 255, 0, 0, 0, 255]);
}

#[test]
fn block_scale_diffuses_over_cells() {
    let mut data = uniform(4, 2, [100, 100, 100, 255]);
    let mut p = params(128);
    p.block_scale = 2;
    apply_dither("floyd-steinberg", &mut data, 4, 2, &p).unwrap();
    let px: Vec<u8> = data.chunks(4).map(|c| c[0]).collect();
    assert_eq!(px, vec![0, 0, 255, 255, 0, 0, 255, 255]);
}

#[test]
fn premultiplied_transparent_neighbour_does_not_bleed() {
    // A transparent white pixel counts as black once premultiplied, so
    // the blurred opaque pixel stays dark.
    let mut data = vec![255, 255, 255, 0, 0, 0, 0, 255];
    let mut p = params(100);
    p.blur = 1;
    apply_dither("threshold", &mut data, 2, 1, &p).unwrap();
    assert_eq!(data, vec![255, 255, 255, 0, 0, 0, 0, 255]);
}

#[test]
fn half_transparent_pixel_restored() {
    let mut data = vec![10, 200, 30, 128, 250, 250, 250, 255];
    apply_dither("sierra", &mut data, 2, 1, &params(128)).unwrap();
    assert_eq!(data, vec![10, 200, 30, 128, 255, 255, 255, 255]);
}

#[test]
fn empty_image_is_accepted() {
    for name in ALL.iter() {
        let mut data: Vec<u8> = Vec::new();
        assert_eq!(apply_dither(name, &mut data, 0, 0, &params(128)), Ok(()));
        assert!(data.is_empty());
        let mut data: Vec<u8> = Vec::new();
        assert_eq!(apply_dither(name, &mut data, 5, 0, &params(128)), Ok(()));
    }
}

#[test]
fn zero_matrix_side_counts_as_one() {
    // A 1 x 1 matrix puts the threshold at 0.5 / 1 * 255 = 127.5.
    let mut p = params(0);
    p.bayer_width = 0;
    p.bayer_height = 0;
    let mut data = vec![127, 127, 127, 255, 128, 128, 128, 255];
    apply_dither("bayer", &mut data, 2, 1, &p).unwrap();
    assert_eq!(data, vec![0, 0, 0, 255, 255, 255, 255, 255]);
}

#[test]
fn bayer_per_pixel_thresholds() {
    // The 2 x 2 matrix is [0, 2; 3, 1]: thresholds 31.875, 159.375,
    // 223.125 and 95.625. Grey 100 clears ranks 0 and 1 only.
    let mut p = params(0);
    p.bayer_width = 2;
    p.bayer_height = 2;
    let mut data = uniform(2, 2, [100, 100, 100, 255]);
    apply_dither("bayer", &mut data, 2, 2, &p).unwrap();
    let px: Vec<u8> = data.chunks(4).map(|c| c[0]).collect();
    assert_eq!(px, vec![255, 0, 0, 255]);
}

#[test]
fn bayer_blocks_use_centre_position() {
    // With 2 x 2 blocks every block centre sits at (1, 1) modulo the matrix,
    // rank 1, threshold 95.625.
    let mut p = params(0);
    p.bayer_width = 2;
    p.bayer_height = 2;
    p.block_scale = 2;
    let mut data = uniform(4, 4, [100, 100, 100, 255]);
    apply_dither("bayer", &mut data, 4, 4, &p).unwrap();
    assert!(data.chunks(4).all(|c| c[0] == 255));
    let mut data = uniform(4, 4, [90, 90, 90, 255]);
    apply_dither("bayer", &mut data, 4, 4, &p).unwrap();
    assert!(data.chunks(4).all(|c| c[0] == 0));
}

#[test]
fn jarvis_reaches_two_columns_right() {
    // Row of three greys of 60: the first sends 7/48 and 5/48 of 60 right,
    // the second sends 7/48 of its 68.75 to the third.
    let mut data = uniform(3, 1, [60, 60, 60, 255]);
    apply_dither("jarvis", &mut data, 3, 1, &params(70)).unwrap();
    let px: Vec<u8> = data.chunks(4).map(|c| c[0]).collect();
    assert_eq!(px, vec![0, 0, 255]);
}
