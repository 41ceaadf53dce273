use rasterops::kernel::{weight, ResizeAlgorithm};

fn algos() -> Vec<ResizeAlgorithm> {
    vec![
        ResizeAlgorithm::Nearest,
        ResizeAlgorithm::Box,
        ResizeAlgorithm::Bilinear,
        ResizeAlgorithm::Hamming,
        ResizeAlgorithm::Bicubic,
        ResizeAlgorithm::Mitchell,
        ResizeAlgorithm::Lanczos3,
    ]
}

fn radius_x2(algo: ResizeAlgorithm) -> i64 {
    match algo {
        ResizeAlgorithm::Nearest | ResizeAlgorithm::Box => 1,
        ResizeAlgorithm::Bilinear | ResizeAlgorithm::Hamming => 2,
        ResizeAlgorithm::Bicubic | ResizeAlgorithm::Mitchell => 4,
        ResizeAlgorithm::Lanczos3 => 6,
    }
}

#[test]
fn weight_is_symmetric() {
    for algo in algos() {
        for x in [0i64, 1, 17, 100, 1365, 2048, 2049, 4095, 4096, 8000, 12288, 16000] {
            assert_eq!(weight(algo, x), weight(algo, -x));
        }
    }
}

#[test]
fn weight_vanishes_outside_support() {
    for algo in algos() {
        let edge: i64 = radius_x2(algo) * 2048;
        for x in [edge + 1, edge + 100, edge + 4096, 20000] {
            assert_eq!(weight(algo, x), 0);
            assert_eq!(weight(algo, -x), 0);
        }
    }
}

#[test]
fn weight_is_one_at_center_for_interpolating_kernels() {
    for algo in [
        ResizeAlgorithm::Nearest,
        ResizeAlgorithm::Box,
        ResizeAlgorithm::Bilinear,
        ResizeAlgorithm::Hamming,
        ResizeAlgorithm::Bicubic,
        ResizeAlgorithm::Lanczos3,
    ] {
        assert_eq!(weight(algo, 0), 4096);
    }
    // Mitchell-Netravali is not interpolating: 16/18 of one at the center.
    assert_eq!(weight(ResizeAlgorithm::Mitchell, 0), 3640);
}

#[test]
fn weight_exact_values() {
    // box/nearest: one inside half a pixel, zero beyond
    assert_eq!(weight(ResizeAlgorithm::Nearest, 2048), 4096);
    assert_eq!(weight(ResizeAlgorithm::Nearest, 2049), 0);
    // bilinear: a tent
    assert_eq!(weight(ResizeAlgorithm::Bilinear, 1024), 3072);
    assert_eq!(weight(ResizeAlgorithm::Bilinear, 4096), 0);
    // cubic kernels vanish at whole-pixel offsets (Catmull-Rom) and the
    // support edge
    assert_eq!(weight(ResizeAlgorithm::Bicubic, 4096), 0);
    assert_eq!(weight(ResizeAlgorithm::Bicubic, 8192), 0);
    // Mitchell at one pixel: 1/18 in fixed point, truncated
    assert_eq!(weight(ResizeAlgorithm::Mitchell, 4096), 227);
    // windowed sincs vanish at whole-pixel offsets
    assert_eq!(weight(ResizeAlgorithm::Hamming, 4096), 0);
    assert_eq!(weight(ResizeAlgorithm::Lanczos3, 4096), 0);
    assert_eq!(weight(ResizeAlgorithm::Lanczos3, 8192), 0);
    assert_eq!(weight(ResizeAlgorithm::Lanczos3, 12288), 0);
}

#[test]
fn weight_stays_bounded() {
    for algo in algos() {
        for x in -20000i64..=20000 {
            let w = weight(algo, x);
            assert!(-8192 <= w && w <= 8192);
        }
    }
}
