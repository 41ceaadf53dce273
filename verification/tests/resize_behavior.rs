use rasterops::kernel::ResizeAlgorithm;
use rasterops::pixel::{ImageError, PixelBuffer, Rgba};
use rasterops::resize::resize;

fn algos() -> Vec<ResizeAlgorithm> {
    vec![
        ResizeAlgorithm::Nearest,
        ResizeAlgorithm::Box,
        ResizeAlgorithm::Bilinear,
        ResizeAlgorithm::Hamming,
        ResizeAlgorithm::Bicubic,
        ResizeAlgorithm::Mitchell,
        ResizeAlgorithm::Lanczos3,
    ]
}

fn gray(vals: &[u8], w: u32, h: u32) -> PixelBuffer {
    let mut s: Vec<u8> = Vec::new();
    for &v in vals {
        s.extend_from_slice(&[v, v, v, 255]);
    }
    PixelBuffer::from_samples(w, h, s).unwrap()
}

#[test]
fn zero_dimensions_are_invalid() {
    let b = PixelBuffer::filled(2, 2, Rgba::new(0, 0, 0, 255)).unwrap();
    assert!(matches!(
        resize(&b, 0, 2, ResizeAlgorithm::Nearest),
        Err(ImageError::InvalidDimensions)
    ));
    assert!(matches!(
        resize(&b, 2, 0, ResizeAlgorithm::Lanczos3),
        Err(ImageError::InvalidDimensions)
    ));
    let empty = PixelBuffer::from_samples(0, 3, Vec::new()).unwrap();
    assert!(matches!(
        resize(&empty, 2, 2, ResizeAlgorithm::Bilinear),
        Err(ImageError::InvalidDimensions)
    ));
}

#[test]
fn output_dimensions_match_target() {
    let b = gray(&[1, 2, 3, 4, 5, 6], 3, 2);
    for algo in algos() {
        let r = resize(&b, 7, 5, algo).unwrap();
        assert_eq!(r.width, 7);
        assert_eq!(r.height, 5);
        assert_eq!(r.samples.len(), 7 * 5 * 4);
    }
}

#[test]
fn identity_resize_is_exact_for_interpolating_kernels() {
    let b = gray(&[10, 20, 30, 40, 50, 60], 3, 2);
    for algo in [
        ResizeAlgorithm::Nearest,
        ResizeAlgorithm::Box,
        ResizeAlgorithm::Bilinear,
        ResizeAlgorithm::Hamming,
        ResizeAlgorithm::Bicubic,
        ResizeAlgorithm::Lanczos3,
    ] {
        let r = resize(&b, 3, 2, algo).unwrap();
        assert_eq!(r.samples, b.samples, "identity failed for {:?}", algo);
    }
}

#[test]
fn identity_resize_of_mitchell_stays_close() {
    // Mitchell-Netravali is not an interpolating kernel: same-size resampling
    // blurs slightly, but every channel stays within a small tolerance.
    let b = gray(&[10, 20, 30, 40, 50, 60], 3, 2);
    let r = resize(&b, 3, 2, ResizeAlgorithm::Mitchell).unwrap();
    for (got, want) in r.samples.iter().zip(b.samples.iter()) {
        assert!((*got as i32 - *want as i32).abs() <= 4);
    }
}

#[test]
fn constant_image_is_preserved_by_every_algorithm() {
    // The divisor of every output pixel is the exact sum of the applied
    // weights, so the normalized weights sum to one and constants survive.
    let c = Rgba::new(9, 18, 27, 200);
    let b = PixelBuffer::filled(4, 3, c).unwrap();
    for algo in algos() {
        for (tw, th) in [(4u32, 3u32), (8, 6), (2, 2), (5, 7), (1, 1)] {
            let r = resize(&b, tw, th, algo).unwrap();
            for px in r.samples.chunks_exact(4) {
                assert_eq!(px, &[9, 18, 27, 200], "constant not kept by {:?}", algo);
            }
        }
    }
}

#[test]
fn nearest_round_trip_is_exact() {
    let b = gray(&[1, 2, 3, 4], 2, 2);
    let up = resize(&b, 4, 4, ResizeAlgorithm::Nearest).unwrap();
    let back = resize(&up, 2, 2, ResizeAlgorithm::Nearest).unwrap();
    assert_eq!(back.samples, b.samples);
    let up3 = resize(&b, 6, 6, ResizeAlgorithm::Nearest).unwrap();
    let back3 = resize(&up3, 2, 2, ResizeAlgorithm::Nearest).unwrap();
    assert_eq!(back3.samples, b.samples);
}

#[test]
fn nearest_upscale_replicates_pixels() {
    let b = gray(&[1, 2, 3, 4], 2, 2);
    let up = resize(&b, 4, 4, ResizeAlgorithm::Nearest).unwrap();
    let expected = gray(
        &[1, 1, 2, 2, 1, 1, 2, 2, 3, 3, 4, 4, 3, 3, 4, 4],
        4,
        4,
    );
    assert_eq!(up.samples, expected.samples);
}

#[test]
fn box_downscale_averages_blocks() {
    let mut vals: Vec<u8> = Vec::new();
    for y in 0..4 {
        for x in 0..4 {
            let v = match (x < 2, y < 2) {
                (true, true) => 10,
                (false, true) => 20,
                (true, false) => 30,
                (false, false) => 40,
            };
            vals.push(v);
        }
    }
    let b = gray(&vals, 4, 4);
    let down = resize(&b, 2, 2, ResizeAlgorithm::Box).unwrap();
    let expected = gray(&[10, 20, 30, 40], 2, 2);
    assert_eq!(down.samples, expected.samples);
}

#[test]
fn negative_lobe_kernels_stay_in_range() {
    // A harsh checkerboard provokes overshoot in cubic and sinc kernels; the
    // engine clamps, so every sample remains a valid channel value and the
    // call never fails.
    let mut vals: Vec<u8> = Vec::new();
    for y in 0..8 {
        for x in 0..8 {
            vals.push(if (x + y) % 2 == 0 { 0 } else { 255 });
        }
    }
    let b = gray(&vals, 8, 8);
    for algo in [
        ResizeAlgorithm::Bicubic,
        ResizeAlgorithm::Mitchell,
        ResizeAlgorithm::Lanczos3,
    ] {
        let r = resize(&b, 3, 5, algo).unwrap();
        assert_eq!(r.samples.len(), 3 * 5 * 4);
        let r2 = resize(&b, 16, 16, algo).unwrap();
        assert_eq!(r2.samples.len(), 16 * 16 * 4);
    }
}
