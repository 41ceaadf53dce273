use rasterops::pixel::{PixelBuffer, Rgba};

#[test]
fn filled_buffer_has_every_pixel_colored() {
    let c = Rgba::new(1, 2, 3, 4);
    let b = PixelBuffer::filled(3, 2, c).unwrap();
    assert_eq!(b.width, 3);
    assert_eq!(b.height, 2);
    assert_eq!(b.samples.len(), 24);
    for px in b.samples.chunks_exact(4) {
        assert_eq!(px, &[1, 2, 3, 4]);
    }
}

#[test]
fn from_samples_checks_the_length() {
    assert!(PixelBuffer::from_samples(2, 2, vec![0; 16]).is_some());
    assert!(PixelBuffer::from_samples(2, 2, vec![0; 15]).is_none());
    assert!(PixelBuffer::from_samples(2, 2, vec![0; 17]).is_none());
    assert!(PixelBuffer::from_samples(0, 5, Vec::new()).is_some());
}

#[test]
fn get_and_set_pixels() {
    let mut b = PixelBuffer::filled(2, 2, Rgba::new(0, 0, 0, 255)).unwrap();
    let c = Rgba::new(10, 20, 30, 40);
    b.set_px(1, 0, c);
    assert_eq!(b.get_px(1, 0), c);
    assert_eq!(b.get_px(0, 0), Rgba::new(0, 0, 0, 255));
    assert_eq!(b.get_sample(1, 0, 2), 30);
    b.set_sample(1, 0, 2, 31);
    assert_eq!(b.get_px(1, 0), Rgba::new(10, 20, 31, 40));
}

#[test]
fn clone_copies_the_samples() {
    let b = PixelBuffer::filled(2, 1, Rgba::new(5, 6, 7, 8)).unwrap();
    let c = b.clone();
    assert_eq!(c.width, b.width);
    assert_eq!(c.height, b.height);
    assert_eq!(c.samples, b.samples);
}
