use rasterops::compose::{composite, composite_step, over_px, DisposalMethod, Frame};
use rasterops::pixel::{ImageError, PixelBuffer, Rgba};

const RED: Rgba = Rgba { r: 255, g: 0, b: 0, a: 255 };
const BLUE: Rgba = Rgba { r: 0, g: 0, b: 255, a: 255 };
const WHITE: Rgba = Rgba { r: 255, g: 255, b: 255, a: 255 };

fn solid(w: u32, h: u32, c: Rgba) -> PixelBuffer {
    PixelBuffer::filled(w, h, c).unwrap()
}

fn frame_at(buffer: PixelBuffer, x: u32, y: u32, disposal: DisposalMethod) -> Frame {
    Frame { buffer, x, y, duration_ms: 100, disposal }
}

fn assert_all(buf: &PixelBuffer, c: Rgba) {
    for px in buf.samples.chunks_exact(4) {
        assert_eq!(px, &[c.r, c.g, c.b, c.a]);
    }
}

#[test]
fn keep_then_full_opaque_frame_hides_history() {
    let mut canvas = solid(2, 2, WHITE);
    let a = frame_at(solid(1, 1, RED), 0, 0, DisposalMethod::Keep);
    let b = frame_at(solid(2, 2, BLUE), 0, 0, DisposalMethod::Keep);
    let _shown_a = composite_step(&mut canvas, &a, WHITE);
    let shown_b = composite_step(&mut canvas, &b, WHITE);
    assert_all(&shown_b, BLUE);
    assert_all(&canvas, BLUE);
}

#[test]
fn background_clears_exactly_the_frame_region() {
    let mut canvas = solid(3, 3, WHITE);
    let a = frame_at(solid(1, 1, RED), 1, 1, DisposalMethod::Background);
    let bg = Rgba::new(1, 2, 3, 4);
    let shown = composite_step(&mut canvas, &a, bg);
    // while displayed, the frame pixel is red and the rest untouched
    assert_eq!(shown.get_px(1, 1), RED);
    for y in 0..3 {
        for x in 0..3 {
            if (x, y) != (1, 1) {
                assert_eq!(shown.get_px(x, y), WHITE);
            }
        }
    }
    // after disposal, exactly the frame region is background colored
    assert_eq!(canvas.get_px(1, 1), bg);
    for y in 0..3 {
        for x in 0..3 {
            if (x, y) != (1, 1) {
                assert_eq!(canvas.get_px(x, y), WHITE);
            }
        }
    }
}

#[test]
fn previous_twice_restores_pre_first_state() {
    let initial = solid(2, 2, WHITE);
    let mut canvas = initial.clone();
    let f1 = frame_at(solid(2, 2, RED), 0, 0, DisposalMethod::Previous);
    let f2 = frame_at(solid(1, 1, BLUE), 1, 0, DisposalMethod::Previous);
    let shown1 = composite_step(&mut canvas, &f1, WHITE);
    assert_all(&shown1, RED);
    assert_eq!(canvas.samples, initial.samples);
    let shown2 = composite_step(&mut canvas, &f2, WHITE);
    assert_eq!(shown2.get_px(1, 0), BLUE);
    assert_eq!(canvas.samples, initial.samples);
}

#[test]
fn background_disposal_scenario_two_frames() {
    // a 2x2 canvas: frame A opaque red (disposal Background), then frame B
    // opaque blue; frame 2's output is entirely blue, and between the frames
    // the canvas is entirely the background color
    let bg = Rgba::new(7, 7, 7, 255);
    let mut canvas = solid(2, 2, bg);
    let a = frame_at(solid(2, 2, RED), 0, 0, DisposalMethod::Background);
    let b = frame_at(solid(2, 2, BLUE), 0, 0, DisposalMethod::Keep);
    let shown_a = composite_step(&mut canvas, &a, bg);
    assert_all(&shown_a, RED);
    assert_all(&canvas, bg);
    let shown_b = composite_step(&mut canvas, &b, bg);
    assert_all(&shown_b, BLUE);
    // the same run through the sequence compositor
    let frames = vec![
        frame_at(solid(2, 2, RED), 0, 0, DisposalMethod::Background),
        frame_at(solid(2, 2, BLUE), 0, 0, DisposalMethod::Keep),
    ];
    let outs = composite(&frames, 2, 2, bg).unwrap();
    assert_eq!(outs.len(), 2);
    assert_all(&outs[0], RED);
    assert_all(&outs[1], BLUE);
}

#[test]
fn frames_are_clipped_to_the_canvas() {
    let mut canvas = solid(2, 2, WHITE);
    let a = frame_at(solid(2, 2, RED), 1, 1, DisposalMethod::Keep);
    let shown = composite_step(&mut canvas, &a, WHITE);
    assert_eq!(shown.get_px(1, 1), RED);
    assert_eq!(shown.get_px(0, 0), WHITE);
    assert_eq!(shown.get_px(1, 0), WHITE);
    assert_eq!(shown.get_px(0, 1), WHITE);
}

#[test]
fn transparent_pixels_leave_canvas_untouched() {
    let mut canvas = solid(1, 1, WHITE);
    let clear = frame_at(solid(1, 1, Rgba::new(9, 9, 9, 0)), 0, 0, DisposalMethod::Keep);
    let shown = composite_step(&mut canvas, &clear, WHITE);
    assert_eq!(shown.get_px(0, 0), WHITE);
}

#[test]
fn over_px_blends_exactly() {
    // opaque replaces
    assert_eq!(over_px(RED, WHITE), RED);
    // transparent keeps
    assert_eq!(over_px(Rgba::new(1, 2, 3, 0), WHITE), WHITE);
    // half-transparent black over opaque white:
    // each color channel: (0*128 + 255*127 + 127) / 255 = 127
    // alpha: (255*128 + 255*127 + 127) / 255 = 255
    let half_black = Rgba::new(0, 0, 0, 128);
    let blended = over_px(half_black, WHITE);
    assert_eq!(blended, Rgba::new(127, 127, 127, 255));
}

#[test]
fn composite_rejects_zero_canvas() {
    let frames: Vec<Frame> = Vec::new();
    assert!(matches!(
        composite(&frames, 0, 2, WHITE),
        Err(ImageError::InvalidDimensions)
    ));
    assert!(matches!(
        composite(&frames, 2, 0, WHITE),
        Err(ImageError::InvalidDimensions)
    ));
    let ok = composite(&frames, 2, 2, WHITE).unwrap();
    assert_eq!(ok.len(), 0);
}

#[test]
fn disposal_method_names() {
    assert_eq!(DisposalMethod::Keep.name(), "Keep");
    assert_eq!(DisposalMethod::Background.name(), "Background");
    assert_eq!(DisposalMethod::Previous.name(), "Previous");
}
