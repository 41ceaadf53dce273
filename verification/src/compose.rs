//! Disposal-aware compositing of frame sequences onto a persistent canvas.
//!
//! A frame is drawn onto the canvas at its offset with an alpha-aware
//! overlay, clipped to the canvas bounds. Before the next frame is drawn,
//! the disposal method of the frame just displayed decides how the canvas is
//! prepared: kept as shown, cleared to the background color over the frame's
//! region, or restored to the state from just before the frame was drawn.

use vstd::prelude::*;
use vstd::string::StringExecFns;

use crate::pixel::{lemma_point_of_flat_ch, lemma_raster_eq_by_px};
use crate::pixel::{ImageError, PixelBuffer, Raster, Rgba};

verus! {

/// The method used to dispose a frame before transitioning to the next frame
/// in an image sequence.
#[derive(Clone, Copy, PartialEq, Eq, Structural, Debug)]
pub enum DisposalMethod {
    /// Do not dispose the current frame: the next frame is drawn on top of it.
    Keep,
    /// Replace the region covered by the current frame with the background
    /// color before the next frame is drawn.
    Background,
    /// Restore the canvas to its state from just before the current frame was
    /// drawn.
    Previous,
}

impl DisposalMethod {
    /// The method's name as text.
    pub fn name(&self) -> (s: String)
        ensures
            s@ == match *self {
                DisposalMethod::Keep => "Keep"@,
                DisposalMethod::Background => "Background"@,
                DisposalMethod::Previous => "Previous"@,
            },
    {
        match *self {
            DisposalMethod::Keep => String::from_str("Keep"),
            DisposalMethod::Background => String::from_str("Background"),
            DisposalMethod::Previous => String::from_str("Previous"),
        }
    }
}

/// One frame of a sequence: its pixels, its offset on the canvas, how long it
/// is displayed, and how it is disposed of afterwards.
pub struct Frame {
    pub buffer: PixelBuffer,
    pub x: u32,
    pub y: u32,
    pub duration_ms: u32,
    pub disposal: DisposalMethod,
}

/// The mathematical value of a frame.
#[verifier::ext_equal]
pub struct FrameView {
    pub buffer: Raster,
    pub x: int,
    pub y: int,
    pub duration_ms: int,
    pub disposal: DisposalMethod,
}

impl View for Frame {
    type V = FrameView;

    open spec fn view(&self) -> FrameView {
        FrameView {
            buffer: self.buffer@,
            x: self.x as int,
            y: self.y as int,
            duration_ms: self.duration_ms as int,
            disposal: self.disposal,
        }
    }
}

/// Blend one channel of a source sample over a destination sample, with the
/// source's alpha, rounding to nearest.
pub open spec fn spec_blend_channel(s: u8, d: u8, a: u8) -> u8 {
    ((s * a + d * (255 - a) + 127) / 255) as u8
}

/// Source-over composition of one pixel: a fully opaque source replaces the
/// destination, a fully transparent one leaves it, anything between blends.
pub open spec fn spec_over(src: Rgba, dst: Rgba) -> Rgba {
    if src.a == 255 {
        src
    } else if src.a == 0 {
        dst
    } else {
        Rgba {
            r: spec_blend_channel(src.r, dst.r, src.a),
            g: spec_blend_channel(src.g, dst.g, src.a),
            b: spec_blend_channel(src.b, dst.b, src.a),
            a: spec_blend_channel(255, dst.a, src.a),
        }
    }
}

/// Does the frame cover canvas position `(x, y)`?
pub open spec fn frame_covers(f: FrameView, x: int, y: int) -> bool {
    f.x <= x < f.x + f.buffer.width && f.y <= y < f.y + f.buffer.height
}

/// The pixel at `(x, y)` after `f` is drawn on `c`.
pub open spec fn drawn_px(c: Raster, f: FrameView, x: int, y: int) -> Rgba {
    if frame_covers(f, x, y) {
        spec_over(f.buffer.px(x - f.x, y - f.y), c.px(x, y))
    } else {
        c.px(x, y)
    }
}

/// The canvas after `f` is drawn on `c`, clipped to the canvas bounds.
pub open spec fn draw(c: Raster, f: FrameView) -> Raster {
    Raster {
        width: c.width,
        height: c.height,
        samples: Seq::new(
            c.samples.len(),
            |k: int| drawn_px(c, f, (k / 4) % c.width, (k / 4) / c.width).spec_channel(k % 4),
        ),
    }
}

/// The pixel at `(x, y)` after the region covered by `f` is cleared to `bg`.
pub open spec fn cleared_px(c: Raster, f: FrameView, bg: Rgba, x: int, y: int) -> Rgba {
    if frame_covers(f, x, y) {
        bg
    } else {
        c.px(x, y)
    }
}

/// The canvas after the region covered by `f` is cleared to `bg`.
pub open spec fn clear_covered(c: Raster, f: FrameView, bg: Rgba) -> Raster {
    Raster {
        width: c.width,
        height: c.height,
        samples: Seq::new(
            c.samples.len(),
            |k: int| cleared_px(c, f, bg, (k / 4) % c.width, (k / 4) / c.width).spec_channel(k % 4),
        ),
    }
}

/// The canvas on which the frame after `f` will be drawn, per `f`'s disposal
/// method.
pub open spec fn step_next(c: Raster, f: FrameView, bg: Rgba) -> Raster {
    match f.disposal {
        DisposalMethod::Keep => draw(c, f),
        DisposalMethod::Background => clear_covered(draw(c, f), f, bg),
        DisposalMethod::Previous => c,
    }
}

/// `draw` keeps the dimensions and yields `drawn_px` at every position.
pub proof fn lemma_draw_px(c: Raster, f: FrameView)
    requires
        c.wf(),
    ensures
        draw(c, f).wf(),
        draw(c, f).width == c.width,
        draw(c, f).height == c.height,
        forall|x: int, y: int|
            c.in_bounds(x, y) ==> #[trigger] draw(c, f).px(x, y) == drawn_px(c, f, x, y),
{
    let d = draw(c, f);
    assert forall|x: int, y: int| c.in_bounds(x, y) implies #[trigger] d.px(x, y) == drawn_px(
        c,
        f,
        x,
        y,
    ) by {
        lemma_point_of_flat(c.width, c.height, x, y);
        assert(d.px(x, y).spec_channel(0) == drawn_px(c, f, x, y).spec_channel(0));
        assert(d.px(x, y).spec_channel(1) == drawn_px(c, f, x, y).spec_channel(1));
        assert(d.px(x, y).spec_channel(2) == drawn_px(c, f, x, y).spec_channel(2));
        assert(d.px(x, y).spec_channel(3) == drawn_px(c, f, x, y).spec_channel(3));
    }
}

/// `clear_covered` keeps the dimensions and yields `cleared_px` everywhere.
pub proof fn lemma_clear_px(c: Raster, f: FrameView, bg: Rgba)
    requires
        c.wf(),
    ensures
        clear_covered(c, f, bg).wf(),
        clear_covered(c, f, bg).width == c.width,
        clear_covered(c, f, bg).height == c.height,
        forall|x: int, y: int|
            c.in_bounds(x, y) ==> #[trigger] clear_covered(c, f, bg).px(x, y) == cleared_px(
                c,
                f,
                bg,
                x,
                y,
            ),
{
    let d = clear_covered(c, f, bg);
    assert forall|x: int, y: int| c.in_bounds(x, y) implies #[trigger] d.px(x, y) == cleared_px(
        c,
        f,
        bg,
        x,
        y,
    ) by {
        lemma_point_of_flat(c.width, c.height, x, y);
        assert(d.px(x, y).spec_channel(0) == cleared_px(c, f, bg, x, y).spec_channel(0));
        assert(d.px(x, y).spec_channel(1) == cleared_px(c, f, bg, x, y).spec_channel(1));
        assert(d.px(x, y).spec_channel(2) == cleared_px(c, f, bg, x, y).spec_channel(2));
        assert(d.px(x, y).spec_channel(3) == cleared_px(c, f, bg, x, y).spec_channel(3));
    }
}

/// Bounds used when blending: the weighted sum of two channel values stays
/// below 256 after division by 255.
proof fn lemma_blend_bound(s: int, d: int, a: int) by (nonlinear_arith)
    requires
        0 <= s <= 255,
        0 <= d <= 255,
        0 <= a <= 255,
    ensures
        0 <= s * a + d * (255 - a) + 127 <= 65152,
        0 <= (s * a + d * (255 - a) + 127) / 255 <= 255,
{
}

/// Blend one channel of `s` over `d` with alpha `a`.
pub fn blend_channel(s: u8, d: u8, a: u8) -> (v: u8)
    ensures
        v == spec_blend_channel(s, d, a),
{
    proof {
        lemma_blend_bound(s as int, d as int, a as int);
    }
    ((s as u32 * a as u32 + d as u32 * (255 - a as u32) + 127) / 255) as u8
}

/// Source-over composition of one pixel.
pub fn over_px(src: Rgba, dst: Rgba) -> (out: Rgba)
    ensures
        out == spec_over(src, dst),
{
    if src.a == 255 {
        src
    } else if src.a == 0 {
        dst
    } else {
        Rgba {
            r: blend_channel(src.r, dst.r, src.a),
            g: blend_channel(src.g, dst.g, src.a),
            b: blend_channel(src.b, dst.b, src.a),
            a: blend_channel(255, dst.a, src.a),
        }
    }
}

/// Draw `f` onto `canvas` at its offset, alpha-aware, clipped to the canvas.
pub fn draw_frame(canvas: &mut PixelBuffer, f: &Frame)
    requires
        old(canvas).wf(),
        f.buffer.wf(),
    ensures
        final(canvas).wf(),
        final(canvas).width == old(canvas).width,
        final(canvas).height == old(canvas).height,
        final(canvas)@ == draw(old(canvas)@, f@),
{
    let ghost c0 = old(canvas)@;
    let fw = f.buffer.width();
    let fh = f.buffer.height();
    let mut r: u32 = 0;
    while r < fh
        invariant
            canvas.wf(),
            canvas.width == old(canvas).width,
            canvas.height == old(canvas).height,
            c0 == old(canvas)@,
            f.buffer.wf(),
            fw == f.buffer.width,
            fh == f.buffer.height,
            r <= fh,
            forall|x: int, y: int|
                c0.in_bounds(x, y) ==> #[trigger] canvas@.px(x, y) == (
                if frame_covers(f@, x, y) && y < f@.y + r {
                    drawn_px(c0, f@, x, y)
                } else {
                    c0.px(x, y)
                }),
        decreases fh - r,
    {
        let ty_wide: u64 = f.y as u64 + r as u64;
        if ty_wide < canvas.height() as u64 {
            let ty: u32 = ty_wide as u32;
            let mut q: u32 = 0;
            while q < fw
                invariant
                    canvas.wf(),
                    canvas.width == old(canvas).width,
                    canvas.height == old(canvas).height,
                    c0 == old(canvas)@,
                    f.buffer.wf(),
                    fw == f.buffer.width,
                    fh == f.buffer.height,
                    r < fh,
                    ty == f@.y + r,
                    ty < canvas.height,
                    q <= fw,
                    forall|x: int, y: int|
                        c0.in_bounds(x, y) ==> #[trigger] canvas@.px(x, y) == (
                        if frame_covers(f@, x, y) && (y < f@.y + r || (y == f@.y + r && x < f@.x
                            + q)) {
                            drawn_px(c0, f@, x, y)
                        } else {
                            c0.px(x, y)
                        }),
                decreases fw - q,
            {
                let tx_wide: u64 = f.x as u64 + q as u64;
                if tx_wide < canvas.width() as u64 {
                    let tx: u32 = tx_wide as u32;
                    let src = f.buffer.get_px(q, r);
                    let dst = canvas.get_px(tx, ty);
                    let blended = over_px(src, dst);
                    let ghost pre = canvas@;
                    let ghost prebuf = *canvas;
                    canvas.set_px(tx, ty, blended);
                    proof {
                        assert(pre.px(tx as int, ty as int) == c0.px(tx as int, ty as int));
                        assert(canvas@.px(tx as int, ty as int) == drawn_px(
                            c0,
                            f@,
                            tx as int,
                            ty as int,
                        ));
                        assert forall|x: int, y: int|
                            c0.in_bounds(x, y) && !(x == tx && y == ty) implies canvas@.px(x, y)
                            == pre.px(x, y) by {
                            assert(canvas.sample_at(x, y, 0) == prebuf.sample_at(x, y, 0));
                            assert(canvas.sample_at(x, y, 1) == prebuf.sample_at(x, y, 1));
                            assert(canvas.sample_at(x, y, 2) == prebuf.sample_at(x, y, 2));
                            assert(canvas.sample_at(x, y, 3) == prebuf.sample_at(x, y, 3));
                            assert(canvas@.px(x, y) == pre.px(x, y));
                        }
                    }
                }
                q = q + 1;
            }
        }
        r = r + 1;
    }
    proof {
        lemma_draw_px(c0, f@);
        lemma_raster_eq_by_px(canvas@, draw(c0, f@));
    }
}

/// Fill the part of the canvas covered by `f` with `bg`, clipped to the
/// canvas.
pub fn clear_region(canvas: &mut PixelBuffer, f: &Frame, bg: Rgba)
    requires
        old(canvas).wf(),
    ensures
        final(canvas).wf(),
        final(canvas).width == old(canvas).width,
        final(canvas).height == old(canvas).height,
        final(canvas)@ == clear_covered(old(canvas)@, f@, bg),
{
    let ghost c0 = old(canvas)@;
    let fw = f.buffer.width();
    let fh = f.buffer.height();
    let mut r: u32 = 0;
    while r < fh
        invariant
            canvas.wf(),
            canvas.width == old(canvas).width,
            canvas.height == old(canvas).height,
            c0 == old(canvas)@,
            fw == f.buffer.width,
            fh == f.buffer.height,
            r <= fh,
            forall|x: int, y: int|
                c0.in_bounds(x, y) ==> #[trigger] canvas@.px(x, y) == (
                if frame_covers(f@, x, y) && y < f@.y + r {
                    bg
                } else {
                    c0.px(x, y)
                }),
        decreases fh - r,
    {
        let ty_wide: u64 = f.y as u64 + r as u64;
        if ty_wide < canvas.height() as u64 {
            let ty: u32 = ty_wide as u32;
            let mut q: u32 = 0;
            while q < fw
                invariant
                    canvas.wf(),
                    canvas.width == old(canvas).width,
                    canvas.height == old(canvas).height,
                    c0 == old(canvas)@,
                    fw == f.buffer.width,
                    fh == f.buffer.height,
                    r < fh,
                    ty == f@.y + r,
                    ty < canvas.height,
                    q <= fw,
                    forall|x: int, y: int|
                        c0.in_bounds(x, y) ==> #[trigger] canvas@.px(x, y) == (
                        if frame_covers(f@, x, y) && (y < f@.y + r || (y == f@.y + r && x < f@.x
                            + q)) {
                            bg
                        } else {
                            c0.px(x, y)
                        }),
                decreases fw - q,
            {
                let tx_wide: u64 = f.x as u64 + q as u64;
                if tx_wide < canvas.width() as u64 {
                    let tx: u32 = tx_wide as u32;
                    let ghost pre = canvas@;
                    let ghost prebuf = *canvas;
                    canvas.set_px(tx, ty, bg);
                    proof {
                        assert forall|x: int, y: int|
                            c0.in_bounds(x, y) && !(x == tx && y == ty) implies canvas@.px(x, y)
                            == pre.px(x, y) by {
                            assert(canvas.sample_at(x, y, 0) == prebuf.sample_at(x, y, 0));
                            assert(canvas.sample_at(x, y, 1) == prebuf.sample_at(x, y, 1));
                            assert(canvas.sample_at(x, y, 2) == prebuf.sample_at(x, y, 2));
                            assert(canvas.sample_at(x, y, 3) == prebuf.sample_at(x, y, 3));
                            assert(canvas@.px(x, y) == pre.px(x, y));
                        }
                    }
                }
                q = q + 1;
            }
        }
        r = r + 1;
    }
    proof {
        lemma_clear_px(c0, f@, bg);
        lemma_raster_eq_by_px(canvas@, clear_covered(c0, f@, bg));
    }
}

/// One compositor step: draw `f` on the canvas, return the shown image, then
/// prepare the canvas for the next frame per `f`'s disposal method.
pub fn composite_step(canvas: &mut PixelBuffer, f: &Frame, background: Rgba) -> (shown:
    PixelBuffer)
    requires
        old(canvas).wf(),
        f.buffer.wf(),
    ensures
        final(canvas).wf(),
        final(canvas).width == old(canvas).width,
        final(canvas).height == old(canvas).height,
        shown.wf(),
        shown@ == draw(old(canvas)@, f@),
        final(canvas)@ == step_next(old(canvas)@, f@, background),
{
    proof {
        lemma_draw_px(old(canvas)@, f@);
    }
    match f.disposal {
        DisposalMethod::Keep => {
            draw_frame(canvas, f);
            let shown = canvas.clone();
            proof {
                assert(shown@ =~= canvas@);
            }
            shown
        },
        DisposalMethod::Background => {
            draw_frame(canvas, f);
            let shown = canvas.clone();
            proof {
                assert(shown@ =~= canvas@);
            }
            clear_region(canvas, f, background);
            shown
        },
        DisposalMethod::Previous => {
            let snapshot = canvas.clone();
            proof {
                assert(snapshot@ =~= canvas@);
            }
            draw_frame(canvas, f);
            let shown = canvas.clone();
            proof {
                assert(shown@ =~= canvas@);
            }
            *canvas = snapshot;
            shown
        },
    }
}

/// After a `Keep` disposal, compositing a fully opaque frame that covers the
/// whole canvas shows exactly that frame's pixels: no earlier frame leaves
/// any trace.
pub proof fn lemma_keep_then_opaque_full_frame(c0: Raster, f1: FrameView, f2: FrameView, bg: Rgba)
    requires
        c0.wf(),
        f1.disposal == DisposalMethod::Keep,
        f2.x == 0,
        f2.y == 0,
        f2.buffer.width == c0.width,
        f2.buffer.height == c0.height,
        forall|x: int, y: int|
            f2.buffer.in_bounds(x, y) ==> (#[trigger] f2.buffer.px(x, y)).a == 255,
    ensures
        forall|x: int, y: int|
            c0.in_bounds(x, y) ==> #[trigger] draw(step_next(c0, f1, bg), f2).px(x, y)
                == f2.buffer.px(x, y),
{
    let c1 = step_next(c0, f1, bg);
    lemma_draw_px(c0, f1);
    lemma_clear_px(draw(c0, f1), f1, bg);
    assert(c1.wf());
    lemma_draw_px(c1, f2);
    assert forall|x: int, y: int| c0.in_bounds(x, y) implies #[trigger] draw(c1, f2).px(x, y)
        == f2.buffer.px(x, y) by {
        assert(frame_covers(f2, x, y));
        assert(f2.buffer.px(x, y).a == 255);
    }
}

/// A `Background` disposal clears exactly the region covered by the frame
/// just shown to the background color, and touches nothing outside it.
pub proof fn lemma_background_clears_exactly(c0: Raster, f: FrameView, bg: Rgba)
    requires
        c0.wf(),
        f.disposal == DisposalMethod::Background,
    ensures
        forall|x: int, y: int|
            c0.in_bounds(x, y) && frame_covers(f, x, y) ==> #[trigger] step_next(c0, f, bg).px(
                x,
                y,
            ) == bg,
        forall|x: int, y: int|
            c0.in_bounds(x, y) && !frame_covers(f, x, y) ==> #[trigger] step_next(c0, f, bg).px(
                x,
                y,
            ) == draw(c0, f).px(x, y),
{
    lemma_draw_px(c0, f);
    lemma_clear_px(draw(c0, f), f, bg);
}

/// Two consecutive `Previous` disposals: the second restoration reproduces
/// the canvas as it stood before the first of the two frames was drawn.
pub proof fn lemma_previous_twice(c0: Raster, f1: FrameView, f2: FrameView, bg: Rgba)
    requires
        f1.disposal == DisposalMethod::Previous,
        f2.disposal == DisposalMethod::Previous,
    ensures
        step_next(step_next(c0, f1, bg), f2, bg) == c0,
{
}

/// The canvas a sequence starts from: every pixel the background color.
pub open spec fn background_canvas(w: int, h: int, bg: Rgba) -> Raster {
    Raster { width: w, height: h, samples: PixelBuffer::filled_samples(w * h * 4, bg) }
}

/// The mathematical values of a sequence of frames.
pub open spec fn frame_views(s: Seq<Frame>) -> Seq<FrameView> {
    s.map_values(|f: Frame| f@)
}

/// The canvas after all of `frames` have been composited and disposed of,
/// starting from `init`.
pub open spec fn canvas_after(init: Raster, frames: Seq<FrameView>, bg: Rgba) -> Raster
    decreases frames.len(),
{
    if frames.len() == 0 {
        init
    } else {
        step_next(canvas_after(init, frames.drop_last(), bg), frames.last(), bg)
    }
}

/// The image displayed for frame `i` of the sequence.
pub open spec fn shown_at(init: Raster, frames: Seq<FrameView>, bg: Rgba, i: int) -> Raster {
    draw(canvas_after(init, frames.take(i), bg), frames[i])
}

/// Composite an ordered sequence of frames onto a fresh canvas of the given
/// size, initially filled with `background`; returns one fully resolved
/// canvas snapshot per frame, in input order. Fails exactly when a canvas
/// dimension is zero or the canvas would not fit in memory.
pub fn composite(
    frames: &Vec<Frame>,
    canvas_width: u32,
    canvas_height: u32,
    background: Rgba,
) -> (r: Result<Vec<PixelBuffer>, ImageError>)
    requires
        forall|i: int| 0 <= i < frames@.len() ==> (#[trigger] frames@[i]).buffer.wf(),
    ensures
        match r {
            Ok(outs) => {
                &&& canvas_width > 0
                &&& canvas_height > 0
                &&& canvas_width * canvas_height * 4 <= usize::MAX
                &&& outs@.len() == frames@.len()
                &&& forall|i: int|
                    0 <= i < outs@.len() ==> (#[trigger] outs@[i])@ == shown_at(
                        background_canvas(canvas_width as int, canvas_height as int, background),
                        frame_views(frames@),
                        background,
                        i,
                    )
            },
            Err(e) => {
                &&& e == ImageError::InvalidDimensions
                &&& (canvas_width == 0 || canvas_height == 0 || canvas_width * canvas_height * 4
                    > usize::MAX)
            },
        },
{
    if canvas_width == 0 || canvas_height == 0 {
        return Err(ImageError::InvalidDimensions);
    }
    let mut canvas = match PixelBuffer::filled(canvas_width, canvas_height, background) {
        Some(c) => c,
        None => { return Err(ImageError::InvalidDimensions); },
    };
    let ghost init = background_canvas(canvas_width as int, canvas_height as int, background);
    proof {
        assert(canvas@ == init);
    }
    let mut outs: Vec<PixelBuffer> = Vec::new();
    let mut i: usize = 0;
    while i < frames.len()
        invariant
            canvas.wf(),
            canvas.width == canvas_width,
            canvas.height == canvas_height,
            i <= frames@.len(),
            outs@.len() == i,
            forall|j: int| 0 <= j < frames@.len() ==> (#[trigger] frames@[j]).buffer.wf(),
            canvas@ == canvas_after(init, frame_views(frames@).take(i as int), background),
            forall|j: int|
                0 <= j < i ==> (#[trigger] outs@[j])@ == shown_at(
                    init,
                    frame_views(frames@),
                    background,
                    j,
                ),
        decreases frames@.len() - i,
    {
        let ghost pre = canvas@;
        let shown = composite_step(&mut canvas, &frames[i], background);
        outs.push(shown);
        proof {
            let fv = frame_views(frames@);
            assert(fv[i as int] == frames@[i as int]@);
            assert(fv.take(i + 1).drop_last() =~= fv.take(i as int));
            assert(fv.take(i + 1).last() == fv[i as int]);
            assert(canvas@ == canvas_after(init, fv.take(i + 1), background));
            assert(outs@[i as int]@ == draw(pre, frames@[i as int]@));
            assert(outs@[i as int]@ == shown_at(init, fv, background, i as int));
        }
        i = i + 1;
    }
    Ok(outs)
}

/// The four flat indices of an in-bounds point decompose back to the point.
proof fn lemma_point_of_flat(w: int, h: int, x: int, y: int)
    requires
        0 <= x < w,
        0 <= y < h,
    ensures
        0 <= (y * w + x) * 4 + 0 < w * h * 4,
        0 <= (y * w + x) * 4 + 3 < w * h * 4,
        forall|c: int|
            0 <= c < 4 ==> (((y * w + x) * 4 + c) / 4) % w == x && (((y * w + x) * 4 + c) / 4) / w
                == y && ((#[trigger] ((y * w + x) * 4 + c)) % 4) == c,
{
    assert forall|c: int|
        0 <= c < 4 implies (((y * w + x) * 4 + c) / 4) % w == x && (((y * w + x) * 4 + c) / 4) / w
        == y && ((#[trigger] ((y * w + x) * 4 + c)) % 4) == c by {
        lemma_point_of_flat_ch(w, h, x, y, c);
    }
    lemma_point_of_flat_ch(w, h, x, y, 0);
    lemma_point_of_flat_ch(w, h, x, y, 3);
}

} // verus!
