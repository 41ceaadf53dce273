//! RGBA8 pixel values and row-major pixel buffers.

use vstd::prelude::*;

verus! {

/// Errors surfaced by the engines.
#[derive(Clone, Copy, PartialEq, Eq, Structural, Debug)]
pub enum ImageError {
    /// A requested dimension was zero, or the buffer it implies does not fit
    /// in memory.
    InvalidDimensions,
}

/// One RGBA8 pixel: four 8-bit channels.
#[derive(Clone, Copy, PartialEq, Eq, Structural, Debug)]
pub struct Rgba {
    pub r: u8,
    pub g: u8,
    pub b: u8,
    pub a: u8,
}

impl Rgba {
    /// Channel by index: 0 red, 1 green, 2 blue, 3 alpha.
    pub open spec fn spec_channel(self, c: int) -> u8 {
        if c == 0 {
            self.r
        } else if c == 1 {
            self.g
        } else if c == 2 {
            self.b
        } else {
            self.a
        }
    }

    pub fn channel(self, c: u32) -> (v: u8)
        requires
            c < 4,
        ensures
            v == self.spec_channel(c as int),
    {
        if c == 0 {
            self.r
        } else if c == 1 {
            self.g
        } else if c == 2 {
            self.b
        } else {
            self.a
        }
    }

    pub fn new(r: u8, g: u8, b: u8, a: u8) -> (p: Rgba)
        ensures
            p == (Rgba { r, g, b, a }),
    {
        Rgba { r, g, b, a }
    }
}

/// The mathematical value of a pixel buffer: its dimensions and the flat
/// sequence of samples, with four samples per pixel in row-major order.
#[verifier::ext_equal]
pub struct Raster {
    pub width: int,
    pub height: int,
    pub samples: Seq<u8>,
}

impl Raster {
    pub open spec fn wf(self) -> bool {
        &&& self.samples.len() == self.width * self.height * 4
        &&& 0 <= self.width <= u32::MAX
        &&& 0 <= self.height <= u32::MAX
    }

    pub open spec fn sample_at(self, x: int, y: int, c: int) -> u8 {
        self.samples[(y * self.width + x) * 4 + c]
    }

    pub open spec fn px(self, x: int, y: int) -> Rgba {
        Rgba {
            r: self.sample_at(x, y, 0),
            g: self.sample_at(x, y, 1),
            b: self.sample_at(x, y, 2),
            a: self.sample_at(x, y, 3),
        }
    }

    pub open spec fn in_bounds(self, x: int, y: int) -> bool {
        0 <= x < self.width && 0 <= y < self.height
    }
}

/// Two rasters with the same dimensions and the same pixels are equal.
pub proof fn lemma_raster_eq_by_px(a: Raster, b: Raster)
    requires
        a.wf(),
        b.wf(),
        a.width == b.width,
        a.height == b.height,
        forall|x: int, y: int| a.in_bounds(x, y) ==> #[trigger] a.px(x, y) == b.px(x, y),
    ensures
        a == b,
{
    assert forall|k: int| 0 <= k < a.samples.len() implies a.samples[k] == b.samples[k] by {
        assert(1 <= a.width && 1 <= a.height) by (nonlinear_arith)
            requires
                0 <= a.width,
                0 <= a.height,
                0 < a.width * a.height * 4,
        ;
        lemma_flat_decompose(a.width, a.height, k);
        let x = (k / 4) % a.width;
        let y = (k / 4) / a.width;
        assert(a.px(x, y) == b.px(x, y));
        assert(a.px(x, y).spec_channel(k % 4) == b.px(x, y).spec_channel(k % 4));
    }
    assert(a.samples =~= b.samples);
    assert(a =~= b);
}

/// A flat sample index splits into pixel coordinates and a channel.
pub proof fn lemma_flat_decompose(w: int, h: int, k: int)
    requires
        1 <= w,
        0 <= k < w * h * 4,
    ensures
        0 <= k % 4 < 4,
        0 <= (k / 4) % w < w,
        0 <= (k / 4) / w < h,
        ((k / 4) / w * w + (k / 4) % w) * 4 + k % 4 == k,
{
    vstd::arithmetic::div_mod::lemma_fundamental_div_mod(k, 4);
    vstd::arithmetic::div_mod::lemma_mod_bound(k, 4);
    vstd::arithmetic::div_mod::lemma_div_pos_is_pos(k, 4);
    let p = k / 4;
    vstd::arithmetic::div_mod::lemma_fundamental_div_mod(p, w);
    vstd::arithmetic::div_mod::lemma_mod_bound(p, w);
    vstd::arithmetic::div_mod::lemma_div_pos_is_pos(p, w);
    assert(4 * p <= k < 4 * (w * h));
    assert(p < w * h);
    let y = p / w;
    assert(w * y <= p);
    assert(y < h) by (nonlinear_arith)
        requires
            1 <= w,
            w * y <= p,
            p < w * h,
    ;
    assert((y * w + p % w) * 4 + k % 4 == k) by (nonlinear_arith)
        requires
            k == 4 * p + k % 4,
            p == w * y + p % w,
    ;
}

/// The flat index of channel `c` at an in-bounds point decomposes back to
/// the point and the channel.
pub proof fn lemma_point_of_flat_ch(w: int, h: int, x: int, y: int, c: int)
    requires
        0 <= x < w,
        0 <= y < h,
        0 <= c < 4,
    ensures
        0 <= (y * w + x) * 4 + c < w * h * 4,
        (((y * w + x) * 4 + c) / 4) % w == x,
        (((y * w + x) * 4 + c) / 4) / w == y,
        ((y * w + x) * 4 + c) % 4 == c,
{
    lemma_sample_index_bound(w, h, x, y, c);
    let p = y * w + x;
    let k = p * 4 + c;
    vstd::arithmetic::div_mod::lemma_fundamental_div_mod_converse(k, 4, p, c);
    vstd::arithmetic::div_mod::lemma_fundamental_div_mod_converse(p, w, y, x);
}

/// A row-major RGBA8 raster. The sample for channel `c` of the pixel at
/// `(x, y)` sits at index `(y * width + x) * 4 + c`.
pub struct PixelBuffer {
    pub width: u32,
    pub height: u32,
    pub samples: Vec<u8>,
}

impl PixelBuffer {
    /// The structural invariant: exactly four samples per pixel.
    pub open spec fn wf(self) -> bool {
        self.samples.len() == self.width * self.height * 4
    }

    pub open spec fn sidx(self, x: int, y: int, c: int) -> int {
        (y * self.width + x) * 4 + c
    }

    pub open spec fn sample_at(self, x: int, y: int, c: int) -> u8 {
        self.samples@[self.sidx(x, y, c)]
    }

    pub open spec fn px(self, x: int, y: int) -> Rgba {
        Rgba {
            r: self.sample_at(x, y, 0),
            g: self.sample_at(x, y, 1),
            b: self.sample_at(x, y, 2),
            a: self.sample_at(x, y, 3),
        }
    }

    pub open spec fn in_bounds(self, x: int, y: int) -> bool {
        0 <= x < self.width && 0 <= y < self.height
    }

    /// Two buffers agree on dimensions and on every sample.
    pub open spec fn same_image(self, other: PixelBuffer) -> bool {
        self.width == other.width && self.height == other.height && self.samples@ == other.samples@
    }

    pub fn width(&self) -> (w: u32)
        ensures
            w == self.width,
    {
        self.width
    }

    pub fn height(&self) -> (h: u32)
        ensures
            h == self.height,
    {
        self.height
    }

    fn sample_index(&self, x: u32, y: u32, c: u32) -> (i: usize)
        requires
            self.wf(),
            self.in_bounds(x as int, y as int),
            c < 4,
        ensures
            i == self.sidx(x as int, y as int, c as int),
            i < self.samples.len(),
    {
        proof {
            lemma_sample_index_bound(
                self.width as int,
                self.height as int,
                x as int,
                y as int,
                c as int,
            );
        }
        ((y as usize) * (self.width as usize) + (x as usize)) * 4 + (c as usize)
    }

    pub fn get_sample(&self, x: u32, y: u32, c: u32) -> (v: u8)
        requires
            self.wf(),
            self.in_bounds(x as int, y as int),
            c < 4,
        ensures
            v == self.sample_at(x as int, y as int, c as int),
    {
        let i: usize = self.sample_index(x, y, c);
        self.samples[i]
    }

    pub fn set_sample(&mut self, x: u32, y: u32, c: u32, v: u8)
        requires
            old(self).wf(),
            old(self).in_bounds(x as int, y as int),
            c < 4,
        ensures
            final(self).wf(),
            final(self).width == old(self).width,
            final(self).height == old(self).height,
            final(self).samples@ == old(self).samples@.update(
                old(self).sidx(x as int, y as int, c as int),
                v,
            ),
    {
        let i: usize = self.sample_index(x, y, c);
        self.samples[i] = v;
    }

    pub fn get_px(&self, x: u32, y: u32) -> (p: Rgba)
        requires
            self.wf(),
            self.in_bounds(x as int, y as int),
        ensures
            p == self.px(x as int, y as int),
    {
        Rgba {
            r: self.get_sample(x, y, 0),
            g: self.get_sample(x, y, 1),
            b: self.get_sample(x, y, 2),
            a: self.get_sample(x, y, 3),
        }
    }

    pub fn set_px(&mut self, x: u32, y: u32, p: Rgba)
        requires
            old(self).wf(),
            old(self).in_bounds(x as int, y as int),
        ensures
            final(self).wf(),
            final(self).width == old(self).width,
            final(self).height == old(self).height,
            final(self).px(x as int, y as int) == p,
            forall|xx: int, yy: int, cc: int|
                final(self).in_bounds(xx, yy) && 0 <= cc < 4 && !(xx == x && yy == y)
                    ==> final(self).sample_at(xx, yy, cc) == old(self).sample_at(xx, yy, cc),
    {
        self.set_sample(x, y, 0, p.r);
        self.set_sample(x, y, 1, p.g);
        self.set_sample(x, y, 2, p.b);
        self.set_sample(x, y, 3, p.a);
        proof {
            let w = old(self).width as int;
            let h = old(self).height as int;
            lemma_sample_index_bound(w, h, x as int, y as int, 0);
            lemma_sample_index_bound(w, h, x as int, y as int, 1);
            lemma_sample_index_bound(w, h, x as int, y as int, 2);
            lemma_sample_index_bound(w, h, x as int, y as int, 3);
            assert(self.px(x as int, y as int) == p);
            assert forall|xx: int, yy: int, cc: int|
                self.in_bounds(xx, yy) && 0 <= cc < 4 && !(xx == x && yy == y)
                    implies self.sample_at(xx, yy, cc) == old(self).sample_at(xx, yy, cc) by {
                lemma_sample_index_bound(w, h, xx, yy, cc);
                lemma_sample_index_injective(w, x as int, y as int, 0, xx, yy, cc);
                lemma_sample_index_injective(w, x as int, y as int, 1, xx, yy, cc);
                lemma_sample_index_injective(w, x as int, y as int, 2, xx, yy, cc);
                lemma_sample_index_injective(w, x as int, y as int, 3, xx, yy, cc);
            }
        }
    }

    /// The sequence a buffer of `n_samples` samples holds after being filled
    /// with `color`, channel after channel.
    pub open spec fn filled_samples(n_samples: int, color: Rgba) -> Seq<u8> {
        Seq::new(n_samples as nat, |k: int| color.spec_channel(k % 4))
    }

    /// A `width` by `height` buffer with every pixel equal to `color`.
    /// Fails exactly when the sample count overflows `usize`.
    pub fn filled(width: u32, height: u32, color: Rgba) -> (r: Option<PixelBuffer>)
        ensures
            match r {
                Some(b) => {
                    &&& b.wf()
                    &&& b.width == width
                    &&& b.height == height
                    &&& b.samples@ == Self::filled_samples(width * height * 4, color)
                    &&& forall|x: int, y: int|
                        b.in_bounds(x, y) ==> #[trigger] b.px(x, y) == color
                },
                None => width * height * 4 > usize::MAX,
            },
    {
        proof {
            lemma_dims_product_fits(width as int, height as int);
        }
        let total_wide: u128 = width as u128 * height as u128 * 4;
        if total_wide > usize::MAX as u128 {
            return None;
        }
        let total: usize = total_wide as usize;
        let mut samples: Vec<u8> = Vec::new();
        let mut k: usize = 0;
        while k < total
            invariant
                k <= total,
                samples@.len() == k,
                forall|j: int| 0 <= j < k ==> samples@[j] == color.spec_channel(j % 4),
            decreases total - k,
        {
            samples.push(color.channel((k % 4) as u32));
            k = k + 1;
        }
        let b = PixelBuffer { width, height, samples };
        proof {
            assert(b.samples@ =~= Self::filled_samples(width * height * 4, color));
            assert forall|x: int, y: int| b.in_bounds(x, y) implies #[trigger] b.px(x, y)
                == color by {
                lemma_sample_index_bound(width as int, height as int, x, y, 0);
                assert((y * width + x) * 4 % 4 == 0) by (nonlinear_arith);
                assert(b.px(x, y) == color);
            }
        }
        Some(b)
    }

    /// Wrap an existing sample vector; succeeds exactly when the length
    /// matches the dimensions.
    pub fn from_samples(width: u32, height: u32, samples: Vec<u8>) -> (r: Option<PixelBuffer>)
        ensures
            match r {
                Some(b) => {
                    &&& b.wf()
                    &&& b.width == width
                    &&& b.height == height
                    &&& b.samples@ == samples@
                },
                None => samples@.len() != width * height * 4,
            },
    {
        proof {
            lemma_dims_product_fits(width as int, height as int);
        }
        let expected: u128 = width as u128 * height as u128 * 4;
        if samples.len() as u128 == expected {
            Some(PixelBuffer { width, height, samples })
        } else {
            None
        }
    }
}

impl View for PixelBuffer {
    type V = Raster;

    open spec fn view(&self) -> Raster {
        Raster { width: self.width as int, height: self.height as int, samples: self.samples@ }
    }
}

impl Clone for PixelBuffer {
    fn clone(&self) -> (r: Self)
        ensures
            r.same_image(*self),
    {
        PixelBuffer { width: self.width, height: self.height, samples: copy_bytes(&self.samples) }
    }
}

fn copy_bytes(v: &Vec<u8>) -> (r: Vec<u8>)
    ensures
        r@ == v@,
{
    let mut r: Vec<u8> = Vec::new();
    let mut i: usize = 0;
    while i < v.len()
        invariant
            i <= v@.len(),
            r@ =~= v@.subrange(0, i as int),
        decreases v@.len() - i,
    {
        r.push(v[i]);
        i = i + 1;
    }
    proof {
        assert(r@ =~= v@);
    }
    r
}

/// The sample count of a buffer with `u32` dimensions fits in 66 bits.
pub proof fn lemma_dims_product_fits(w: int, h: int) by (nonlinear_arith)
    requires
        0 <= w < 0x1_0000_0000,
        0 <= h < 0x1_0000_0000,
    ensures
        0 <= w * h * 4 <= 0x3_FFFF_FFFF_FFFF_FFFC,
        0 <= w * h <= 0xFFFF_FFFF_FFFF_FFFF,
{
}

/// Sample indices of in-bounds coordinates stay inside the buffer.
pub proof fn lemma_sample_index_bound(w: int, h: int, x: int, y: int, c: int) by (nonlinear_arith)
    requires
        0 <= x < w,
        0 <= y < h,
        0 <= c < 4,
    ensures
        0 <= y * w + x < w * h,
        0 <= (y * w + x) * 4 + c < w * h * 4,
{
}

/// Distinct in-bounds coordinates never share a sample index.
pub proof fn lemma_sample_index_injective(
    w: int,
    x1: int,
    y1: int,
    c1: int,
    x2: int,
    y2: int,
    c2: int,
) by (nonlinear_arith)
    requires
        0 <= x1 < w,
        0 <= x2 < w,
        0 <= y1,
        0 <= y2,
        0 <= c1 < 4,
        0 <= c2 < 4,
        !(x1 == x2 && y1 == y2 && c1 == c2),
    ensures
        (y1 * w + x1) * 4 + c1 != (y2 * w + x2) * 4 + c2,
{
}

} // verus!
