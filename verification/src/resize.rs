//! Separable resampling of RGBA8 buffers: a horizontal pass to the target
//! width, then a vertical pass to the target height.
//!
//! For an axis resampled from `n` to `m` samples, output cell `o` has its
//! source-space center at `c = ((2 o + 1) n - m) / (2 m)`, and the filter
//! support is widened by the scale factor when downscaling: source samples
//! within `radius * max(1, n / m)` of the center are gathered, each weighted
//! by the kernel at the scaled offset, and the weighted sum is normalized by
//! the exact sum of the applied weights. The normalized value is clamped to
//! the channel range. Out-of-range windows are clamped to the edge samples.
//! All geometry is exact integer arithmetic over numerators with denominator
//! `2 m`; kernel offsets use the kernel's fixed-point scale of 4096.

use vstd::prelude::*;

use crate::kernel::{lemma_mul_le, spec_iabs, spec_sin_pi, spec_sinc, weight, weight_fp};
use crate::kernel::ResizeAlgorithm;
use crate::pixel::{lemma_flat_decompose, lemma_point_of_flat_ch, lemma_raster_eq_by_px};
use crate::pixel::{lemma_sample_index_injective, ImageError};
use crate::pixel::{PixelBuffer, Raster};

verus! {

pub open spec fn smax(a: int, b: int) -> int {
    if a >= b {
        a
    } else {
        b
    }
}

/// Index of the source sample nearest to the center of output cell `o` when
/// resampling a line of `n` samples to `m` samples.
pub open spec fn nearest_src(n: int, m: int, o: int) -> int {
    ((2 * o + 1) * n) / (2 * m)
}

/// The nearest source index is always a valid index.
pub proof fn lemma_nearest_src_bounds(n: int, m: int, o: int)
    requires
        1 <= n,
        1 <= m,
        0 <= o < m,
    ensures
        0 <= nearest_src(n, m, o) < n,
{
    let x = (2 * o + 1) * n;
    let d = 2 * m;
    assert(0 < x <= d * n - n) by (nonlinear_arith)
        requires
            1 <= n,
            1 <= m,
            0 <= o < m,
            x == (2 * o + 1) * n,
            d == 2 * m,
    ;
    vstd::arithmetic::div_mod::lemma_div_pos_is_pos(x, d);
    vstd::arithmetic::div_mod::lemma_fundamental_div_mod(x, d);
    let q = x / d;
    assert(d * q <= x);
    assert(q < n) by (nonlinear_arith)
        requires
            d * q <= x,
            x <= d * n - n,
            1 <= n,
            2 <= d,
    ;
}

/// Fixed-point offset `(i - c) / max(1, n / m)` of source index `i` from the
/// center of output cell `o`, rounded to nearest, symmetric about the
/// center.
pub open spec fn x_offset(n: int, m: int, o: int, i: int) -> int {
    let t = 2 * i * m + m - (2 * o + 1) * n;
    let mx = smax(n, m);
    if t >= 0 {
        (t * 4096 + mx) / (2 * mx)
    } else {
        -(((-t) * 4096 + mx) / (2 * mx))
    }
}

/// The kernel weight applied to source sample `i` for output cell `o`.
pub open spec fn wt_at(algo: ResizeAlgorithm, n: int, m: int, o: int, i: int) -> int {
    weight_fp(algo, x_offset(n, m, o, i))
}

/// First source index within the widened support of output cell `o`.
pub open spec fn win_lo(n: int, m: int, o: int, rx2: int) -> int {
    let a = (2 * o + 1) * n - m - rx2 * smax(n, m);
    if a <= 0 {
        0
    } else {
        (a + 2 * m - 1) / (2 * m)
    }
}

/// Last source index within the widened support of output cell `o`.
pub open spec fn win_hi(n: int, m: int, o: int, rx2: int) -> int {
    let b = (2 * o + 1) * n - m + rx2 * smax(n, m);
    let q = b / (2 * m);
    if q >= n - 1 {
        n - 1
    } else {
        q
    }
}

/// Sum of the kernel weights over `cnt` source samples starting at `lo`.
pub open spec fn wsum(algo: ResizeAlgorithm, n: int, m: int, o: int, lo: int, cnt: nat) -> int
    decreases cnt,
{
    if cnt == 0 {
        0
    } else {
        wsum(algo, n, m, o, lo, (cnt - 1) as nat) + wt_at(algo, n, m, o, lo + cnt - 1)
    }
}

/// Weighted sum of the line's samples over `cnt` source samples starting at
/// `lo`.
pub open spec fn vsum(
    algo: ResizeAlgorithm,
    line: Seq<u8>,
    n: int,
    m: int,
    o: int,
    lo: int,
    cnt: nat,
) -> int
    decreases cnt,
{
    if cnt == 0 {
        0
    } else {
        vsum(algo, line, n, m, o, lo, (cnt - 1) as nat) + wt_at(algo, n, m, o, lo + cnt - 1)
            * line[lo + cnt - 1]
    }
}

/// One output sample of a line of `line.len()` samples resampled to `m`
/// samples: either direct point sampling, or the normalized, clamped,
/// rounded weighted sum over the support window. A window whose weights do
/// not sum to a positive value falls back to the nearest sample.
pub open spec fn axis_sample(algo: ResizeAlgorithm, line: Seq<u8>, m: int, o: int) -> u8 {
    let n = line.len() as int;
    if algo.spec_point_samples(n, m) {
        line[nearest_src(n, m, o)]
    } else {
        let rx2 = algo.spec_radius_x2();
        let lo = win_lo(n, m, o, rx2);
        let hi = win_hi(n, m, o, rx2);
        let cnt = if hi >= lo {
            (hi - lo + 1) as nat
        } else {
            0
        };
        let ws = wsum(algo, n, m, o, lo, cnt);
        if ws <= 0 {
            line[nearest_src(n, m, o)]
        } else {
            let acc = vsum(algo, line, n, m, o, lo, cnt);
            let top = 255 * ws;
            let cl = if acc < 0 {
                0
            } else if acc > top {
                top
            } else {
                acc
            };
            ((cl + ws / 2) / ws) as u8
        }
    }
}

/// Indices inside the support window are valid, their offsets lie within
/// the widened radius, and the fixed-point offset handed to the kernel is
/// bounded by three pixels.
pub proof fn lemma_window(n: int, m: int, o: int, rx2: int, i: int)
    requires
        1 <= n,
        1 <= m,
        0 <= o < m,
        1 <= rx2 <= 6,
        win_lo(n, m, o, rx2) <= i <= win_hi(n, m, o, rx2),
    ensures
        0 <= i < n,
        spec_iabs(2 * i * m + m - (2 * o + 1) * n) <= rx2 * smax(n, m),
        spec_iabs(x_offset(n, m, o, i)) <= 12288,
{
    let mx = smax(n, m);
    let rad = rx2 * mx;
    let cpos = (2 * o + 1) * n;
    let a = cpos - m - rad;
    let b = cpos - m + rad;
    let d = 2 * m;
    let lo = win_lo(n, m, o, rx2);
    let hi = win_hi(n, m, o, rx2);
    let t = 2 * i * m + m - cpos;
    assert(1 <= mx && m <= mx && n <= mx);
    assert(mx <= rad) by (nonlinear_arith)
        requires
            1 <= rx2,
            1 <= mx,
            rad == rx2 * mx,
    ;
    // window indices are valid source indices
    if a > 0 {
        vstd::arithmetic::div_mod::lemma_div_pos_is_pos(a + d - 1, d);
    }
    assert(0 <= lo);
    assert(hi <= n - 1);
    // upper side: 2 m i <= b
    assert(n <= cpos) by (nonlinear_arith)
        requires
            0 <= o,
            1 <= n,
            cpos == (2 * o + 1) * n,
    ;
    let q = b / d;
    assert(0 < b);
    vstd::arithmetic::div_mod::lemma_fundamental_div_mod(b, d);
    vstd::arithmetic::div_mod::lemma_mod_bound(b, d);
    assert(d * q <= b);
    assert(i <= q);
    assert(d * i <= d * q && d * i == 2 * i * m) by (nonlinear_arith)
        requires
            i <= q,
            2 <= d,
            d == 2 * m,
    ;
    assert(t <= rad);
    // lower side: 2 m i >= a
    if a <= 0 {
        assert(0 <= 2 * i * m) by (nonlinear_arith)
            requires
                0 <= i,
                1 <= m,
        ;
        assert(t >= -rad);
    } else {
        vstd::arithmetic::div_mod::lemma_fundamental_div_mod(a + d - 1, d);
        vstd::arithmetic::div_mod::lemma_mod_bound(a + d - 1, d);
        assert(d * lo >= a);
        assert(d * i >= d * lo && d * i == 2 * i * m) by (nonlinear_arith)
            requires
                lo <= i,
                2 <= d,
                d == 2 * m,
        ;
        assert(t >= -rad);
    }
    assert(spec_iabs(t) <= rad);
    // the fixed-point offset is at most three pixels
    let tm = spec_iabs(t);
    let xm = (tm * 4096 + mx) / (2 * mx);
    assert(tm * 4096 + mx <= 24577 * mx) by (nonlinear_arith)
        requires
            tm <= rad,
            rad == rx2 * mx,
            rx2 <= 6,
            1 <= mx,
    ;
    vstd::arithmetic::div_mod::lemma_div_is_ordered(tm * 4096 + mx, 24577 * mx, 2 * mx);
    assert(24577 * mx == (2 * mx) * 12288 + mx) by (nonlinear_arith);
    vstd::arithmetic::div_mod::lemma_fundamental_div_mod_converse(
        24577 * mx,
        2 * mx,
        12288,
        mx,
    );
    assert(xm <= 12288);
    vstd::arithmetic::div_mod::lemma_div_pos_is_pos(tm * 4096 + mx, 2 * mx);
    assert(spec_iabs(x_offset(n, m, o, i)) == xm);
}

/// The kernel weight of source sample `i` for output cell `o`, for an axis
/// going from `n` to `m` samples.
fn gather_weight(algo: ResizeAlgorithm, n: u64, m64: u64, o64: u64, mx: u64, i: u64) -> (w: i64)
    requires
        1 <= n <= 0xFFFF_FFFF,
        1 <= m64 <= 0xFFFF_FFFF,
        o64 < m64,
        mx == smax(n as int, m64 as int),
        win_lo(n as int, m64 as int, o64 as int, algo.spec_radius_x2()) <= i as int,
        i as int <= win_hi(n as int, m64 as int, o64 as int, algo.spec_radius_x2()),
    ensures
        w == wt_at(algo, n as int, m64 as int, o64 as int, i as int),
        -8192 <= w <= 8192,
{
    let ghost gn = n as int;
    let ghost gm = m64 as int;
    let ghost go = o64 as int;
    proof {
        lemma_window(gn, gm, go, algo.spec_radius_x2(), i as int);
    }
    proof {
        lemma_mul_le(2 * go + 1, gn, 0x2_0000_0000, 0x1_0000_0000);
        lemma_mul_le(2 * (i as int), gm, 0x2_0000_0000, 0x1_0000_0000);
    }
    let cpos: u128 = (2 * (o64 as u128) + 1) * (n as u128);
    let p: u128 = 2 * (i as u128) * (m64 as u128) + (m64 as u128);
    let mxi: u128 = mx as u128;
    let ghost t = 2 * (i as int) * gm + gm - (2 * go + 1) * gn;
    proof {
        assert(p as int == 2 * (i as int) * gm + gm && cpos as int == (2 * go + 1) * gn)
            by (nonlinear_arith)
            requires
                p == 2 * (i as u128) * (m64 as u128) + (m64 as u128),
                cpos == (2 * (o64 as u128) + 1) * (n as u128),
                gm == m64,
                gn == n,
                go == o64,
                i < 0x1_0000_0000,
                m64 < 0x1_0000_0000,
                n < 0x1_0000_0000,
                o64 < 0x1_0000_0000,
        ;
    }
    let x: i64 = if p >= cpos {
        proof {
            assert((p - cpos) as int == t);
            assert((((p - cpos) * 4096 + mxi) / (2 * mxi)) as int == spec_iabs(
                x_offset(gn, gm, go, i as int),
            ));
        }
        (((p - cpos) * 4096 + mxi) / (2 * mxi)) as i64
    } else {
        proof {
            assert((cpos - p) as int == -t);
            assert((((cpos - p) * 4096 + mxi) / (2 * mxi)) as int == spec_iabs(
                x_offset(gn, gm, go, i as int),
            ));
        }
        -((((cpos - p) * 4096 + mxi) / (2 * mxi)) as i64)
    };
    proof {
        assert(x == x_offset(gn, gm, go, i as int));
    }
    weight(algo, x)
}

/// Resample a line of samples to `m` samples and return output sample `o`.
pub fn resample_line(algo: ResizeAlgorithm, line: &Vec<u8>, m: u32, o: u32) -> (v: u8)
    requires
        1 <= line@.len() <= u32::MAX,
        1 <= m,
        o < m,
    ensures
        v == axis_sample(algo, line@, m as int, o as int),
{
    let n: u64 = line.len() as u64;
    let m64: u64 = m as u64;
    let o64: u64 = o as u64;
    let ghost gn = n as int;
    let ghost gm = m as int;
    let ghost go = o as int;
    proof {
        lemma_nearest_src_bounds(gn, gm, go);
        lemma_mul_le(2 * go + 1, gn, 0x2_0000_0000, 0x1_0000_0000);
    }
    let ni: usize = (((2 * (o64 as u128) + 1) * (n as u128)) / (2 * (m64 as u128))) as usize;
    proof {
        assert(ni as int == nearest_src(gn, gm, go));
    }
    if algo == ResizeAlgorithm::Nearest || (algo == ResizeAlgorithm::Box && n <= m64) {
        return line[ni];
    }
    let rx2: u64 = algo.radius_x2() as u64;
    let mx: u64 = if n >= m64 {
        n
    } else {
        m64
    };
    proof {
        lemma_mul_le(rx2 as int, mx as int, 6, 0x1_0000_0000);
    }
    let cpos: u128 = (2 * (o64 as u128) + 1) * (n as u128);
    let rad: u128 = (rx2 as u128) * (mx as u128);
    let den: u128 = 2 * (m64 as u128);
    proof {
        assert(mx as int <= rad as int) by (nonlinear_arith)
            requires
                1 <= rx2 <= 6,
                1 <= mx,
                rad == rx2 * mx,
        ;
        lemma_win_lo_le_n(gn, gm, go, rx2 as int);
    }
    let lo64: u64 = if cpos <= m64 as u128 + rad {
        0
    } else {
        (((cpos - (m64 as u128 + rad)) + den - 1) / den) as u64
    };
    let hi64: u64 = {
        let b: u128 = cpos + rad - m64 as u128;
        let qq: u128 = b / den;
        if qq >= (n - 1) as u128 {
            n - 1
        } else {
            qq as u64
        }
    };
    let ghost grx = rx2 as int;
    let ghost glo = lo64 as int;
    let ghost ghi = hi64 as int;
    proof {
        assert(glo == win_lo(gn, gm, go, grx));
        assert(ghi == win_hi(gn, gm, go, grx));
        assert(ghi <= gn - 1);
    }
    if lo64 > hi64 {
        return line[ni];
    }
    let mut i: u64 = lo64;
    let mut ws: i64 = 0;
    let mut acc: i64 = 0;
    while i <= hi64
        invariant
            1 <= gn <= u32::MAX,
            1 <= gm <= u32::MAX,
            0 <= go < gm,
            line@.len() == gn,
            n == gn,
            m64 == gm,
            o64 == go,
            lo64 as int == glo,
            hi64 as int == ghi,
            mx == smax(gn, gm),
            grx == algo.spec_radius_x2(),
            glo == win_lo(gn, gm, go, grx),
            ghi == win_hi(gn, gm, go, grx),
            glo <= i as int <= ghi + 1,
            ghi < gn,
            ws == wsum(algo, gn, gm, go, glo, (i - lo64) as nat),
            acc == vsum(algo, line@, gn, gm, go, glo, (i - lo64) as nat),
            -8192 * (i - glo) <= ws <= 8192 * (i - glo),
            -2088960 * (i - glo) <= acc <= 2088960 * (i - glo),
        decreases ghi + 1 - i,
    {
        let w: i64 = gather_weight(algo, n, m64, o64, mx, i);
        let sv: u8 = line[i as usize];
        proof {
            assert(-2088960 <= w * (sv as int) <= 2088960) by (nonlinear_arith)
                requires
                    -8192 <= w <= 8192,
                    0 <= sv <= 255,
            ;
        }
        ws = ws + w;
        acc = acc + w * (sv as i64);
        proof {
            let c1 = (i + 1 - lo64) as nat;
            assert(glo + c1 - 1 == i as int);
            assert(wsum(algo, gn, gm, go, glo, c1) == wsum(algo, gn, gm, go, glo, (c1 - 1) as nat)
                + wt_at(algo, gn, gm, go, i as int));
            assert(vsum(algo, line@, gn, gm, go, glo, c1) == vsum(
                algo,
                line@,
                gn,
                gm,
                go,
                glo,
                (c1 - 1) as nat,
            ) + wt_at(algo, gn, gm, go, i as int) * line@[i as int]);
        }
        i = i + 1;
    }
    proof {
        assert(i as int == ghi + 1);
        assert((i - lo64) as nat == (ghi - glo + 1) as nat);
    }
    if ws <= 0 {
        line[ni]
    } else {
        let top: i64 = 255 * ws;
        let cl: i64 = if acc < 0 {
            0
        } else if acc > top {
            top
        } else {
            acc
        };
        let half: i64 = ((ws as u64) / 2) as i64;
        proof {
            vstd::arithmetic::div_mod::lemma_fundamental_div_mod(ws as int, 2);
            vstd::arithmetic::div_mod::lemma_mod_bound(ws as int, 2);
            assert(half < ws);
            vstd::arithmetic::div_mod::lemma_fundamental_div_mod_converse(
                255 * (ws as int) + half,
                ws as int,
                255,
                half as int,
            );
            vstd::arithmetic::div_mod::lemma_div_is_ordered(
                cl + half,
                255 * (ws as int) + half,
                ws as int,
            );
            vstd::arithmetic::div_mod::lemma_div_pos_is_pos(cl + half, ws as int);
        }
        (((cl + half) as u64) / (ws as u64)) as u8
    }
}

/// The samples of row `y`, channel `ch`, left to right.
pub open spec fn row_line(c: Raster, y: int, ch: int) -> Seq<u8> {
    Seq::new(c.width as nat, |i: int| c.sample_at(i, y, ch))
}

/// The samples of column `x`, channel `ch`, top to bottom.
pub open spec fn col_line(c: Raster, x: int, ch: int) -> Seq<u8> {
    Seq::new(c.height as nat, |i: int| c.sample_at(x, i, ch))
}

/// The raster after the horizontal pass: every row resampled to `m` samples
/// per channel.
pub open spec fn hpass_view(c: Raster, m: int, algo: ResizeAlgorithm) -> Raster {
    Raster {
        width: m,
        height: c.height,
        samples: Seq::new(
            (m * c.height * 4) as nat,
            |k: int| axis_sample(algo, row_line(c, (k / 4) / m, k % 4), m, (k / 4) % m),
        ),
    }
}

/// The raster after the vertical pass: every column resampled to `m` samples
/// per channel.
pub open spec fn vpass_view(c: Raster, m: int, algo: ResizeAlgorithm) -> Raster {
    Raster {
        width: c.width,
        height: m,
        samples: Seq::new(
            (c.width * m * 4) as nat,
            |k: int| axis_sample(algo, col_line(c, (k / 4) % c.width, k % 4), m, (k / 4) / c.width),
        ),
    }
}

/// The full resampling result: horizontal pass to the target width, then
/// vertical pass to the target height.
pub open spec fn resize_view(c: Raster, tw: int, th: int, algo: ResizeAlgorithm) -> Raster {
    vpass_view(hpass_view(c, tw, algo), th, algo)
}

fn extract_row(src: &PixelBuffer, y: u32, ch: u32) -> (line: Vec<u8>)
    requires
        src.wf(),
        y < src.height,
        ch < 4,
    ensures
        line@ == row_line(src@, y as int, ch as int),
{
    let w = src.width();
    let mut line: Vec<u8> = Vec::new();
    let mut i: u32 = 0;
    while i < w
        invariant
            src.wf(),
            y < src.height,
            ch < 4,
            w == src.width,
            i <= w,
            line@.len() == i,
            forall|j: int| 0 <= j < i ==> line@[j] == src@.sample_at(j, y as int, ch as int),
        decreases w - i,
    {
        line.push(src.get_sample(i, y, ch));
        i = i + 1;
    }
    proof {
        assert(line@ =~= row_line(src@, y as int, ch as int));
    }
    line
}

fn extract_col(src: &PixelBuffer, x: u32, ch: u32) -> (line: Vec<u8>)
    requires
        src.wf(),
        x < src.width,
        ch < 4,
    ensures
        line@ == col_line(src@, x as int, ch as int),
{
    let h = src.height();
    let mut line: Vec<u8> = Vec::new();
    let mut i: u32 = 0;
    while i < h
        invariant
            src.wf(),
            x < src.width,
            ch < 4,
            h == src.height,
            i <= h,
            line@.len() == i,
            forall|j: int| 0 <= j < i ==> line@[j] == src@.sample_at(x as int, j, ch as int),
        decreases h - i,
    {
        line.push(src.get_sample(x, i, ch));
        i = i + 1;
    }
    proof {
        assert(line@ =~= col_line(src@, x as int, ch as int));
    }
    line
}

fn hpass(src: &PixelBuffer, m: u32, algo: ResizeAlgorithm) -> (out: PixelBuffer)
    requires
        src.wf(),
        1 <= src.width,
        1 <= src.height,
        1 <= m,
        m * src.height * 4 <= usize::MAX,
    ensures
        out.wf(),
        out.width == m,
        out.height == src.height,
        out@ == hpass_view(src@, m as int, algo),
{
    let h = src.height();
    let ghost c0 = src@;
    let ghost gm = m as int;
    let ghost gh = h as int;
    let mut samples: Vec<u8> = Vec::new();
    let mut y: u32 = 0;
    while y < h
        invariant
            src.wf(),
            c0 == src@,
            h == src.height,
            1 <= src.width <= u32::MAX,
            1 <= gm <= u32::MAX,
            m == gm,
            gh == h,
            y <= h,
            samples@.len() == y * gm * 4,
            forall|x2: int, y2: int, c2: int|
                0 <= x2 < gm && 0 <= y2 < gh && 0 <= c2 < 4 && (y2 * gm + x2) * 4 + c2
                    < samples@.len() ==> samples@[(y2 * gm + x2) * 4 + c2] == axis_sample(
                    algo,
                    row_line(c0, y2, c2),
                    gm,
                    x2,
                ),
        decreases h - y,
    {
        let row0 = extract_row(src, y, 0);
        let row1 = extract_row(src, y, 1);
        let row2 = extract_row(src, y, 2);
        let row3 = extract_row(src, y, 3);
        let mut x: u32 = 0;
        while x < m
            invariant
                src.wf(),
                c0 == src@,
                h == src.height,
                1 <= src.width <= u32::MAX,
                1 <= gm <= u32::MAX,
                m == gm,
                gh == h,
                y < h,
                x <= m,
                row0@ == row_line(c0, y as int, 0),
                row1@ == row_line(c0, y as int, 1),
                row2@ == row_line(c0, y as int, 2),
                row3@ == row_line(c0, y as int, 3),
                samples@.len() == (y * gm + x) * 4,
                forall|x2: int, y2: int, c2: int|
                    0 <= x2 < gm && 0 <= y2 < gh && 0 <= c2 < 4 && (y2 * gm + x2) * 4 + c2
                        < samples@.len() ==> samples@[(y2 * gm + x2) * 4 + c2] == axis_sample(
                        algo,
                        row_line(c0, y2, c2),
                        gm,
                        x2,
                    ),
            decreases m - x,
        {
            let ghost base = samples@.len() as int;
            let v0 = resample_line(algo, &row0, m, x);
            let v1 = resample_line(algo, &row1, m, x);
            let v2 = resample_line(algo, &row2, m, x);
            let v3 = resample_line(algo, &row3, m, x);
            samples.push(v0);
            samples.push(v1);
            samples.push(v2);
            samples.push(v3);
            proof {
                assert forall|x2: int, y2: int, c2: int|
                    0 <= x2 < gm && 0 <= y2 < gh && 0 <= c2 < 4 && (y2 * gm + x2) * 4 + c2
                        < samples@.len() implies samples@[(y2 * gm + x2) * 4 + c2] == axis_sample(
                        algo,
                        row_line(c0, y2, c2),
                        gm,
                        x2,
                    ) by {
                    let idx = (y2 * gm + x2) * 4 + c2;
                    if idx < base {
                    } else {
                        if !(x2 == x as int && y2 == y as int) {
                            lemma_sample_index_injective(
                                gm,
                                x2,
                                y2,
                                c2,
                                x as int,
                                y as int,
                                0,
                            );
                            lemma_sample_index_injective(
                                gm,
                                x2,
                                y2,
                                c2,
                                x as int,
                                y as int,
                                1,
                            );
                            lemma_sample_index_injective(
                                gm,
                                x2,
                                y2,
                                c2,
                                x as int,
                                y as int,
                                2,
                            );
                            lemma_sample_index_injective(
                                gm,
                                x2,
                                y2,
                                c2,
                                x as int,
                                y as int,
                                3,
                            );
                            assert(false);
                        }
                        assert(idx - base == c2);
                    }
                }
            }
            x = x + 1;
        }
        proof {
            assert((y * gm + gm) * 4 == ((y + 1) * gm) * 4) by (nonlinear_arith);
        }
        y = y + 1;
    }
    let out = PixelBuffer { width: m, height: h, samples };
    proof {
        assert(gh * gm * 4 == gm * gh * 4) by (nonlinear_arith);
        let target = hpass_view(c0, gm, algo);
        assert(out.wf());
        assert forall|k: int| 0 <= k < out.samples@.len() implies out.samples@[k]
            == target.samples[k] by {
            lemma_flat_decompose(gm, gh, k);
            let x2 = (k / 4) % gm;
            let y2 = (k / 4) / gm;
            let c2 = k % 4;
            assert(out.samples@[(y2 * gm + x2) * 4 + c2] == axis_sample(
                algo,
                row_line(c0, y2, c2),
                gm,
                x2,
            ));
        }
        assert(out@.samples =~= target.samples);
        assert(out@ =~= target);
    }
    out
}

fn vpass(src: &PixelBuffer, m: u32, algo: ResizeAlgorithm) -> (out: PixelBuffer)
    requires
        src.wf(),
        1 <= src.width,
        1 <= src.height,
        1 <= m,
        src.width * m * 4 <= usize::MAX,
    ensures
        out.wf(),
        out.width == src.width,
        out.height == m,
        out@ == vpass_view(src@, m as int, algo),
{
    let w = src.width();
    let ghost c0 = src@;
    let ghost gm = m as int;
    let ghost gw = w as int;
    let mut samples: Vec<u8> = Vec::new();
    let mut yo: u32 = 0;
    while yo < m
        invariant
            src.wf(),
            c0 == src@,
            w == src.width,
            1 <= src.height <= u32::MAX,
            1 <= gm <= u32::MAX,
            m == gm,
            gw == w,
            1 <= gw,
            yo <= m,
            samples@.len() == yo * gw * 4,
            forall|x2: int, y2: int, c2: int|
                0 <= x2 < gw && 0 <= y2 < gm && 0 <= c2 < 4 && (y2 * gw + x2) * 4 + c2
                    < samples@.len() ==> samples@[(y2 * gw + x2) * 4 + c2] == axis_sample(
                    algo,
                    col_line(c0, x2, c2),
                    gm,
                    y2,
                ),
        decreases m - yo,
    {
        let mut x: u32 = 0;
        while x < w
            invariant
                src.wf(),
                c0 == src@,
                w == src.width,
                1 <= src.height <= u32::MAX,
                1 <= gm <= u32::MAX,
                m == gm,
                gw == w,
                1 <= gw,
                yo < m,
                x <= w,
                samples@.len() == (yo * gw + x) * 4,
                forall|x2: int, y2: int, c2: int|
                    0 <= x2 < gw && 0 <= y2 < gm && 0 <= c2 < 4 && (y2 * gw + x2) * 4 + c2
                        < samples@.len() ==> samples@[(y2 * gw + x2) * 4 + c2] == axis_sample(
                        algo,
                        col_line(c0, x2, c2),
                        gm,
                        y2,
                    ),
            decreases w - x,
        {
            let ghost base = samples@.len() as int;
            let col0 = extract_col(src, x, 0);
            let col1 = extract_col(src, x, 1);
            let col2 = extract_col(src, x, 2);
            let col3 = extract_col(src, x, 3);
            let v0 = resample_line(algo, &col0, m, yo);
            let v1 = resample_line(algo, &col1, m, yo);
            let v2 = resample_line(algo, &col2, m, yo);
            let v3 = resample_line(algo, &col3, m, yo);
            samples.push(v0);
            samples.push(v1);
            samples.push(v2);
            samples.push(v3);
            proof {
                assert forall|x2: int, y2: int, c2: int|
                    0 <= x2 < gw && 0 <= y2 < gm && 0 <= c2 < 4 && (y2 * gw + x2) * 4 + c2
                        < samples@.len() implies samples@[(y2 * gw + x2) * 4 + c2] == axis_sample(
                        algo,
                        col_line(c0, x2, c2),
                        gm,
                        y2,
                    ) by {
                    let idx = (y2 * gw + x2) * 4 + c2;
                    if idx < base {
                    } else {
                        if !(x2 == x as int && y2 == yo as int) {
                            lemma_sample_index_injective(
                                gw,
                                x2,
                                y2,
                                c2,
                                x as int,
                                yo as int,
                                0,
                            );
                            lemma_sample_index_injective(
                                gw,
                                x2,
                                y2,
                                c2,
                                x as int,
                                yo as int,
                                1,
                            );
                            lemma_sample_index_injective(
                                gw,
                                x2,
                                y2,
                                c2,
                                x as int,
                                yo as int,
                                2,
                            );
                            lemma_sample_index_injective(
                                gw,
                                x2,
                                y2,
                                c2,
                                x as int,
                                yo as int,
                                3,
                            );
                            assert(false);
                        }
                        assert(idx - base == c2);
                    }
                }
            }
            x = x + 1;
        }
        proof {
            assert((yo * gw + gw) * 4 == ((yo + 1) * gw) * 4) by (nonlinear_arith);
        }
        yo = yo + 1;
    }
    let out = PixelBuffer { width: w, height: m, samples };
    proof {
        assert(gm * gw * 4 == gw * gm * 4) by (nonlinear_arith);
        let target = vpass_view(c0, gm, algo);
        assert(out.wf());
        assert forall|k: int| 0 <= k < out.samples@.len() implies out.samples@[k]
            == target.samples[k] by {
            lemma_flat_decompose(gw, gm, k);
            let x2 = (k / 4) % gw;
            let y2 = (k / 4) / gw;
            let c2 = k % 4;
            assert(out.samples@[(y2 * gw + x2) * 4 + c2] == axis_sample(
                algo,
                col_line(c0, x2, c2),
                gm,
                y2,
            ));
        }
        assert(out@.samples =~= target.samples);
        assert(out@ =~= target);
    }
    out
}

/// Resize `src` to the target dimensions with the given algorithm: a
/// horizontal pass, then a vertical pass. Fails exactly when a target
/// dimension or a source dimension is zero, or an involved buffer would not
/// fit in memory.
pub fn resize(
    src: &PixelBuffer,
    target_width: u32,
    target_height: u32,
    algorithm: ResizeAlgorithm,
) -> (r: Result<PixelBuffer, ImageError>)
    requires
        src.wf(),
    ensures
        match r {
            Ok(out) => {
                &&& 1 <= target_width && 1 <= target_height
                &&& 1 <= src.width && 1 <= src.height
                &&& target_width * src.height * 4 <= usize::MAX
                &&& target_width * target_height * 4 <= usize::MAX
                &&& out.wf()
                &&& out.width == target_width
                &&& out.height == target_height
                &&& out@ == resize_view(src@, target_width as int, target_height as int, algorithm)
            },
            Err(e) => {
                &&& e == ImageError::InvalidDimensions
                &&& (target_width == 0 || target_height == 0 || src.width == 0 || src.height == 0
                    || target_width * src.height * 4 > usize::MAX || target_width * target_height
                    * 4 > usize::MAX)
            },
        },
{
    if target_width == 0 || target_height == 0 || src.width() == 0 || src.height() == 0 {
        return Err(ImageError::InvalidDimensions);
    }
    proof {
        crate::pixel::lemma_dims_product_fits(target_width as int, src.height as int);
        crate::pixel::lemma_dims_product_fits(target_width as int, target_height as int);
    }
    let mid_size: u128 = target_width as u128 * src.height() as u128 * 4;
    if mid_size > usize::MAX as u128 {
        return Err(ImageError::InvalidDimensions);
    }
    let out_size: u128 = target_width as u128 * target_height as u128 * 4;
    if out_size > usize::MAX as u128 {
        return Err(ImageError::InvalidDimensions);
    }
    let mid = hpass(src, target_width, algorithm);
    let out = vpass(&mid, target_height, algorithm);
    Ok(out)
}

/// Resampled output samples always lie in the valid channel range, even for
/// kernels with negative lobes: the weighted sum is clamped into the channel
/// range before normalization.
pub proof fn lemma_axis_sample_in_range(algo: ResizeAlgorithm, line: Seq<u8>, m: int, o: int)
    ensures
        0 <= axis_sample(algo, line, m, o) <= 255,
{
}

/// A weighted sum over a constant stretch equals the weight sum times the
/// constant.
proof fn lemma_vsum_const(
    algo: ResizeAlgorithm,
    line: Seq<u8>,
    n: int,
    m: int,
    o: int,
    lo: int,
    cnt: nat,
    v: u8,
)
    requires
        0 <= lo,
        lo + cnt <= line.len(),
        forall|j: int| 0 <= j < line.len() ==> line[j] == v,
    ensures
        vsum(algo, line, n, m, o, lo, cnt) == wsum(algo, n, m, o, lo, cnt) * v,
    decreases cnt,
{
    if cnt == 0 {
        assert(0 == 0 * v) by (nonlinear_arith);
    } else {
        lemma_vsum_const(algo, line, n, m, o, lo, (cnt - 1) as nat, v);
        let w = wt_at(algo, n, m, o, lo + cnt - 1);
        let ws0 = wsum(algo, n, m, o, lo, (cnt - 1) as nat);
        assert(ws0 * v + w * v == (ws0 + w) * v) by (nonlinear_arith);
    }
}

/// The support window of the general path consists of valid source indices.
proof fn lemma_window_valid(n: int, m: int, o: int, rx2: int)
    requires
        1 <= n,
        1 <= m,
        0 <= o < m,
        1 <= rx2,
    ensures
        0 <= win_lo(n, m, o, rx2),
        win_hi(n, m, o, rx2) <= n - 1,
{
    let mx = smax(n, m);
    let rad = rx2 * mx;
    let a = (2 * o + 1) * n - m - rad;
    let d = 2 * m;
    if a > 0 {
        vstd::arithmetic::div_mod::lemma_div_pos_is_pos(a + d - 1, d);
    }
}

/// Normalization is exact: each output sample divides the weighted sum by
/// the exact sum of the applied weights, so the normalized weights sum to
/// one and a constant line resamples to exactly that constant.
pub proof fn lemma_axis_sample_constant(
    algo: ResizeAlgorithm,
    line: Seq<u8>,
    m: int,
    o: int,
    v: u8,
)
    requires
        1 <= line.len(),
        1 <= m,
        0 <= o < m,
        forall|j: int| 0 <= j < line.len() ==> line[j] == v,
    ensures
        axis_sample(algo, line, m, o) == v,
{
    let n = line.len() as int;
    lemma_nearest_src_bounds(n, m, o);
    if algo.spec_point_samples(n, m) {
    } else {
        let rx2 = algo.spec_radius_x2();
        let lo = win_lo(n, m, o, rx2);
        let hi = win_hi(n, m, o, rx2);
        lemma_window_valid(n, m, o, rx2);
        let cnt = if hi >= lo {
            (hi - lo + 1) as nat
        } else {
            0
        };
        let ws = wsum(algo, n, m, o, lo, cnt);
        if ws <= 0 {
        } else {
            lemma_win_lo_le_n(n, m, o, rx2);
            lemma_vsum_const(algo, line, n, m, o, lo, cnt, v);
            let acc = ws * v;
            assert(0 <= acc <= 255 * ws) by (nonlinear_arith)
                requires
                    0 < ws,
                    0 <= v <= 255,
                    acc == ws * v,
            ;
            let half = ws / 2;
            vstd::arithmetic::div_mod::lemma_fundamental_div_mod(ws, 2);
            vstd::arithmetic::div_mod::lemma_mod_bound(ws, 2);
            assert(0 <= half < ws);
            assert(ws * v + half == v * ws + half) by (nonlinear_arith);
            vstd::arithmetic::div_mod::lemma_fundamental_div_mod_converse(
                ws * v + half,
                ws,
                v as int,
                half,
            );
            assert((acc + half) / ws == v);
        }
    }
}

/// Resampling a line to its own length with a point-sampling algorithm
/// selects each sample itself.
pub proof fn lemma_nearest_identity(n: int, o: int)
    requires
        1 <= n,
        0 <= o < n,
    ensures
        nearest_src(n, n, o) == o,
{
    assert((2 * o + 1) * n == o * (2 * n) + n) by (nonlinear_arith);
    assert(0 <= n < 2 * n);
    vstd::arithmetic::div_mod::lemma_fundamental_div_mod_converse((2 * o + 1) * n, 2 * n, o, n);
}

/// The horizontal pass keeps the height, sets the width, and resamples each
/// row independently.
pub proof fn lemma_hpass_sample(c: Raster, m: int, algo: ResizeAlgorithm, x: int, y: int, ci: int)
    requires
        c.wf(),
        0 <= m,
        0 <= x < m,
        0 <= y < c.height,
        0 <= ci < 4,
    ensures
        hpass_view(c, m, algo).sample_at(x, y, ci) == axis_sample(
            algo,
            row_line(c, y, ci),
            m,
            x,
        ),
{
    lemma_point_of_flat_ch(m, c.height, x, y, ci);
}

/// The vertical pass keeps the width, sets the height, and resamples each
/// column independently.
pub proof fn lemma_vpass_sample(c: Raster, m: int, algo: ResizeAlgorithm, x: int, y: int, ci: int)
    requires
        c.wf(),
        0 <= m,
        0 <= x < c.width,
        0 <= y < m,
        0 <= ci < 4,
    ensures
        vpass_view(c, m, algo).sample_at(x, y, ci) == axis_sample(
            algo,
            col_line(c, x, ci),
            m,
            y,
        ),
{
    lemma_point_of_flat_ch(c.width, m, x, y, ci);
}

/// At equal input and output sizes, every kernel offset is an exact
/// whole-pixel multiple.
proof fn lemma_x_offset_same_size(n: int, o: int, i: int)
    requires
        1 <= n,
    ensures
        x_offset(n, n, o, i) == (i - o) * 4096,
{
    let t = 2 * i * n + n - (2 * o + 1) * n;
    let k = i - o;
    assert(t == 2 * n * k) by (nonlinear_arith)
        requires
            t == 2 * i * n + n - (2 * o + 1) * n,
            k == i - o,
    ;
    if k >= 0 {
        assert(t >= 0 && t * 4096 + n == (k * 4096) * (2 * n) + n) by (nonlinear_arith)
            requires
                t == 2 * n * k,
                k >= 0,
                1 <= n,
        ;
        vstd::arithmetic::div_mod::lemma_fundamental_div_mod_converse(
            t * 4096 + n,
            2 * n,
            k * 4096,
            n,
        );
    } else {
        assert(t < 0 && (-t) * 4096 + n == ((-k) * 4096) * (2 * n) + n) by (nonlinear_arith)
            requires
                t == 2 * n * k,
                k < 0,
                1 <= n,
        ;
        vstd::arithmetic::div_mod::lemma_fundamental_div_mod_converse(
            (-t) * 4096 + n,
            2 * n,
            (-k) * 4096,
            n,
        );
    }
}

/// Over a stretch where only the center sample carries weight 4096 and all
/// others weight 0, the weight sum is 4096 when the center is inside the
/// stretch and 0 otherwise.
proof fn lemma_wsum_point(algo: ResizeAlgorithm, n: int, o: int, lo: int, cnt: nat)
    requires
        forall|j: int|
            lo <= j < lo + cnt ==> wt_at(algo, n, n, o, j) == (if j == o {
                4096int
            } else {
                0int
            }),
    ensures
        wsum(algo, n, n, o, lo, cnt) == if lo <= o < lo + cnt {
            4096int
        } else {
            0int
        },
    decreases cnt,
{
    if cnt > 0 {
        lemma_wsum_point(algo, n, o, lo, (cnt - 1) as nat);
    }
}

/// The matching fact for the weighted sample sum.
proof fn lemma_vsum_point(
    algo: ResizeAlgorithm,
    line: Seq<u8>,
    n: int,
    o: int,
    lo: int,
    cnt: nat,
)
    requires
        forall|j: int|
            lo <= j < lo + cnt ==> wt_at(algo, n, n, o, j) == (if j == o {
                4096int
            } else {
                0int
            }),
    ensures
        vsum(algo, line, n, n, o, lo, cnt) == if lo <= o < lo + cnt {
            4096 * line[o]
        } else {
            0int
        },
    decreases cnt,
{
    if cnt > 0 {
        lemma_vsum_point(algo, line, n, o, lo, (cnt - 1) as nat);
    }
}

/// Every kernel but Mitchell-Netravali interpolates: it is one at offset
/// zero and vanishes at whole-pixel offsets.
proof fn lemma_interpolating_weights(algo: ResizeAlgorithm)
    requires
        algo != ResizeAlgorithm::Mitchell,
    ensures
        weight_fp(algo, 0) == 4096,
        weight_fp(algo, 4096) == 0,
        weight_fp(algo, -4096) == 0,
        weight_fp(algo, 8192) == 0,
        weight_fp(algo, -8192) == 0,
        weight_fp(algo, 12288) == 0,
        weight_fp(algo, -12288) == 0,
{
    match algo {
        ResizeAlgorithm::Hamming => {
            assert(spec_sin_pi(4096) == 0);
            assert(spec_sinc(4096) == 0);
            assert(weight_fp(algo, 4096) == 0);
        },
        ResizeAlgorithm::Lanczos3 => {
            assert(spec_sin_pi(4096) == 0);
            assert(spec_sin_pi(8192) == 0);
            assert(spec_sinc(4096) == 0);
            assert(spec_sinc(8192) == 0);
            assert(weight_fp(algo, 4096) == 0);
            assert(weight_fp(algo, 8192) == 0);
        },
        _ => {
        },
    }
}

/// Resampling a line to its own length with any interpolating kernel (all
/// but Mitchell-Netravali) reproduces every sample exactly: at equal sizes
/// all offsets are whole pixels, where these kernels are one at the center
/// and zero elsewhere.
pub proof fn lemma_axis_identity(algo: ResizeAlgorithm, line: Seq<u8>, o: int)
    requires
        1 <= line.len(),
        0 <= o < line.len(),
        algo != ResizeAlgorithm::Mitchell,
    ensures
        axis_sample(algo, line, line.len() as int, o) == line[o],
{
    let n = line.len() as int;
    if algo.spec_point_samples(n, n) {
        lemma_nearest_identity(n, o);
    } else {
        let rx2 = algo.spec_radius_x2();
        let r = rx2 / 2;
        assert(rx2 == 2 * r && 1 <= r <= 3);
        let lo = win_lo(n, n, o, rx2);
        let hi = win_hi(n, n, o, rx2);
        let a = (2 * o + 1) * n - n - rx2 * n;
        let b = (2 * o + 1) * n - n + rx2 * n;
        assert(a == n * (2 * o - rx2) && b == (2 * n) * (o + r)) by (nonlinear_arith)
            requires
                a == (2 * o + 1) * n - n - rx2 * n,
                b == (2 * o + 1) * n - n + rx2 * n,
                rx2 == 2 * r,
        ;
        // the window is [max(0, o - r), min(n - 1, o + r)]
        vstd::arithmetic::div_mod::lemma_fundamental_div_mod_converse(b, 2 * n, o + r, 0);
        if a <= 0 {
            assert(2 * o - rx2 <= 0) by (nonlinear_arith)
                requires
                    a == n * (2 * o - rx2),
                    a <= 0,
                    1 <= n,
            ;
            assert(lo == 0 && o - r <= lo);
        } else {
            assert(a + 2 * n - 1 == (o - r) * (2 * n) + (2 * n - 1)) by (nonlinear_arith)
                requires
                    a == n * (2 * o - rx2),
                    rx2 == 2 * r,
            ;
            vstd::arithmetic::div_mod::lemma_fundamental_div_mod_converse(
                a + 2 * n - 1,
                2 * n,
                o - r,
                2 * n - 1,
            );
            assert(lo == o - r);
        }
        assert(lo <= o && o <= hi && hi - lo + 1 <= 2 * r + 1);
        // inside the window only the center sample carries weight
        assert forall|j: int| lo <= j <= hi implies wt_at(algo, n, n, o, j) == (if j == o {
            4096int
        } else {
            0int
        }) by {
            lemma_x_offset_same_size(n, o, j);
            lemma_interpolating_weights(algo);
            let k = j - o;
            assert(-3 <= k <= 3);
        }
        let cnt = (hi - lo + 1) as nat;
        lemma_wsum_point(algo, n, o, lo, cnt);
        lemma_vsum_point(algo, line, n, o, lo, cnt);
        let ws = wsum(algo, n, n, o, lo, cnt);
        let acc = vsum(algo, line, n, n, o, lo, cnt);
        assert(ws == 4096 && acc == 4096 * line[o]);
        assert(0 <= acc <= 255 * 4096);
        assert(4096 * line[o] + 2048 == (line[o] as int) * 4096 + 2048) by (nonlinear_arith);
        vstd::arithmetic::div_mod::lemma_fundamental_div_mod_converse(
            4096 * line[o] + 2048,
            4096,
            line[o] as int,
            2048,
        );
    }
}

/// Resizing a buffer to its own dimensions with any interpolating kernel
/// (all but Mitchell-Netravali) reproduces the buffer exactly.
pub proof fn lemma_resize_identity(c: Raster, algo: ResizeAlgorithm)
    requires
        c.wf(),
        1 <= c.width,
        1 <= c.height,
        algo != ResizeAlgorithm::Mitchell,
    ensures
        resize_view(c, c.width, c.height, algo) == c,
{
    let w = c.width;
    let h = c.height;
    let d1 = hpass_view(c, w, algo);
    assert(d1.wf());
    assert forall|x: int, y: int| c.in_bounds(x, y) implies #[trigger] d1.px(x, y) == c.px(
        x,
        y,
    ) by {
        assert forall|ci: int| 0 <= ci < 4 implies d1.sample_at(x, y, ci) == c.sample_at(
            x,
            y,
            ci,
        ) by {
            lemma_hpass_sample(c, w, algo, x, y, ci);
            lemma_axis_identity(algo, row_line(c, y, ci), x);
            assert(axis_sample(algo, row_line(c, y, ci), w, x) == row_line(c, y, ci)[x]);
        }
        assert(d1.px(x, y) == c.px(x, y));
    }
    lemma_raster_eq_by_px(d1, c);
    let d2 = vpass_view(d1, h, algo);
    assert(d2.wf());
    assert forall|x: int, y: int| c.in_bounds(x, y) implies #[trigger] d2.px(x, y) == c.px(
        x,
        y,
    ) by {
        assert forall|ci: int| 0 <= ci < 4 implies d2.sample_at(x, y, ci) == c.sample_at(
            x,
            y,
            ci,
        ) by {
            lemma_vpass_sample(d1, h, algo, x, y, ci);
            lemma_axis_identity(algo, col_line(c, x, ci), y);
            assert(axis_sample(algo, col_line(c, x, ci), h, y) == col_line(c, x, ci)[y]);
        }
        assert(d2.px(x, y) == c.px(x, y));
    }
    lemma_raster_eq_by_px(d2, c);
}

/// Downscaling by an exact factor then upscaling back with `Nearest`
/// composes to the identity on sample indices.
pub proof fn lemma_nearest_compose(n: int, k: int, o: int)
    requires
        1 <= n,
        1 <= k,
        0 <= o < n,
    ensures
        0 <= nearest_src(k * n, n, o) < k * n,
        nearest_src(n, k * n, nearest_src(k * n, n, o)) == o,
{
    assert(1 <= k * n) by (nonlinear_arith)
        requires
            1 <= k,
            1 <= n,
    ;
    lemma_nearest_src_bounds(k * n, n, o);
    let j = nearest_src(k * n, n, o);
    let big = (2 * o + 1) * (k * n);
    let d = 2 * n;
    vstd::arithmetic::div_mod::lemma_fundamental_div_mod(big, d);
    vstd::arithmetic::div_mod::lemma_mod_bound(big, d);
    assert(d * j <= big && big < d * j + d);
    assert(2 * j <= (2 * o + 1) * k && (2 * o + 1) * k <= 2 * j + 1) by (nonlinear_arith)
        requires
            d == 2 * n,
            1 <= n,
            big == (2 * o + 1) * (k * n),
            d * j <= big,
            big < d * j + d,
    ;
    assert((2 * o + 1) * k == 2 * (k * o) + k) by (nonlinear_arith);
    let ko = k * o;
    assert(ko <= j);
    if k == 1 {
        assert(j <= ko + k - 1);
    } else {
        assert(2 * j <= 2 * ko + k);
        assert(j <= ko + k - 1);
    }
    let rr = (2 * j + 1 - 2 * ko) * n;
    assert((2 * j + 1) * n == (2 * (k * n)) * o + rr && n <= rr && rr <= (2 * k - 1) * n && (2 * k
        - 1) * n < 2 * (k * n)) by (nonlinear_arith)
        requires
            1 <= n,
            1 <= k,
            rr == (2 * j + 1 - 2 * ko) * n,
            ko == k * o,
            ko <= j,
            j <= ko + k - 1,
    ;
    vstd::arithmetic::div_mod::lemma_fundamental_div_mod_converse(
        (2 * j + 1) * n,
        2 * (k * n),
        o,
        rr,
    );
}

/// Upscaling by an exact integer factor and then downscaling back with
/// `Nearest` reproduces every original sample exactly.
pub proof fn lemma_nearest_round_trip(c: Raster, k: int)
    requires
        c.wf(),
        1 <= c.width,
        1 <= c.height,
        1 <= k,
        k * c.width <= u32::MAX,
        k * c.height <= u32::MAX,
    ensures
        resize_view(
            resize_view(c, k * c.width, k * c.height, ResizeAlgorithm::Nearest),
            c.width,
            c.height,
            ResizeAlgorithm::Nearest,
        ) == c,
{
    let algo = ResizeAlgorithm::Nearest;
    let w = c.width;
    let h = c.height;
    let kw = k * w;
    let kh = k * h;
    assert(1 <= kw && 1 <= kh) by (nonlinear_arith)
        requires
            1 <= k,
            1 <= w,
            1 <= h,
            kw == k * w,
            kh == k * h,
    ;
    let d1 = hpass_view(c, kw, algo);
    let d2 = vpass_view(d1, kh, algo);
    let d3 = hpass_view(d2, w, algo);
    let d4 = vpass_view(d3, h, algo);
    assert(d1.wf() && d2.wf() && d3.wf() && d4.wf());
    assert forall|x: int, y: int| c.in_bounds(x, y) implies #[trigger] d4.px(x, y) == c.px(
        x,
        y,
    ) by {
        let jy = nearest_src(kh, h, y);
        let jx = nearest_src(kw, w, x);
        lemma_nearest_compose(h, k, y);
        lemma_nearest_compose(w, k, x);
        assert forall|ci: int| 0 <= ci < 4 implies d4.sample_at(x, y, ci) == c.sample_at(
            x,
            y,
            ci,
        ) by {
            lemma_vpass_sample(d3, h, algo, x, y, ci);
            assert(d4.sample_at(x, y, ci) == col_line(d3, x, ci)[jy]);
            assert(col_line(d3, x, ci)[jy] == d3.sample_at(x, jy, ci));
            lemma_hpass_sample(d2, w, algo, x, jy, ci);
            assert(d3.sample_at(x, jy, ci) == row_line(d2, jy, ci)[jx]);
            assert(row_line(d2, jy, ci)[jx] == d2.sample_at(jx, jy, ci));
            lemma_vpass_sample(d1, kh, algo, jx, jy, ci);
            assert(d2.sample_at(jx, jy, ci) == col_line(d1, jx, ci)[nearest_src(h, kh, jy)]);
            assert(nearest_src(h, kh, jy) == y);
            assert(col_line(d1, jx, ci)[y] == d1.sample_at(jx, y, ci));
            lemma_hpass_sample(c, kw, algo, jx, y, ci);
            assert(d1.sample_at(jx, y, ci) == row_line(c, y, ci)[nearest_src(w, kw, jx)]);
            assert(nearest_src(w, kw, jx) == x);
            assert(row_line(c, y, ci)[x] == c.sample_at(x, y, ci));
        }
        assert(d4.px(x, y) == c.px(x, y));
    }
    lemma_raster_eq_by_px(d4, c);
}

/// The first window index never exceeds the line length.
proof fn lemma_win_lo_le_n(n: int, m: int, o: int, rx2: int)
    requires
        1 <= n,
        1 <= m,
        0 <= o < m,
        1 <= rx2,
    ensures
        0 <= win_lo(n, m, o, rx2) <= n,
{
    let mx = smax(n, m);
    let rad = rx2 * mx;
    let cpos = (2 * o + 1) * n;
    let a = cpos - m - rad;
    let d = 2 * m;
    if a <= 0 {
    } else {
        vstd::arithmetic::div_mod::lemma_div_pos_is_pos(a + d - 1, d);
        assert(cpos <= d * n - n) by (nonlinear_arith)
            requires
                1 <= n,
                1 <= m,
                0 <= o < m,
                cpos == (2 * o + 1) * n,
                d == 2 * m,
        ;
        let q = (a + d - 1) / d;
        vstd::arithmetic::div_mod::lemma_fundamental_div_mod(a + d - 1, d);
        vstd::arithmetic::div_mod::lemma_mod_bound(a + d - 1, d);
        assert(d * q <= a + d - 1);
        assert(q <= n) by (nonlinear_arith)
            requires
                d * q <= a + d - 1,
                a <= d * n - n,
                1 <= n,
                2 <= d,
        ;
    }
}

} // verus!
