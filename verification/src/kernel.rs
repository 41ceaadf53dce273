//! Filter kernels for resampling, in signed fixed-point arithmetic with
//! 12 fractional bits: the value 4096 stands for 1.0. Each algorithm maps to
//! one kernel function and one support radius. Every kernel is symmetric and
//! returns 0 outside its support.
//!
//! The windowed-sinc kernels evaluate `sin` through a truncated Taylor series
//! after range reduction; the result is clamped into [0, 4096], so every
//! kernel value is bounded, which the resampling engine's overflow proofs
//! rely on.

use vstd::prelude::*;

verus! {

/// A filtering algorithm that is used to resize an image.
#[derive(Clone, Copy, PartialEq, Eq, Structural, Debug)]
pub enum ResizeAlgorithm {
    /// Nearest neighbor: picks the single closest source sample.
    Nearest,
    /// A box filter; equivalent to `Nearest` when upscaling.
    Box,
    /// A triangle (tent) filter: linear interpolation.
    Bilinear,
    /// A Hamming-windowed sinc filter.
    Hamming,
    /// A Catmull-Rom bicubic filter.
    Bicubic,
    /// A Mitchell-Netravali bicubic filter.
    Mitchell,
    /// A Lanczos filter with a window of 3.
    Lanczos3,
}

impl ResizeAlgorithm {
    /// The kernel's support radius, in half-pixel units: weights vanish for
    /// offsets beyond `radius_x2 / 2` pixels.
    pub open spec fn spec_radius_x2(self) -> int {
        match self {
            ResizeAlgorithm::Nearest => 1,
            ResizeAlgorithm::Box => 1,
            ResizeAlgorithm::Bilinear => 2,
            ResizeAlgorithm::Hamming => 2,
            ResizeAlgorithm::Bicubic => 4,
            ResizeAlgorithm::Mitchell => 4,
            ResizeAlgorithm::Lanczos3 => 6,
        }
    }

    pub fn radius_x2(self) -> (r: u32)
        ensures
            r == self.spec_radius_x2(),
    {
        match self {
            ResizeAlgorithm::Nearest => 1,
            ResizeAlgorithm::Box => 1,
            ResizeAlgorithm::Bilinear => 2,
            ResizeAlgorithm::Hamming => 2,
            ResizeAlgorithm::Bicubic => 4,
            ResizeAlgorithm::Mitchell => 4,
            ResizeAlgorithm::Lanczos3 => 6,
        }
    }

    /// Nearest always picks one source sample directly; Box degenerates to
    /// the same selection when not downscaling.
    pub open spec fn spec_point_samples(self, src: int, dst: int) -> bool {
        self == ResizeAlgorithm::Nearest || (self == ResizeAlgorithm::Box && src <= dst)
    }
}

pub open spec fn spec_iabs(x: int) -> int {
    if x < 0 {
        -x
    } else {
        x
    }
}

/// Truncating division by a positive divisor: rounds toward zero, like
/// Rust's `/` on machine integers.
pub open spec fn fp_div(n: int, d: int) -> int {
    if n >= 0 {
        n / d
    } else {
        -((-n) / d)
    }
}

/// Taylor evaluation of `sin(pi * v / 4096)` for `v` in `[0, 2048]`, clamped
/// into `[0, 4096]`.
pub open spec fn spec_sin_core(v: int) -> int {
    let t = (12868 * v) / 4096;
    let t2 = (t * t) / 4096;
    let t3 = (t2 * t) / 4096;
    let t5 = (t3 * t2) / 4096;
    let t7 = (t5 * t2) / 4096;
    let raw = t - t3 / 6 + t5 / 120 - t7 / 5040;
    if raw < 0 {
        0
    } else if raw > 4096 {
        4096
    } else {
        raw
    }
}

/// `sin(pi * u / 4096)` for `u` in `[0, 4096)`, by symmetry about `u = 2048`.
pub open spec fn spec_sin_half(u: int) -> int {
    if u <= 2048 {
        spec_sin_core(u)
    } else {
        spec_sin_core(4096 - u)
    }
}

/// `sin(pi * x / 4096)` for `x >= 0`, by periodicity; in `[-4096, 4096]`.
pub open spec fn spec_sin_pi(x: int) -> int {
    let u = x % 8192;
    if u < 4096 {
        spec_sin_half(u)
    } else {
        -spec_sin_half(u - 4096)
    }
}

/// `cos(pi * x / 4096)` for `x >= 0`, as a shifted sine.
pub open spec fn spec_cos_pi(x: int) -> int {
    spec_sin_pi(x + 2048)
}

/// `sinc(x) = sin(pi x) / (pi x)` in fixed point, for `x >= 0`; 4096 at 0,
/// clamped into `[-4096, 4096]`.
pub open spec fn spec_sinc(x: int) -> int {
    if x == 0 {
        4096
    } else {
        let den = (12868 * x) / 4096;
        let s = spec_sin_pi(x);
        let mag = (spec_iabs(s) * 4096) / den;
        let mag_c = if mag > 4096 {
            4096
        } else {
            mag
        };
        if s < 0 {
            -mag_c
        } else {
            mag_c
        }
    }
}

/// The Hamming window `0.54 + 0.46 cos(pi x)` in fixed point, for `x >= 0`.
pub open spec fn spec_hamming_window(x: int) -> int {
    let cv = spec_cos_pi(x);
    if cv >= 0 {
        2212 + (1884 * cv) / 4096
    } else {
        2212 - (1884 * (-cv)) / 4096
    }
}

/// The raw (unclamped) kernel value at non-negative fixed-point offset `m`.
pub open spec fn spec_weight_raw(algo: ResizeAlgorithm, m: int) -> int {
    match algo {
        ResizeAlgorithm::Nearest => if 2 * m <= 4096 {
            4096
        } else {
            0
        },
        ResizeAlgorithm::Box => if 2 * m <= 4096 {
            4096
        } else {
            0
        },
        ResizeAlgorithm::Bilinear => if m <= 4096 {
            4096 - m
        } else {
            0
        },
        ResizeAlgorithm::Hamming => if m > 4096 {
            0
        } else if m == 0 {
            4096
        } else {
            let sv = spec_sinc(m);
            let win = spec_hamming_window(m);
            if sv >= 0 {
                (sv * win) / 4096
            } else {
                -(((-sv) * win) / 4096)
            }
        },
        ResizeAlgorithm::Bicubic => {
            let u2 = (m * m) / 4096;
            let u3 = (u2 * m) / 4096;
            if m < 4096 {
                fp_div(3 * u3 - 5 * u2 + 8192, 2)
            } else if m < 8192 {
                fp_div(5 * u2 + 16384 - u3 - 8 * m, 2)
            } else {
                0
            }
        },
        ResizeAlgorithm::Mitchell => {
            let u2 = (m * m) / 4096;
            let u3 = (u2 * m) / 4096;
            if m < 4096 {
                fp_div(21 * u3 - 36 * u2 + 65536, 18)
            } else if m < 8192 {
                fp_div(36 * u2 + 131072 - 7 * u3 - 60 * m, 18)
            } else {
                0
            }
        },
        ResizeAlgorithm::Lanczos3 => {
            if m >= 12288 {
                0
            } else if m == 0 {
                4096
            } else {
                let a = spec_sinc(m);
                let b = spec_sinc(m / 3);
                let mag = (spec_iabs(a) * spec_iabs(b)) / 4096;
                if (a < 0) != (b < 0) {
                    -mag
                } else {
                    mag
                }
            }
        },
    }
}

/// The kernel value of `algo` at signed fixed-point offset `x` (4096 is one
/// pixel): symmetric in `x`, zero outside the support, clamped into
/// `[-8192, 8192]`.
pub open spec fn weight_fp(algo: ResizeAlgorithm, x: int) -> int {
    let w = spec_weight_raw(algo, spec_iabs(x));
    if w < -8192 {
        -8192
    } else if w > 8192 {
        8192
    } else {
        w
    }
}

/// A product of bounded non-negative factors is bounded by the product of
/// the bounds.
pub proof fn lemma_mul_le(a: int, b: int, ca: int, cb: int) by (nonlinear_arith)
    requires
        0 <= a <= ca,
        0 <= b <= cb,
    ensures
        0 <= a * b <= ca * cb,
{
}

/// A quotient of a bounded product is bounded by the quotient of the bounds.
pub proof fn lemma_mul_div_bound(a: int, b: int, ca: int, cb: int, d: int)
    requires
        0 <= a <= ca,
        0 <= b <= cb,
        1 <= d,
    ensures
        0 <= a * b <= ca * cb,
        0 <= (a * b) / d <= (ca * cb) / d,
{
    lemma_mul_le(a, b, ca, cb);
    vstd::arithmetic::div_mod::lemma_div_is_ordered(a * b, ca * cb, d);
    vstd::arithmetic::div_mod::lemma_div_pos_is_pos(a * b, d);
}

fn sin_core(v: u64) -> (r: u64)
    requires
        v <= 2048,
    ensures
        r == spec_sin_core(v as int),
        r <= 4096,
{
    let t: u64 = (12868 * v) / 4096;
    proof {
        lemma_mul_div_bound(t as int, t as int, 6434, 6434, 4096);
    }
    let t2: u64 = (t * t) / 4096;
    proof {
        lemma_mul_div_bound(t2 as int, t as int, 10107, 6434, 4096);
    }
    let t3: u64 = (t2 * t) / 4096;
    proof {
        lemma_mul_div_bound(t3 as int, t2 as int, 15877, 10107, 4096);
    }
    let t5: u64 = (t3 * t2) / 4096;
    proof {
        lemma_mul_div_bound(t5 as int, t2 as int, 39180, 10107, 4096);
    }
    let t7: u64 = (t5 * t2) / 4096;
    let raw: i64 = t as i64 - (t3 / 6) as i64 + (t5 / 120) as i64 - (t7 / 5040) as i64;
    if raw < 0 {
        0
    } else if raw > 4096 {
        4096
    } else {
        raw as u64
    }
}

fn sin_pi(x: u64) -> (r: i64)
    requires
        x <= 1_000_000,
    ensures
        r == spec_sin_pi(x as int),
        -4096 <= r <= 4096,
{
    let u: u64 = x % 8192;
    if u < 4096 {
        if u <= 2048 {
            sin_core(u) as i64
        } else {
            sin_core(4096 - u) as i64
        }
    } else {
        let u2: u64 = u - 4096;
        if u2 <= 2048 {
            -(sin_core(u2) as i64)
        } else {
            -(sin_core(4096 - u2) as i64)
        }
    }
}

fn cos_pi(x: u64) -> (r: i64)
    requires
        x <= 900_000,
    ensures
        r == spec_cos_pi(x as int),
        -4096 <= r <= 4096,
{
    sin_pi(x + 2048)
}

fn sinc(x: u64) -> (r: i64)
    requires
        x <= 20000,
    ensures
        r == spec_sinc(x as int),
        -4096 <= r <= 4096,
{
    if x == 0 {
        4096
    } else {
        let den: u64 = (12868 * x) / 4096;
        proof {
            vstd::arithmetic::div_mod::lemma_div_is_ordered(12868, 12868 * x as int, 4096);
        }
        let s: i64 = sin_pi(x);
        let smag: u64 = if s < 0 {
            (-s) as u64
        } else {
            s as u64
        };
        let mag: u64 = (smag * 4096) / den;
        let mag_c: i64 = if mag > 4096 {
            4096
        } else {
            mag as i64
        };
        if s < 0 {
            -mag_c
        } else {
            mag_c
        }
    }
}

fn hamming_window(x: u64) -> (r: i64)
    requires
        x <= 4096,
    ensures
        r == spec_hamming_window(x as int),
        0 <= r <= 4096,
{
    let cv: i64 = cos_pi(x);
    if cv >= 0 {
        2212 + ((1884 * (cv as u64)) / 4096) as i64
    } else {
        2212 - ((1884 * ((-cv) as u64)) / 4096) as i64
    }
}

/// Truncating division by a positive divisor, as `fp_div` specifies.
fn fp_div_exec(n: i64, d: i64) -> (r: i64)
    requires
        1 <= d <= 100,
        -0x100_0000_0000 <= n <= 0x100_0000_0000,
    ensures
        r == fp_div(n as int, d as int),
{
    if n >= 0 {
        ((n as u64) / (d as u64)) as i64
    } else {
        -((((-n) as u64) / (d as u64)) as i64)
    }
}

/// The kernel value of `algo` at fixed-point offset `x`.
pub fn weight(algo: ResizeAlgorithm, x: i64) -> (r: i64)
    requires
        -20000 <= x <= 20000,
    ensures
        r == weight_fp(algo, x as int),
        -8192 <= r <= 8192,
{
    let m: u64 = if x < 0 {
        (-x) as u64
    } else {
        x as u64
    };
    let w: i64 = match algo {
        ResizeAlgorithm::Nearest => if 2 * m <= 4096 {
            4096
        } else {
            0
        },
        ResizeAlgorithm::Box => if 2 * m <= 4096 {
            4096
        } else {
            0
        },
        ResizeAlgorithm::Bilinear => if m <= 4096 {
            4096 - m as i64
        } else {
            0
        },
        ResizeAlgorithm::Hamming => {
            if m > 4096 {
                0
            } else if m == 0 {
                4096
            } else {
                let sv: i64 = sinc(m);
                let win: i64 = hamming_window(m);
                proof {
                    lemma_mul_div_bound(spec_iabs(sv as int), win as int, 4096, 4096, 4096);
                }
                if sv >= 0 {
                    (((sv as u64) * (win as u64)) / 4096) as i64
                } else {
                    -(((((-sv) as u64) * (win as u64)) / 4096) as i64)
                }
            }
        },
        ResizeAlgorithm::Bicubic => {
            proof {
                lemma_mul_div_bound(m as int, m as int, 20000, 20000, 4096);
            }
            let u2: u64 = (m * m) / 4096;
            proof {
                lemma_mul_div_bound(u2 as int, m as int, 97657, 20000, 4096);
            }
            let u3: u64 = (u2 * m) / 4096;
            if m < 4096 {
                fp_div_exec(3 * (u3 as i64) - 5 * (u2 as i64) + 8192, 2)
            } else if m < 8192 {
                fp_div_exec(5 * (u2 as i64) + 16384 - u3 as i64 - 8 * (m as i64), 2)
            } else {
                0
            }
        },
        ResizeAlgorithm::Mitchell => {
            proof {
                lemma_mul_div_bound(m as int, m as int, 20000, 20000, 4096);
            }
            let u2: u64 = (m * m) / 4096;
            proof {
                lemma_mul_div_bound(u2 as int, m as int, 97657, 20000, 4096);
            }
            let u3: u64 = (u2 * m) / 4096;
            if m < 4096 {
                fp_div_exec(21 * (u3 as i64) - 36 * (u2 as i64) + 65536, 18)
            } else if m < 8192 {
                fp_div_exec(36 * (u2 as i64) + 131072 - 7 * (u3 as i64) - 60 * (m as i64), 18)
            } else {
                0
            }
        },
        ResizeAlgorithm::Lanczos3 => {
            if m >= 12288 {
                0
            } else if m == 0 {
                4096
            } else {
                let a: i64 = sinc(m);
                let b: i64 = sinc(m / 3);
                let amag: u64 = if a < 0 {
                    (-a) as u64
                } else {
                    a as u64
                };
                let bmag: u64 = if b < 0 {
                    (-b) as u64
                } else {
                    b as u64
                };
                proof {
                    lemma_mul_div_bound(amag as int, bmag as int, 4096, 4096, 4096);
                }
                let mag: i64 = ((amag * bmag) / 4096) as i64;
                if (a < 0) != (b < 0) {
                    -mag
                } else {
                    mag
                }
            }
        },
    };
    if w < -8192 {
        -8192
    } else if w > 8192 {
        8192
    } else {
        w
    }
}

/// Every kernel is symmetric: the weight at `x` equals the weight at `-x`.
pub proof fn lemma_weight_symmetric(algo: ResizeAlgorithm, x: int)
    ensures
        weight_fp(algo, x) == weight_fp(algo, -x),
{
}

/// Every kernel vanishes outside its support radius.
pub proof fn lemma_weight_outside_support(algo: ResizeAlgorithm, x: int)
    requires
        2 * spec_iabs(x) > algo.spec_radius_x2() * 4096,
    ensures
        weight_fp(algo, x) == 0,
{
}

} // verus!
