//! Colors as fixed-point channel triples, and their 8-bit gamma encoding.
use crate::fixed::{
    clamped, div_trunc, fmul, fsqrt, isqrt_u128, lemma_fmul_le, lemma_tdiv_bound, tdiv, ONE,
};
use crate::maths::Vec3;
use vstd::prelude::*;

verus! {

/// A color channel triple in fixed-point units; 0 is black, `ONE` is full
/// intensity.
#[derive(Clone, Copy, Debug, PartialEq, Eq, Structural)]
pub struct Color {
    pub r: i64,
    pub g: i64,
    pub b: i64,
}

/// One low-dynamic-range pixel.
#[derive(Clone, Copy, Debug, PartialEq, Eq, Structural)]
pub struct RGB8 {
    pub r: u8,
    pub g: u8,
    pub b: u8,
}

/// Cap under which `plus` cannot overflow.
pub const COLOR_SUM_MAX: i64 = 0x4_0000_0000_0000;

/// Cap under which `modulate` cannot overflow.
pub const COLOR_MUL_MAX: i64 = 0x10_0000_0000;

/// Largest channel value that survives the gamma clamp below full white.
pub const CHANNEL_CLAMP: i64 = 65529;

pub fn black() -> (c: Color)
    ensures
        c == (Color { r: 0i64, g: 0i64, b: 0i64 }),
{
    Color { r: 0, g: 0, b: 0 }
}

pub fn white() -> (c: Color)
    ensures
        c == (Color { r: ONE, g: ONE, b: ONE }),
{
    Color { r: ONE, g: ONE, b: ONE }
}

/// One channel of the 8-bit encoding: average over the sample count, clamp,
/// take the gamma-2 root, and widen to 0..=255.
pub open spec fn gamma8(c: int, samples: int) -> int {
    tdiv(256 * fsqrt(clamped(0, CHANNEL_CLAMP as int, tdiv(c, samples))), ONE as int)
}

/// Channelwise sum, as a specification value.
pub open spec fn splus(a: Color, b: Color) -> Color {
    Color { r: (a.r + b.r) as i64, g: (a.g + b.g) as i64, b: (a.b + b.b) as i64 }
}

/// Channelwise fixed-point product, as a specification value.
pub open spec fn smodulate(a: Color, b: Color) -> Color {
    Color {
        r: fmul(a.r as int, b.r as int) as i64,
        g: fmul(a.g as int, b.g as int) as i64,
        b: fmul(a.b as int, b.b as int) as i64,
    }
}

impl Color {
    /// Every channel lies in `[lo, hi]`.
    pub open spec fn in_range(self, lo: int, hi: int) -> bool {
        &&& lo <= self.r <= hi
        &&& lo <= self.g <= hi
        &&& lo <= self.b <= hi
    }

    /// Reinterpret a vector as a color triple.
    pub fn from_vec3(v: Vec3) -> (c: Color)
        ensures
            c == (Color { r: v.x, g: v.y, b: v.z }),
    {
        Color { r: v.x, g: v.y, b: v.z }
    }

    pub fn new(r: i64, g: i64, b: i64) -> (c: Color)
        ensures
            c == (Color { r, g, b }),
    {
        Color { r, g, b }
    }

    /// Channelwise sum.
    pub fn plus(self, rhs: Color) -> (c: Color)
        requires
            self.in_range(-COLOR_SUM_MAX as int, COLOR_SUM_MAX as int),
            rhs.in_range(-COLOR_SUM_MAX as int, COLOR_SUM_MAX as int),
        ensures
            c.r == self.r + rhs.r,
            c.g == self.g + rhs.g,
            c.b == self.b + rhs.b,
    {
        Color { r: self.r + rhs.r, g: self.g + rhs.g, b: self.b + rhs.b }
    }

    /// Channelwise fixed-point product: attenuation applied to a color.
    pub fn modulate(self, rhs: Color) -> (c: Color)
        requires
            self.in_range(-COLOR_MUL_MAX as int, COLOR_MUL_MAX as int),
            rhs.in_range(-COLOR_MUL_MAX as int, COLOR_MUL_MAX as int),
        ensures
            c.r == fmul(self.r as int, rhs.r as int),
            c.g == fmul(self.g as int, rhs.g as int),
            c.b == fmul(self.b as int, rhs.b as int),
    {
        proof {
            lemma_fmul_le(self.r as int, rhs.r as int, 0x10_0000_0000, 0x10_0000_0000, 0x100_0000_0000_0000);
            lemma_fmul_le(self.g as int, rhs.g as int, 0x10_0000_0000, 0x10_0000_0000, 0x100_0000_0000_0000);
            lemma_fmul_le(self.b as int, rhs.b as int, 0x10_0000_0000, 0x10_0000_0000, 0x100_0000_0000_0000);
        }
        let r = div_trunc((self.r as i128) * (rhs.r as i128), ONE as i128) as i64;
        let g = div_trunc((self.g as i128) * (rhs.g as i128), ONE as i128) as i64;
        let b = div_trunc((self.b as i128) * (rhs.b as i128), ONE as i128) as i64;
        Color { r, g, b }
    }

    /// Average over the sample count and gamma-encode each channel.
    pub fn as_rgb8(self, samples_per_pixel: i64) -> (p: RGB8)
        requires
            samples_per_pixel >= 1,
            self.in_range(-COLOR_SUM_MAX as int, COLOR_SUM_MAX as int),
        ensures
            p.r == gamma8(self.r as int, samples_per_pixel as int),
            p.g == gamma8(self.g as int, samples_per_pixel as int),
            p.b == gamma8(self.b as int, samples_per_pixel as int),
    {
        let r = encode_channel(self.r, samples_per_pixel);
        let g = encode_channel(self.g, samples_per_pixel);
        let b = encode_channel(self.b, samples_per_pixel);
        RGB8 { r, g, b }
    }

    /// Blend two colors by a fixed-point weight, `a * (1 - t) + b * t`.
    pub fn lerp(a: Color, b: Color, t: i64) -> (c: Color)
        requires
            a.in_range(-COLOR_MUL_MAX as int, COLOR_MUL_MAX as int),
            b.in_range(-COLOR_MUL_MAX as int, COLOR_MUL_MAX as int),
            -4 * ONE <= t <= 4 * ONE,
        ensures
            c.r == fmul(a.r as int, (ONE as int) - t) + fmul(b.r as int, t as int),
            c.g == fmul(a.g as int, (ONE as int) - t) + fmul(b.g as int, t as int),
            c.b == fmul(a.b as int, (ONE as int) - t) + fmul(b.b as int, t as int),
    {
        proof {
            lemma_fmul_le(a.r as int, (ONE as int) - t, 0x10_0000_0000, 0x5_0000, 0x50_0000_0000);
            lemma_fmul_le(a.g as int, (ONE as int) - t, 0x10_0000_0000, 0x5_0000, 0x50_0000_0000);
            lemma_fmul_le(a.b as int, (ONE as int) - t, 0x10_0000_0000, 0x5_0000, 0x50_0000_0000);
            lemma_fmul_le(b.r as int, t as int, 0x10_0000_0000, 0x5_0000, 0x50_0000_0000);
            lemma_fmul_le(b.g as int, t as int, 0x10_0000_0000, 0x5_0000, 0x50_0000_0000);
            lemma_fmul_le(b.b as int, t as int, 0x10_0000_0000, 0x5_0000, 0x50_0000_0000);
        }
        let u = ONE - t;
        let r = (div_trunc((a.r as i128) * (u as i128), ONE as i128) + div_trunc(
            (b.r as i128) * (t as i128),
            ONE as i128,
        )) as i64;
        let g = (div_trunc((a.g as i128) * (u as i128), ONE as i128) + div_trunc(
            (b.g as i128) * (t as i128),
            ONE as i128,
        )) as i64;
        let b2 = (div_trunc((a.b as i128) * (u as i128), ONE as i128) + div_trunc(
            (b.b as i128) * (t as i128),
            ONE as i128,
        )) as i64;
        Color { r, g, b: b2 }
    }
}

/// Gamma-encode one channel; always lands in 0..=255.
fn encode_channel(c: i64, samples: i64) -> (v: u8)
    requires
        samples >= 1,
        -COLOR_SUM_MAX <= c <= COLOR_SUM_MAX,
    ensures
        v == gamma8(c as int, samples as int),
{
    proof {
        lemma_tdiv_bound(c as int, samples as int, COLOR_SUM_MAX as int);
    }
    let avg = div_trunc(c as i128, samples as i128) as i64;
    let cl = crate::maths::clamp(0, CHANNEL_CLAMP, avg);
    let q = isqrt_u128((cl as u128) * (ONE as u128));
    proof {
        assert((q as int) * (q as int) <= (cl as int) * 65536);
        assert(q <= 65535) by (nonlinear_arith)
            requires
                (q as int) * (q as int) <= (cl as int) * 65536,
                0 <= cl <= 65529,
                q >= 0,
        ;
        assert(tdiv(256 * (q as int), ONE as int) == (256 * (q as int)) / 65536);
    }
    let out = (256u64 * (q as u64)) / 65536u64;
    proof {
        vstd::arithmetic::div_mod::lemma_div_is_ordered(256 * (q as int), 16776960, 65536);
        vstd::arithmetic::div_mod::lemma_fundamental_div_mod(16776960, 65536);
        assert(out <= 255);
    }
    out as u8
}

} // verus!
