//! Vectors, rays and the small scalar helpers the renderer shares.
//!
//! Components are fixed-point scalars (see `fixed`), and every operation is
//! pinned to the exact truncating formula it computes.
use crate::fixed::{
    clamped, div_trunc, fdiv, fmul, fsqrt, is_isqrt, isqrt_u128, lemma_fmul_le,
    lemma_mul_product_bound, lemma_tdiv_bound, lemma_tdiv_fundamental, tdiv, ONE, RAY_MAX, T_MAX,
};
use crate::helpers::{random_signed_scalar};
use vstd::prelude::*;

verus! {

/// An ordered triple of fixed-point scalars: point, direction or color
/// triple, as the caller decides.
#[derive(Clone, Copy, Debug, PartialEq, Eq, Structural)]
pub struct Vec3 {
    pub x: i64,
    pub y: i64,
    pub z: i64,
}

/// Origin plus direction; immutable once constructed.
#[derive(Clone, Copy, Debug, PartialEq, Eq, Structural)]
pub struct Ray {
    pub origin: Vec3,
    pub dir: Vec3,
}

/// Cap under which the componentwise operations below are overflow-free.
pub const VEC_MAX: i64 = 0x10_0000_0000;

impl Vec3 {
    /// Every component lies in `[-m, m]`.
    pub open spec fn bounded(self, m: int) -> bool {
        &&& -m <= self.x <= m
        &&& -m <= self.y <= m
        &&& -m <= self.z <= m
    }

    /// The component selected by axis index 0, 1 or 2.
    pub open spec fn axis_spec(self, a: int) -> int {
        if a == 0 {
            self.x as int
        } else if a == 1 {
            self.y as int
        } else {
            self.z as int
        }
    }

    pub fn new(x: i64, y: i64, z: i64) -> (r: Vec3)
        ensures
            r == (Vec3 { x, y, z }),
    {
        Vec3 { x, y, z }
    }

    pub fn up() -> (r: Vec3)
        ensures
            r == (Vec3 { x: 0i64, y: ONE, z: 0i64 }),
    {
        Vec3 { x: 0, y: ONE, z: 0 }
    }

    pub fn right() -> (r: Vec3)
        ensures
            r == (Vec3 { x: ONE, y: 0i64, z: 0i64 }),
    {
        Vec3 { x: ONE, y: 0, z: 0 }
    }

    pub fn forward() -> (r: Vec3)
        ensures
            r == (Vec3 { x: 0i64, y: 0i64, z: ONE }),
    {
        Vec3 { x: 0, y: 0, z: ONE }
    }

    pub fn from_scalar(scalar: i64) -> (r: Vec3)
        ensures
            r == (Vec3 { x: scalar, y: scalar, z: scalar }),
    {
        Vec3 { x: scalar, y: scalar, z: scalar }
    }

    pub fn zero() -> (r: Vec3)
        ensures
            r == (Vec3 { x: 0i64, y: 0i64, z: 0i64 }),
    {
        Vec3 { x: 0, y: 0, z: 0 }
    }

    /// The component selected by axis index 0, 1 or 2.
    pub fn axis(self, a: usize) -> (r: i64)
        requires
            a < 3,
        ensures
            r == self.axis_spec(a as int),
    {
        if a == 0 {
            self.x
        } else if a == 1 {
            self.y
        } else {
            self.z
        }
    }

    /// Componentwise sum.
    pub fn plus(self, rhs: Vec3) -> (r: Vec3)
        requires
            self.bounded(VEC_MAX as int),
            rhs.bounded(VEC_MAX as int),
        ensures
            r.x == self.x + rhs.x,
            r.y == self.y + rhs.y,
            r.z == self.z + rhs.z,
    {
        Vec3 { x: self.x + rhs.x, y: self.y + rhs.y, z: self.z + rhs.z }
    }

    /// Componentwise difference.
    pub fn minus(self, rhs: Vec3) -> (r: Vec3)
        requires
            self.bounded(VEC_MAX as int),
            rhs.bounded(VEC_MAX as int),
        ensures
            r.x == self.x - rhs.x,
            r.y == self.y - rhs.y,
            r.z == self.z - rhs.z,
    {
        Vec3 { x: self.x - rhs.x, y: self.y - rhs.y, z: self.z - rhs.z }
    }

    /// Componentwise negation.
    pub fn negated(self) -> (r: Vec3)
        requires
            self.bounded(VEC_MAX as int),
        ensures
            r.x == -self.x,
            r.y == -self.y,
            r.z == -self.z,
    {
        Vec3 { x: -self.x, y: -self.y, z: -self.z }
    }

    /// Scale by a fixed-point scalar.
    pub fn scaled(self, s: i64) -> (r: Vec3)
        requires
            self.bounded(VEC_MAX as int),
            -VEC_MAX <= s <= VEC_MAX,
        ensures
            r.x == fmul(self.x as int, s as int),
            r.y == fmul(self.y as int, s as int),
            r.z == fmul(self.z as int, s as int),
    {
        proof {
            lemma_fmul_le(self.x as int, s as int, VEC_MAX as int, VEC_MAX as int, 0x100_0000_0000_0000);
            lemma_fmul_le(self.y as int, s as int, VEC_MAX as int, VEC_MAX as int, 0x100_0000_0000_0000);
            lemma_fmul_le(self.z as int, s as int, VEC_MAX as int, VEC_MAX as int, 0x100_0000_0000_0000);
        }
        let x = div_trunc((self.x as i128) * (s as i128), ONE as i128) as i64;
        let y = div_trunc((self.y as i128) * (s as i128), ONE as i128) as i64;
        let z = div_trunc((self.z as i128) * (s as i128), ONE as i128) as i64;
        Vec3 { x, y, z }
    }

    /// The fixed-point dot product, as `sdot` states it.
    pub fn dot(self, rhs: Vec3) -> (r: i64)
        requires
            self.bounded(VEC_MAX as int),
            rhs.bounded(VEC_MAX as int),
        ensures
            r == sdot(self, rhs),
    {
        proof {
            lemma_fmul_le(self.x as int, rhs.x as int, VEC_MAX as int, VEC_MAX as int, 0x100_0000_0000_0000);
            lemma_fmul_le(self.y as int, rhs.y as int, VEC_MAX as int, VEC_MAX as int, 0x100_0000_0000_0000);
            lemma_fmul_le(self.z as int, rhs.z as int, VEC_MAX as int, VEC_MAX as int, 0x100_0000_0000_0000);
        }
        let px = div_trunc((self.x as i128) * (rhs.x as i128), ONE as i128) as i64;
        let py = div_trunc((self.y as i128) * (rhs.y as i128), ONE as i128) as i64;
        let pz = div_trunc((self.z as i128) * (rhs.z as i128), ONE as i128) as i64;
        px + py + pz
    }

    /// The fixed-point cross product.
    pub fn cross(self, rhs: Vec3) -> (r: Vec3)
        requires
            self.bounded(VEC_MAX as int),
            rhs.bounded(VEC_MAX as int),
        ensures
            r.x == fmul(self.y as int, rhs.z as int) - fmul(rhs.y as int, self.z as int),
            r.y == fmul(self.z as int, rhs.x as int) - fmul(rhs.z as int, self.x as int),
            r.z == fmul(self.x as int, rhs.y as int) - fmul(rhs.x as int, self.y as int),
    {
        proof {
            lemma_fmul_le(self.y as int, rhs.z as int, VEC_MAX as int, VEC_MAX as int, 0x100_0000_0000_0000);
            lemma_fmul_le(rhs.y as int, self.z as int, VEC_MAX as int, VEC_MAX as int, 0x100_0000_0000_0000);
            lemma_fmul_le(self.z as int, rhs.x as int, VEC_MAX as int, VEC_MAX as int, 0x100_0000_0000_0000);
            lemma_fmul_le(rhs.z as int, self.x as int, VEC_MAX as int, VEC_MAX as int, 0x100_0000_0000_0000);
            lemma_fmul_le(self.x as int, rhs.y as int, VEC_MAX as int, VEC_MAX as int, 0x100_0000_0000_0000);
            lemma_fmul_le(rhs.x as int, self.y as int, VEC_MAX as int, VEC_MAX as int, 0x100_0000_0000_0000);
        }
        let x = (div_trunc((self.y as i128) * (rhs.z as i128), ONE as i128)
            - div_trunc((rhs.y as i128) * (self.z as i128), ONE as i128)) as i64;
        let y = (div_trunc((self.z as i128) * (rhs.x as i128), ONE as i128)
            - div_trunc((rhs.z as i128) * (self.x as i128), ONE as i128)) as i64;
        let z = (div_trunc((self.x as i128) * (rhs.y as i128), ONE as i128)
            - div_trunc((rhs.x as i128) * (self.y as i128), ONE as i128)) as i64;
        Vec3 { x, y, z }
    }

    /// Squared length, `sdot` of the vector with itself.
    pub fn length2(self) -> (r: i64)
        requires
            self.bounded(VEC_MAX as int),
        ensures
            r == slen2(self),
            r >= 0,
    {
        proof {
            lemma_slen2_nonneg(self);
        }
        self.dot(self)
    }

    /// Length: the fixed-point square root of the squared length.
    pub fn length(self) -> (r: i64)
        requires
            self.bounded(VEC_MAX as int),
        ensures
            r == fsqrt(slen2(self)),
            r >= 0,
            is_isqrt(slen2(self) * (ONE as int), r as int),
    {
        proof {
            lemma_slen2_nonneg(self);
        }
        let n2 = self.length2();
        let r = isqrt_u128((n2 as u128) * (ONE as u128));
        proof {
            let m = slen2(self) * (ONE as int);
            assert(m <= 0x8000_0000_0000_0000 * 0x1_0000) by (nonlinear_arith)
                requires
                    m == slen2(self) * (ONE as int),
                    0 <= slen2(self) <= 0x8000_0000_0000_0000,
                    (ONE as int) == 0x1_0000,
            ;
            assert((r as int) * (r as int) <= m);
            assert(r < 0x100_0000_0000) by (nonlinear_arith)
                requires
                    (r as int) * (r as int) <= 0x8000_0000_0000_0000 * 0x1_0000,
                    r >= 0,
            ;
        }
        r as i64
    }

    /// Divide each component by the vector's own length; a vector whose
    /// length truncates to zero is returned unchanged.
    pub fn normalized(self) -> (r: Vec3)
        requires
            self.bounded(RAY_MAX as int),
        ensures
            r == snormalized(self),
            r.bounded(3 * ONE as int),
    {
        proof {
            lemma_normalized_bound(self);
        }
        let l = self.length();
        if l == 0 {
            self
        } else {
            let x = div_trunc((self.x as i128) * (ONE as i128), l as i128) as i64;
            let y = div_trunc((self.y as i128) * (ONE as i128), l as i128) as i64;
            let z = div_trunc((self.z as i128) * (ONE as i128), l as i128) as i64;
            Vec3 { x, y, z }
        }
    }

    /// Replace the vector with its normalized form.
    pub fn normalize(&mut self)
        requires
            old(self).bounded(RAY_MAX as int),
        ensures
            *final(self) == snormalized(*old(self)),
    {
        let v = *self;
        *self = v.normalized();
    }

    /// Mirror about a surface normal: `v - 2 (v . n) n`, truncating.
    pub fn reflect(self, normal: Vec3) -> (r: Vec3)
        requires
            self.bounded(8 * ONE as int),
            normal.bounded(8 * ONE as int),
        ensures
            r == sreflect(self, normal),
            r.bounded(0x1000_0000),
    {
        let d = self.dot(normal);
        proof {
            lemma_sdot_le(self, normal, 0x8_0000, 0x8_0000, 0x40_0000);
            lemma_fmul_le(normal.x as int, 2 * d, 0x8_0000, 0x180_0000, 0xC00_0000);
            lemma_fmul_le(normal.y as int, 2 * d, 0x8_0000, 0x180_0000, 0xC00_0000);
            lemma_fmul_le(normal.z as int, 2 * d, 0x8_0000, 0x180_0000, 0xC00_0000);
        }
        let x = (self.x - div_trunc((normal.x as i128) * ((2 * d) as i128), ONE as i128) as i64);
        let y = (self.y - div_trunc((normal.y as i128) * ((2 * d) as i128), ONE as i128) as i64);
        let z = (self.z - div_trunc((normal.z as i128) * ((2 * d) as i128), ONE as i128) as i64);
        Vec3 { x, y, z }
    }
}

impl Vec3 {
    /// Snell refraction of a unit-scale direction about a unit-scale normal:
    /// the perpendicular part is `(v + n cos) * ratio`, the parallel part
    /// restores unit length, both truncating.
    pub fn refract(self, normal: Vec3, etai_over_etat: i64) -> (r: Vec3)
        requires
            self.bounded(4 * ONE as int),
            normal.bounded(2 * ONE as int),
            0 <= etai_over_etat <= 4 * ONE,
        ensures
            r == srefract(self, normal, etai_over_etat as int),
            r.bounded(RAY_MAX as int),
    {
        let neg = self.negated();
        let d = neg.dot(normal);
        proof {
            assert(neg == sneg(self));
            lemma_sdot_le(neg, normal, 0x4_0000, 0x2_0000, 0x8_0000);
        }
        let cos = if d > ONE {
            ONE
        } else {
            d
        };
        proof {
            lemma_fmul_le(normal.x as int, cos as int, 0x2_0000, 0x18_0000, 0x30_0000);
            lemma_fmul_le(normal.y as int, cos as int, 0x2_0000, 0x18_0000, 0x30_0000);
            lemma_fmul_le(normal.z as int, cos as int, 0x2_0000, 0x18_0000, 0x30_0000);
        }
        let ix = self.x + div_trunc((normal.x as i128) * (cos as i128), ONE as i128) as i64;
        let iy = self.y + div_trunc((normal.y as i128) * (cos as i128), ONE as i128) as i64;
        let iz = self.z + div_trunc((normal.z as i128) * (cos as i128), ONE as i128) as i64;
        proof {
            lemma_fmul_le(ix as int, etai_over_etat as int, 0x34_0000, 0x4_0000, 0xD0_0000);
            lemma_fmul_le(iy as int, etai_over_etat as int, 0x34_0000, 0x4_0000, 0xD0_0000);
            lemma_fmul_le(iz as int, etai_over_etat as int, 0x34_0000, 0x4_0000, 0xD0_0000);
        }
        let px = div_trunc((ix as i128) * (etai_over_etat as i128), ONE as i128) as i64;
        let py = div_trunc((iy as i128) * (etai_over_etat as i128), ONE as i128) as i64;
        let pz = div_trunc((iz as i128) * (etai_over_etat as i128), ONE as i128) as i64;
        proof {
            lemma_fmul_le(px as int, px as int, 0xD0_0000, 0xD0_0000, 0xA900_0000);
            lemma_fmul_le(py as int, py as int, 0xD0_0000, 0xD0_0000, 0xA900_0000);
            lemma_fmul_le(pz as int, pz as int, 0xD0_0000, 0xD0_0000, 0xA900_0000);
            lemma_square_nonneg(px as int);
            lemma_square_nonneg(py as int);
            lemma_square_nonneg(pz as int);
            lemma_tdiv_bound((px as int) * (px as int), ONE as int, (px as int) * (px as int));
            lemma_tdiv_bound((py as int) * (py as int), ONE as int, (py as int) * (py as int));
            lemma_tdiv_bound((pz as int) * (pz as int), ONE as int, (pz as int) * (pz as int));
        }
        let l2 = div_trunc((px as i128) * (px as i128), ONE as i128) as i64 + div_trunc(
            (py as i128) * (py as i128),
            ONE as i128,
        ) as i64 + div_trunc((pz as i128) * (pz as i128), ONE as i128) as i64;
        let k0 = ONE - l2;
        let k0abs = if k0 >= 0 {
            k0
        } else {
            -k0
        };
        let ku = isqrt_u128((k0abs as u128) * (ONE as u128));
        proof {
            assert((ku as int) * (ku as int) <= (k0abs as int) * 65536);
            assert(ku <= 0x800_0000) by (nonlinear_arith)
                requires
                    (ku as int) * (ku as int) <= (k0abs as int) * 65536,
                    0 <= k0abs <= 0x1_FC00_0001,
                    ku >= 0,
            ;
        }
        let k = ku as i64;
        proof {
            lemma_fmul_le(normal.x as int, -k as int, 0x2_0000, 0x800_0000, 0x1000_0000);
            lemma_fmul_le(normal.y as int, -k as int, 0x2_0000, 0x800_0000, 0x1000_0000);
            lemma_fmul_le(normal.z as int, -k as int, 0x2_0000, 0x800_0000, 0x1000_0000);
        }
        let rx = px + div_trunc((normal.x as i128) * ((-k) as i128), ONE as i128) as i64;
        let ry = py + div_trunc((normal.y as i128) * ((-k) as i128), ONE as i128) as i64;
        let rz = pz + div_trunc((normal.z as i128) * ((-k) as i128), ONE as i128) as i64;
        Vec3 { x: rx, y: ry, z: rz }
    }
}

/// Componentwise negation, as a specification value.
pub open spec fn sneg(v: Vec3) -> Vec3 {
    Vec3 { x: (-v.x) as i64, y: (-v.y) as i64, z: (-v.z) as i64 }
}

/// What `refract` returns.
pub open spec fn srefract(v: Vec3, n: Vec3, ratio: int) -> Vec3 {
    let cos0 = sdot(sneg(v), n);
    let cos = if cos0 > ONE {
        ONE as int
    } else {
        cos0
    };
    let px = fmul(v.x + fmul(n.x as int, cos), ratio);
    let py = fmul(v.y + fmul(n.y as int, cos), ratio);
    let pz = fmul(v.z + fmul(n.z as int, cos), ratio);
    let l2 = fmul(px, px) + fmul(py, py) + fmul(pz, pz);
    let k0 = (ONE as int) - l2;
    let k = if k0 >= 0 {
        fsqrt(k0)
    } else {
        fsqrt(-k0)
    };
    Vec3 {
        x: (px + fmul(n.x as int, -k)) as i64,
        y: (py + fmul(n.y as int, -k)) as i64,
        z: (pz + fmul(n.z as int, -k)) as i64,
    }
}

/// Fixed-point dot product of two vectors.
pub open spec fn sdot(a: Vec3, b: Vec3) -> int {
    fmul(a.x as int, b.x as int) + fmul(a.y as int, b.y as int) + fmul(a.z as int, b.z as int)
}

/// Squared length of a vector.
pub open spec fn slen2(v: Vec3) -> int {
    sdot(v, v)
}

/// What `normalized` returns.
pub open spec fn snormalized(v: Vec3) -> Vec3 {
    let l = fsqrt(slen2(v));
    if l == 0 {
        v
    } else {
        Vec3 { x: fdiv(v.x as int, l) as i64, y: fdiv(v.y as int, l) as i64, z: fdiv(
            v.z as int,
            l,
        ) as i64 }
    }
}

/// What `reflect` returns.
pub open spec fn sreflect(v: Vec3, n: Vec3) -> Vec3 {
    let d = sdot(v, n);
    Vec3 {
        x: (v.x - fmul(n.x as int, 2 * d)) as i64,
        y: (v.y - fmul(n.y as int, 2 * d)) as i64,
        z: (v.z - fmul(n.z as int, 2 * d)) as i64,
    }
}

/// A square is non-negative, and so is a sum of rescaled squares.
pub proof fn lemma_slen2_nonneg(v: Vec3)
    ensures
        fmul(v.x as int, v.x as int) >= 0,
        fmul(v.y as int, v.y as int) >= 0,
        fmul(v.z as int, v.z as int) >= 0,
        slen2(v) >= 0,
{
    lemma_square_nonneg(v.x as int);
    lemma_square_nonneg(v.y as int);
    lemma_square_nonneg(v.z as int);
    lemma_tdiv_bound(v.x as int * v.x as int, ONE as int, v.x as int * v.x as int);
    lemma_tdiv_bound(v.y as int * v.y as int, ONE as int, v.y as int * v.y as int);
    lemma_tdiv_bound(v.z as int * v.z as int, ONE as int, v.z as int * v.z as int);
}

proof fn lemma_square_nonneg(a: int)
    ensures
        a * a >= 0,
{
    assert(a * a >= 0) by (nonlinear_arith);
}

/// The dot product of bounded vectors is bounded by thrice any `m` whose
/// scaling clears the plain product bound.
pub proof fn lemma_sdot_le(a: Vec3, b: Vec3, ma: int, mb: int, m: int)
    requires
        a.bounded(ma),
        b.bounded(mb),
        0 <= ma,
        0 <= mb,
        ma * mb <= m * (ONE as int),
        0 <= m,
    ensures
        -3 * m <= sdot(a, b) <= 3 * m,
{
    lemma_fmul_le(a.x as int, b.x as int, ma, mb, m);
    lemma_fmul_le(a.y as int, b.y as int, ma, mb, m);
    lemma_fmul_le(a.z as int, b.z as int, ma, mb, m);
}

/// `normalized` keeps every component within three units.
proof fn lemma_normalized_bound(v: Vec3)
    requires
        v.bounded(RAY_MAX as int),
    ensures
        fsqrt(slen2(v)) >= 1 ==> {
            let l = fsqrt(slen2(v));
            &&& -3 * (ONE as int) <= fdiv(v.x as int, l) <= 3 * (ONE as int)
            &&& -3 * (ONE as int) <= fdiv(v.y as int, l) <= 3 * (ONE as int)
            &&& -3 * (ONE as int) <= fdiv(v.z as int, l) <= 3 * (ONE as int)
        },
        snormalized(v).bounded(3 * ONE as int),
{
    lemma_slen2_nonneg(v);
    let n2 = slen2(v);
    let l = fsqrt(n2);
    crate::fixed::lemma_isqrt_exists(n2 * (ONE as int));
    assert(n2 * (ONE as int) >= 0) by (nonlinear_arith)
        requires
            n2 >= 0,
    ;
    if l == 0 {
        lemma_component_small(v.x as int, n2, v);
        lemma_component_small(v.y as int, n2, v);
        lemma_component_small(v.z as int, n2, v);
    } else {
        lemma_normalized_component(v.x as int, v);
        lemma_normalized_component(v.y as int, v);
        lemma_normalized_component(v.z as int, v);
    }
}

/// When the whole squared length truncates to zero, each component is tiny.
proof fn lemma_component_small(x: int, n2: int, v: Vec3)
    requires
        n2 == slen2(v),
        x == v.x || x == v.y || x == v.z,
        fsqrt(n2) == 0,
        n2 >= 0,
        fmul(x, x) >= 0,
        fmul(x, x) <= n2,
    ensures
        -256 < x < 256,
{
    crate::fixed::lemma_isqrt_exists(n2 * (ONE as int));
    assert(n2 * (ONE as int) < 1);
    assert(n2 == 0) by (nonlinear_arith)
        requires
            n2 * (ONE as int) < 1,
            n2 >= 0,
    ;
    lemma_tdiv_fundamental(x * x, ONE as int);
    lemma_square_nonneg(x);
    assert(x * x < ONE);
    assert(-256 < x < 256) by (nonlinear_arith)
        requires
            x * x < 65536,
    ;
}

/// For a vector with a positive truncated length, each component divided by
/// that length is at most three units.
proof fn lemma_normalized_component(x: int, v: Vec3)
    requires
        x == v.x || x == v.y || x == v.z,
        v.bounded(RAY_MAX as int),
        fsqrt(slen2(v)) >= 1,
    ensures
        -3 * (ONE as int) <= fdiv(x, fsqrt(slen2(v))) <= 3 * (ONE as int),
{
    let n2 = slen2(v);
    let l = fsqrt(n2);
    let s = ONE as int;
    lemma_slen2_nonneg(v);
    crate::fixed::lemma_isqrt_exists(n2 * s);
    assert(l * l <= n2 * s < (l + 1) * (l + 1));
    // n2 * ONE exceeds x * x - ONE, because truncation loses less than one
    // unit of the square.
    lemma_tdiv_fundamental(x * x, s);
    lemma_square_nonneg(x);
    assert(fmul(x, x) <= n2);
    assert(s * fmul(x, x) > x * x - s);
    assert(n2 * s >= fmul(x, x) * s) by (nonlinear_arith)
        requires
            fmul(x, x) <= n2,
            s > 0,
    ;
    assert(fmul(x, x) * s == s * fmul(x, x)) by (nonlinear_arith);
    assert(n2 * s > x * x - s);
    // l is at least 256, since n2 >= 1.
    assert(n2 >= 1) by (nonlinear_arith)
        requires
            l * l <= n2 * (ONE as int),
            l >= 1,
            n2 >= 0,
    ;
    assert(l >= 256) by (nonlinear_arith)
        requires
            n2 * (ONE as int) < (l + 1) * (l + 1),
            n2 >= 1,
            l >= 1,
    ;
    // |x| <= l + 256, else x * x would outgrow (l + 1)^2 + ONE.
    assert(-(l + 256) <= x <= l + 256) by (nonlinear_arith)
        requires
            (l + 1) * (l + 1) > x * x - (ONE as int),
            l >= 1,
    ;
    // And then x * ONE / l is at most ONE + 256 * ONE / l <= 2 * ONE.
    lemma_mul_product_bound(x, s, l + 256, s);
    lemma_tdiv_bound(x * s, l, (l + 256) * s);
    assert(tdiv((l + 256) * s, l) <= 2 * s) by {
        lemma_tdiv_fundamental((l + 256) * s, l);
        let q = tdiv((l + 256) * s, l);
        assert(l * q <= (l + 256) * s);
        assert(q <= 2 * s) by (nonlinear_arith)
            requires
                l * q <= (l + 256) * s,
                l >= 256,
                s == 65536,
                q >= 0,
        ;
    }
    assert(tdiv((l + 256) * s, l) >= 0) by {
        lemma_tdiv_bound((l + 256) * s, l, (l + 256) * s);
        lemma_mul_product_bound(l + 256, s, l + 256, s);
    }
}

/// Linear interpolation `a * (1 - t) + b * t`, truncating.
pub open spec fn slerp(a: Vec3, b: Vec3, t: int) -> Vec3 {
    Vec3 {
        x: (fmul(a.x as int, (ONE as int) - t) + fmul(b.x as int, t)) as i64,
        y: (fmul(a.y as int, (ONE as int) - t) + fmul(b.y as int, t)) as i64,
        z: (fmul(a.z as int, (ONE as int) - t) + fmul(b.z as int, t)) as i64,
    }
}

/// Blend two vectors by a fixed-point weight.
pub fn lerp(a: Vec3, b: Vec3, t: i64) -> (r: Vec3)
    requires
        a.bounded(RAY_MAX as int),
        b.bounded(RAY_MAX as int),
        -4 * ONE <= t <= 4 * ONE,
    ensures
        r == slerp(a, b, t as int),
{
    proof {
        lemma_fmul_le(a.x as int, (ONE as int) - t, RAY_MAX as int, 5 * ONE as int, 5 * RAY_MAX as int);
        lemma_fmul_le(a.y as int, (ONE as int) - t, RAY_MAX as int, 5 * ONE as int, 5 * RAY_MAX as int);
        lemma_fmul_le(a.z as int, (ONE as int) - t, RAY_MAX as int, 5 * ONE as int, 5 * RAY_MAX as int);
        lemma_fmul_le(b.x as int, t as int, RAY_MAX as int, 5 * ONE as int, 5 * RAY_MAX as int);
        lemma_fmul_le(b.y as int, t as int, RAY_MAX as int, 5 * ONE as int, 5 * RAY_MAX as int);
        lemma_fmul_le(b.z as int, t as int, RAY_MAX as int, 5 * ONE as int, 5 * RAY_MAX as int);
    }
    let u = ONE - t;
    let x = (div_trunc((a.x as i128) * (u as i128), ONE as i128) + div_trunc(
        (b.x as i128) * (t as i128),
        ONE as i128,
    )) as i64;
    let y = (div_trunc((a.y as i128) * (u as i128), ONE as i128) + div_trunc(
        (b.y as i128) * (t as i128),
        ONE as i128,
    )) as i64;
    let z = (div_trunc((a.z as i128) * (u as i128), ONE as i128) + div_trunc(
        (b.z as i128) * (t as i128),
        ONE as i128,
    )) as i64;
    Vec3 { x, y, z }
}

/// Clamp `val` into `[min, max]`.
pub fn clamp(min: i64, max: i64, val: i64) -> (r: i64)
    ensures
        r == clamped(min as int, max as int, val as int),
{
    if val < min {
        return min;
    }
    if val > max {
        return max;
    }
    val
}

impl Ray {
    /// Origin and direction small enough for every intersection formula.
    pub open spec fn wf(self) -> bool {
        &&& self.origin.bounded(RAY_MAX as int)
        &&& self.dir.bounded(RAY_MAX as int)
    }

    pub fn new(origin: Vec3, dir: Vec3) -> (r: Ray)
        ensures
            r == (Ray { origin, dir }),
    {
        Ray { origin, dir }
    }

    /// The point `origin + t * dir`, truncating.
    pub fn at(&self, t: i64) -> (r: Vec3)
        requires
            self.wf(),
            -T_MAX <= t <= T_MAX,
        ensures
            r == sat(*self, t as int),
            r.bounded(0x2_0000_0000_0000),
    {
        proof {
            lemma_fmul_le(t as int, self.dir.x as int, T_MAX as int, RAY_MAX as int, 0x1_0000_0000_0000);
            lemma_fmul_le(t as int, self.dir.y as int, T_MAX as int, RAY_MAX as int, 0x1_0000_0000_0000);
            lemma_fmul_le(t as int, self.dir.z as int, T_MAX as int, RAY_MAX as int, 0x1_0000_0000_0000);
        }
        let x = (self.origin.x + div_trunc((t as i128) * (self.dir.x as i128), ONE as i128) as i64);
        let y = (self.origin.y + div_trunc((t as i128) * (self.dir.y as i128), ONE as i128) as i64);
        let z = (self.origin.z + div_trunc((t as i128) * (self.dir.z as i128), ONE as i128) as i64);
        Vec3 { x, y, z }
    }
}

/// The point a ray reaches at parameter `t`.
pub open spec fn sat(ray: Ray, t: int) -> Vec3 {
    Vec3 {
        x: (ray.origin.x + fmul(t, ray.dir.x as int)) as i64,
        y: (ray.origin.y + fmul(t, ray.dir.y as int)) as i64,
        z: (ray.origin.z + fmul(t, ray.dir.z as int)) as i64,
    }
}

impl Vec3 {
    /// A random vector drawn from the open unit ball; falls back to the
    /// origin when rejection sampling runs out of attempts.
    pub fn inside_unit_sphere() -> (r: Vec3)
        ensures
            r.bounded(ONE as int),
            slen2(r) < ONE,
    {
        let mut attempts: u32 = 0;
        while attempts < 64
            invariant
                true,
            decreases 64 - attempts,
        {
            let test = Vec3 {
                x: random_signed_scalar(),
                y: random_signed_scalar(),
                z: random_signed_scalar(),
            };
            if test.length2() < ONE {
                return test;
            }
            attempts = attempts + 1;
        }
        proof {
            lemma_slen2_nonneg(Vec3 { x: 0i64, y: 0i64, z: 0i64 });
            lemma_zero_len2();
        }
        Vec3 { x: 0, y: 0, z: 0 }
    }

    /// A random vector drawn from the open unit disc in the xy plane.
    pub fn on_unit_disc() -> (r: Vec3)
        ensures
            r.bounded(ONE as int),
            slen2(r) < ONE,
            r.z == 0,
    {
        let mut attempts: u32 = 0;
        while attempts < 64
            invariant
                true,
            decreases 64 - attempts,
        {
            let test = Vec3 { x: random_signed_scalar(), y: random_signed_scalar(), z: 0 };
            if test.length2() < ONE {
                return test;
            }
            attempts = attempts + 1;
        }
        proof {
            lemma_zero_len2();
        }
        Vec3 { x: 0, y: 0, z: 0 }
    }

    /// A random direction of roughly unit length.
    pub fn random_unit_vector() -> (r: Vec3)
        ensures
            r.bounded(3 * ONE as int),
            exists|v: Vec3|
                v.bounded(ONE as int) && slen2(v) < ONE && r == snormalized(v),
    {
        let v = Vec3::inside_unit_sphere();
        let r = v.normalized();
        proof {
            assert(v.bounded(ONE as int) && slen2(v) < ONE && r == snormalized(v));
        }
        r
    }

    /// A random vector from the unit ball, flipped onto the side of the
    /// given normal.
    pub fn random_in_hemisphere(normal: Vec3) -> (r: Vec3)
        requires
            normal.bounded(VEC_MAX as int),
        ensures
            r.bounded(ONE as int),
            slen2(r) < ONE,
            sdot(r, normal) >= 0,
    {
        let in_unit_sphere = Vec3::inside_unit_sphere();
        let d = in_unit_sphere.dot(normal);
        if d < 0 {
            let flipped = in_unit_sphere.negated();
            proof {
                lemma_sdot_negated(in_unit_sphere, flipped, normal);
                lemma_slen2_negated(in_unit_sphere, flipped);
            }
            return flipped;
        }
        in_unit_sphere
    }
}

/// The zero vector has zero squared length.
proof fn lemma_zero_len2()
    ensures
        slen2(Vec3 { x: 0i64, y: 0i64, z: 0i64 }) == 0,
{
    let z = Vec3 { x: 0i64, y: 0i64, z: 0i64 };
    assert(0int * 0int == 0) by (nonlinear_arith);
    crate::fixed::lemma_tdiv_neg(0, ONE as int);
}

/// Negating one argument negates a fixed-point dot product.
pub proof fn lemma_sdot_negated(a: Vec3, b: Vec3, n: Vec3)
    requires
        b.x == -a.x,
        b.y == -a.y,
        b.z == -a.z,
    ensures
        sdot(b, n) == -sdot(a, n),
{
    assert((b.x as int) * (n.x as int) == -((a.x as int) * (n.x as int))) by (nonlinear_arith)
        requires
            b.x == -a.x,
    ;
    assert((b.y as int) * (n.y as int) == -((a.y as int) * (n.y as int))) by (nonlinear_arith)
        requires
            b.y == -a.y,
    ;
    assert((b.z as int) * (n.z as int) == -((a.z as int) * (n.z as int))) by (nonlinear_arith)
        requires
            b.z == -a.z,
    ;
    crate::fixed::lemma_tdiv_neg((a.x as int) * (n.x as int), ONE as int);
    crate::fixed::lemma_tdiv_neg((a.y as int) * (n.y as int), ONE as int);
    crate::fixed::lemma_tdiv_neg((a.z as int) * (n.z as int), ONE as int);
}

/// Negation preserves the squared length.
pub proof fn lemma_slen2_negated(a: Vec3, b: Vec3)
    requires
        b.x == -a.x,
        b.y == -a.y,
        b.z == -a.z,
    ensures
        slen2(b) == slen2(a),
{
    assert((b.x as int) * (b.x as int) == (a.x as int) * (a.x as int)) by (nonlinear_arith)
        requires
            b.x == -a.x,
    ;
    assert((b.y as int) * (b.y as int) == (a.y as int) * (a.y as int)) by (nonlinear_arith)
        requires
            b.y == -a.y,
    ;
    assert((b.z as int) * (b.z as int) == (a.z as int) * (a.z as int)) by (nonlinear_arith)
        requires
            b.z == -a.z,
    ;
}

} // verus!
