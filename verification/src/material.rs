//! Surface scattering models: diffuse, specular, refractive and emissive.
//!
//! The variant set is closed, so materials are a tagged union rather than
//! trait objects; records hold them by value.
use crate::color::Color;
use crate::fixed::{clamped, div_trunc, fmul, fsqrt, isqrt_u128, lemma_fmul_le,
    lemma_tdiv_bound, tdiv, ONE};
use crate::hittable::HitRecord;
use crate::maths::{sdot, slen2, sneg, snormalized, sreflect, srefract, Ray, Vec3};
use vstd::prelude::*;

verus! {

/// A diffuse surface with a base color.
#[derive(Clone, Copy, Debug, PartialEq, Eq, Structural)]
pub struct Lambertian {
    pub albedo: Color,
}

/// A specular surface; `fuzz` is the roughness perturbation radius.
#[derive(Clone, Copy, Debug, PartialEq, Eq, Structural)]
pub struct Metal {
    pub albedo: Color,
    pub fuzz: i64,
}

/// A refractive surface with a tint and an index of refraction.
#[derive(Clone, Copy, Debug, PartialEq, Eq, Structural)]
pub struct Dieletric {
    pub albedo: Color,
    pub index_of_refraction: i64,
}

/// An emissive surface: never scatters, only radiates.
#[derive(Clone, Copy, Debug, PartialEq, Eq, Structural)]
pub struct DiffuseLight {
    pub emit: Color,
}

/// Every surface model the renderer knows.
#[derive(Clone, Copy, Debug, PartialEq, Eq, Structural)]
pub enum Material {
    Lambertian(Lambertian),
    Metal(Metal),
    Dieletric(Dieletric),
    DiffuseLight(DiffuseLight),
}

/// Every channel within `[0, 1]`.
pub open spec fn color01(c: Color) -> bool {
    c.in_range(0, ONE as int)
}

/// Each channel clamped into `[0, 1]`.
pub open spec fn clamp01(c: Color) -> Color {
    Color {
        r: clamped(0, ONE as int, c.r as int) as i64,
        g: clamped(0, ONE as int, c.g as int) as i64,
        b: clamped(0, ONE as int, c.b as int) as i64,
    }
}

/// Clamp a color's channels into `[0, 1]`.
pub fn clamp_color(c: Color) -> (r: Color)
    ensures
        r == clamp01(c),
        color01(r),
{
    Color {
        r: crate::maths::clamp(0, ONE, c.r),
        g: crate::maths::clamp(0, ONE, c.g),
        b: crate::maths::clamp(0, ONE, c.b),
    }
}

/// Smallest index of refraction a dielectric is built with.
pub const IOR_MIN: i64 = 16384;

/// Largest index of refraction a dielectric is built with.
pub const IOR_MAX: i64 = 262144;

impl Material {
    /// Colors normalized and parameters within the ranges the scatter
    /// formulas are overflow-free on.
    pub open spec fn wf(self) -> bool {
        match self {
            Material::Lambertian(m) => color01(m.albedo),
            Material::Metal(m) => color01(m.albedo) && 0 <= m.fuzz <= ONE,
            Material::Dieletric(m) => color01(m.albedo) && IOR_MIN <= m.index_of_refraction
                <= IOR_MAX,
            Material::DiffuseLight(m) => color01(m.emit),
        }
    }

    /// The light the surface radiates: black unless it is a light.
    pub open spec fn emitted_spec(self) -> Color {
        match self {
            Material::DiffuseLight(m) => m.emit,
            _ => Color { r: 0i64, g: 0i64, b: 0i64 },
        }
    }

    /// The surface's base color.
    pub open spec fn albedo_spec(self) -> Color {
        match self {
            Material::Lambertian(m) => m.albedo,
            Material::Metal(m) => m.albedo,
            Material::Dieletric(m) => m.albedo,
            Material::DiffuseLight(m) => m.emit,
        }
    }

    /// An emissive surface never scatters.
    pub open spec fn is_light(self) -> bool {
        self is DiffuseLight
    }

    /// The radiance the surface emits.
    pub fn emitted(&self) -> (r: Color)
        ensures
            r == self.emitted_spec(),
    {
        match self {
            Material::DiffuseLight(m) => m.emit,
            _ => Color { r: 0, g: 0, b: 0 },
        }
    }

    /// The surface's base color.
    pub fn albedo(&self) -> (r: Color)
        ensures
            r == self.albedo_spec(),
    {
        match self {
            Material::Lambertian(m) => m.albedo,
            Material::Metal(m) => m.albedo,
            Material::Dieletric(m) => m.albedo,
            Material::DiffuseLight(m) => m.emit,
        }
    }
}

/// The diffuse scatter direction for a drawn unit vector: the normal plus
/// the draw, or the bare normal when the sum cancels to zero length.
pub open spec fn lambertian_dir(normal: Vec3, u: Vec3) -> Vec3 {
    let d = Vec3 {
        x: (normal.x + u.x) as i64,
        y: (normal.y + u.y) as i64,
        z: (normal.z + u.z) as i64,
    };
    if slen2(d) == 0 {
        normal
    } else {
        d
    }
}

/// The specular scatter direction for a drawn fuzz vector: the reflection
/// of the normalized incoming direction, perturbed by the scaled draw.
pub open spec fn metal_dir(in_dir: Vec3, normal: Vec3, fuzz: int, u: Vec3) -> Vec3 {
    let refl = sreflect(snormalized(in_dir), normal);
    Vec3 {
        x: (refl.x + fmul(u.x as int, fuzz)) as i64,
        y: (refl.y + fmul(u.y as int, fuzz)) as i64,
        z: (refl.z + fmul(u.z as int, fuzz)) as i64,
    }
}

/// Schlick's reflectance approximation, truncating.
pub open spec fn schlick(cosine: int, ref_idx: int) -> int {
    let r0 = tdiv(((ONE as int) - ref_idx) * (ONE as int), (ONE as int) + ref_idx);
    let r02 = fmul(r0, r0);
    let p = (ONE as int) - cosine;
    let p2 = fmul(p, p);
    let p4 = fmul(p2, p2);
    let p5 = fmul(p4, p);
    r02 + fmul((ONE as int) - r02, p5)
}

/// The refraction ratio a dielectric uses: the reciprocal of the index
/// when the front face was struck, the index itself otherwise.
pub open spec fn dielectric_ratio(ior: int, front: bool) -> int {
    if front {
        tdiv((ONE as int) * (ONE as int), ior)
    } else {
        ior
    }
}

/// The dielectric scatter direction for a drawn reflectance sample `q`:
/// reflect on total internal reflection or when the reflectance exceeds
/// the draw, refract otherwise.
pub open spec fn dielectric_dir(in_dir: Vec3, normal: Vec3, front: bool, ior: int, q: int) -> Vec3 {
    let unit = snormalized(in_dir);
    let ratio = dielectric_ratio(ior, front);
    let cos0 = sdot(sneg(unit), normal);
    let cos = if cos0 > ONE {
        ONE as int
    } else {
        cos0
    };
    let k = (ONE as int) - fmul(cos, cos);
    let sin = if k >= 0 {
        fsqrt(k)
    } else {
        0
    };
    if fmul(ratio, sin) > ONE || schlick(cos, ratio) > q {
        sreflect(unit, normal)
    } else {
        srefract(unit, normal, ratio)
    }
}

impl Material {
    /// Decide how the surface responds to a hit: the attenuation color and
    /// the outgoing ray, or nothing when the ray is absorbed.  Diffuse and
    /// refractive surfaces always scatter; metal absorbs a perturbed
    /// reflection that ends up inside the surface; a light never scatters.
    pub fn scatter(&self, ray: Ray, hit: HitRecord) -> (r: Option<(Color, Ray)>)
        requires
            self.wf(),
            ray.wf(),
            hit.wf(),
        ensures
            match *self {
                Material::Lambertian(m) => r matches Option::Some((att, sray)) && att == m.albedo
                    && sray.origin == hit.point && sray.wf() && (exists|u: Vec3|
                    u.bounded(3 * ONE as int) && sray.dir == lambertian_dir(hit.normal, u)),
                Material::Metal(m) => match r {
                    Option::Some((att, sray)) => att == m.albedo && sray.origin == hit.point
                        && sray.wf() && sdot(sray.dir, hit.normal) > 0 && (exists|u: Vec3|
                        u.bounded(ONE as int) && slen2(u) < ONE && sray.dir == metal_dir(
                            ray.dir,
                            hit.normal,
                            m.fuzz as int,
                            u,
                        )),
                    Option::None => exists|u: Vec3|
                        u.bounded(ONE as int) && slen2(u) < ONE && sdot(
                            metal_dir(ray.dir, hit.normal, m.fuzz as int, u),
                            hit.normal,
                        ) <= 0,
                },
                Material::Dieletric(m) => r matches Option::Some((att, sray)) && att == m.albedo
                    && sray.origin == hit.point && sray.wf() && (exists|q: int|
                    0 <= q < ONE && sray.dir == dielectric_dir(
                        ray.dir,
                        hit.normal,
                        hit.front_face,
                        m.index_of_refraction as int,
                        q,
                    )),
                Material::DiffuseLight(_) => r is None,
            },
            r matches Option::Some((att, sray)) ==> att.in_range(0, ONE as int) && sray.wf()
                && sray.origin == hit.point,
    {
        match self {
            Material::Lambertian(m) => {
                let u = Vec3::random_unit_vector();
                let mut scatter_direction = hit.normal.plus(u);
                if scatter_direction.length2() == 0 {
                    scatter_direction = hit.normal;
                }
                proof {
                    assert(scatter_direction == lambertian_dir(hit.normal, u));
                }
                Some((m.albedo, Ray { origin: hit.point, dir: scatter_direction }))
            },
            Material::Metal(m) => {
                let unit = ray.dir.normalized();
                let reflected = unit.reflect(hit.normal);
                let u = Vec3::inside_unit_sphere();
                proof {
                    lemma_fmul_le(u.x as int, m.fuzz as int, 0x1_0000, 0x1_0000, 0x1_0000);
                    lemma_fmul_le(u.y as int, m.fuzz as int, 0x1_0000, 0x1_0000, 0x1_0000);
                    lemma_fmul_le(u.z as int, m.fuzz as int, 0x1_0000, 0x1_0000, 0x1_0000);
                }
                let perturbed = u.scaled(m.fuzz);
                let dir = reflected.plus(perturbed);
                proof {
                    assert(dir == metal_dir(ray.dir, hit.normal, m.fuzz as int, u));
                }
                let d = dir.dot(hit.normal);
                if d > 0 {
                    Some((m.albedo, Ray { origin: hit.point, dir }))
                } else {
                    None
                }
            },
            Material::Dieletric(m) => {
                let front = hit.front_face;
                let ratio = if front {
                    div_trunc((ONE as i128) * (ONE as i128), m.index_of_refraction as i128) as i64
                } else {
                    m.index_of_refraction
                };
                proof {
                    lemma_tdiv_bound(
                        (ONE as int) * (ONE as int),
                        m.index_of_refraction as int,
                        (ONE as int) * (ONE as int),
                    );
                    if front {
                        vstd::arithmetic::div_mod::lemma_div_is_ordered_by_denominator(
                            (ONE as int) * (ONE as int),
                            IOR_MIN as int,
                            m.index_of_refraction as int,
                        );
                        crate::fixed::lemma_tdiv_exact(262144, 16384);
                        assert((ONE as int) * (ONE as int) == 262144 * 16384);
                    }
                }
                let unit = ray.dir.normalized();
                let nu = unit.negated();
                proof {
                    assert(nu == sneg(unit));
                    crate::maths::lemma_sdot_le(nu, hit.normal, 0x3_0000, 0x2_0000, 0x6_0000);
                }
                let c0 = nu.dot(hit.normal);
                let cos_theta = if c0 > ONE {
                    ONE
                } else {
                    c0
                };
                proof {
                    lemma_fmul_le(cos_theta as int, cos_theta as int, 0x12_0000, 0x12_0000, 0x144_0000);
                }
                let cc = div_trunc((cos_theta as i128) * (cos_theta as i128), ONE as i128) as i64;
                let k = ONE - cc;
                let sin_theta = if k >= 0 {
                    let s = isqrt_u128((k as u128) * (ONE as u128));
                    proof {
                        assert((s as int) * (s as int) <= (k as int) * 65536);
                        assert(s <= 0x80_0000) by (nonlinear_arith)
                            requires
                                (s as int) * (s as int) <= (k as int) * 65536,
                                0 <= k <= 0x145_0000,
                                s >= 0,
                        ;
                    }
                    s as i64
                } else {
                    0
                };
                proof {
                    lemma_fmul_le(ratio as int, sin_theta as int, 0x4_0000, 0x80_0000, 0x200_0000);
                }
                let rs = div_trunc((ratio as i128) * (sin_theta as i128), ONE as i128) as i64;
                let cannot_refract = rs > ONE;
                let q = crate::helpers::random_scalar();
                let refl_chance = reflectance(cos_theta, ratio);
                let direction = if cannot_refract || refl_chance > q {
                    unit.reflect(hit.normal)
                } else {
                    unit.refract(hit.normal, ratio)
                };
                proof {
                    assert(direction == dielectric_dir(
                        ray.dir,
                        hit.normal,
                        front,
                        m.index_of_refraction as int,
                        q as int,
                    ));
                }
                Some((m.albedo, Ray { origin: hit.point, dir: direction }))
            },
            Material::DiffuseLight(_) => None,
        }
    }
}

/// Schlick's reflectance, executably.
fn reflectance(cosine: i64, ref_idx: i64) -> (r: i64)
    requires
        -0x20_0000 <= cosine <= ONE,
        0 <= ref_idx <= 4 * ONE,
    ensures
        r == schlick(cosine as int, ref_idx as int),
{
    proof {
        lemma_tdiv_bound(
            ((ONE as int) - ref_idx) * (ONE as int),
            (ONE as int) + ref_idx,
            0x3_0000int * 0x1_0000,
        );
        vstd::arithmetic::mul::lemma_mul_inequality(
            (ONE as int) - ref_idx,
            0x3_0000,
            ONE as int,
        );
        vstd::arithmetic::mul::lemma_mul_inequality(
            -0x3_0000,
            (ONE as int) - ref_idx,
            ONE as int,
        );
        assert((-0x3_0000) * (ONE as int) == -(0x3_0000 * (ONE as int))) by (nonlinear_arith);
        vstd::arithmetic::div_mod::lemma_div_is_ordered_by_denominator(
            0x3_0000int * 0x1_0000,
            ONE as int,
            (ONE as int) + ref_idx,
        );
        crate::fixed::lemma_tdiv_exact(0x3_0000, ONE as int);
    }
    let r0 = div_trunc(
        (((ONE - ref_idx)) as i128) * (ONE as i128),
        (ONE + ref_idx) as i128,
    ) as i64;
    proof {
        lemma_fmul_le(r0 as int, r0 as int, 0x3_0000, 0x3_0000, 0x9_0000);
    }
    let r02 = div_trunc((r0 as i128) * (r0 as i128), ONE as i128) as i64;
    let p = ONE - cosine;
    proof {
        lemma_fmul_le(p as int, p as int, 0x21_0000, 0x21_0000, 0x441_0000);
        lemma_fmul_le(0x441_0000, 0x441_0000, 0x441_0000, 0x441_0000, 0x12_1881_0000);
    }
    let p2 = div_trunc((p as i128) * (p as i128), ONE as i128) as i64;
    proof {
        lemma_fmul_le(p2 as int, p2 as int, 0x441_0000, 0x441_0000, 0x12_1881_0000);
    }
    let p4 = div_trunc((p2 as i128) * (p2 as i128), ONE as i128) as i64;
    proof {
        lemma_fmul_le(p4 as int, p as int, 0x12_1881_0000, 0x21_0000, 0x255_28A1_0000);
    }
    let p5 = div_trunc((p4 as i128) * (p as i128), ONE as i128) as i64;
    proof {
        lemma_fmul_le(
            (ONE as int) - r02,
            p5 as int,
            0xA_0000,
            0x255_28A1_0000,
            0x1753_964A_0000,
        );
    }
    let tail = div_trunc(((ONE - r02) as i128) * (p5 as i128), ONE as i128) as i64;
    r02 + tail
}

impl Lambertian {
    /// A diffuse surface; the albedo is clamped into `[0, 1]`.
    pub fn create(albedo: Color) -> (r: Material)
        ensures
            r == Material::Lambertian(Lambertian { albedo: clamp01(albedo) }),
            r.wf(),
    {
        Material::Lambertian(Lambertian { albedo: clamp_color(albedo) })
    }
}

impl Metal {
    /// A specular surface; albedo and fuzz are clamped into `[0, 1]`.
    pub fn create(albedo: Color, fuzz: i64) -> (r: Material)
        ensures
            r == Material::Metal(
                Metal { albedo: clamp01(albedo), fuzz: clamped(0, ONE as int, fuzz as int) as i64 },
            ),
            r.wf(),
    {
        Material::Metal(Metal { albedo: clamp_color(albedo), fuzz: crate::maths::clamp(0, ONE, fuzz) })
    }
}

impl Dieletric {
    /// A refractive surface; the tint is clamped into `[0, 1]` and the index
    /// of refraction into `[1/4, 4]`, keeping the refraction ratio finite.
    pub fn create(albedo: Color, index_of_refraction: i64) -> (r: Material)
        ensures
            r == Material::Dieletric(
                Dieletric {
                    albedo: clamp01(albedo),
                    index_of_refraction: clamped(
                        IOR_MIN as int,
                        IOR_MAX as int,
                        index_of_refraction as int,
                    ) as i64,
                },
            ),
            r.wf(),
    {
        Material::Dieletric(
            Dieletric {
                albedo: clamp_color(albedo),
                index_of_refraction: crate::maths::clamp(IOR_MIN, IOR_MAX, index_of_refraction),
            },
        )
    }
}

impl DiffuseLight {
    /// An emissive surface; the radiance is clamped into `[0, 1]`.
    pub fn create(emit: Color) -> (r: Material)
        ensures
            r == Material::DiffuseLight(DiffuseLight { emit: clamp01(emit) }),
            r.wf(),
    {
        Material::DiffuseLight(DiffuseLight { emit: clamp_color(emit) })
    }
}

} // verus!
