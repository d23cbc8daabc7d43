//! The recursive radiance estimator, its auxiliary visualization passes,
//! and the randomness the scatter models draw from.
//!
//! The one outside call lives behind `rand_u64`; everything derived from it
//! is verified for every value the generator may hand back.
use crate::color::Color;
use crate::fixed::{fmul, lemma_fmul_attenuate, lemma_fmul_le, ONE, T_MAX};
use crate::hittable::Hittable;
use crate::maths::Ray;
use vstd::prelude::*;

verus! {

/// Lower bound of every scene query: a small positive offset that keeps a
/// scattered ray from re-hitting its own origin surface.
pub const HIT_EPS: i64 = 655;

/// Largest recursion budget `ray_color` accepts; keeps the accumulated
/// radiance within the fixed-point range.
pub const DEPTH_MAX: i32 = 0x4000;

/// Estimate the radiance arriving along a ray: black once the depth
/// budget is spent; the background when nothing is hit; otherwise the
/// surface's emission plus its attenuated recursive estimate, or the
/// emission alone when the surface absorbs the ray.
pub fn ray_color<T: Hittable>(ray: Ray, world: &T, background: Color, depth: i32) -> (r: Color)
    requires
        world.scene_wf(),
        ray.wf(),
        background.in_range(0, ONE as int),
        depth <= DEPTH_MAX,
    ensures
        depth <= 0 ==> r == (Color { r: 0i64, g: 0i64, b: 0i64 }),
        depth > 0 ==> match world.hit_spec(HIT_EPS as int, T_MAX as int, ray) {
            Option::Some(h) => {
                &&& h.material.is_light() ==> r == h.material.emitted_spec()
                &&& (r == h.material.emitted_spec() || exists|c: Color|
                    c.in_range(0, (depth as int - 1) * (ONE as int)) && r
                        == crate::color::splus(
                        h.material.emitted_spec(),
                        crate::color::smodulate(h.material.albedo_spec(), c),
                    ))
            },
            Option::None => r == background,
        },
        r.in_range(
            0,
            if depth <= 0 {
                0int
            } else {
                depth as int * (ONE as int)
            },
        ),
    decreases depth,
{
    if depth <= 0 {
        return Color { r: 0, g: 0, b: 0 };
    }
    let found = world.hit(HIT_EPS, T_MAX, &ray);
    proof {
        world.lemma_hit_spec_wf(HIT_EPS as int, T_MAX as int, ray);
        assert((depth - 1) as int * (ONE as int) + ONE == depth as int * (ONE as int))
            by (nonlinear_arith);
    }
    match found {
        None => background,
        Some(hit) => {
            let mat = hit.material;
            let emitted = mat.emitted();
            match mat.scatter(ray, hit) {
                Some((attenuation, scattered)) => {
                    let rec = ray_color(scattered, world, background, depth - 1);
                    proof {
                        lemma_fmul_attenuate(attenuation.r as int, rec.r as int);
                        lemma_fmul_attenuate(attenuation.g as int, rec.g as int);
                        lemma_fmul_attenuate(attenuation.b as int, rec.b as int);
                    }
                    let out = emitted.plus(attenuation.modulate(rec));
                    proof {
                        assert(attenuation == mat.albedo_spec());
                        assert(out == crate::color::splus(
                            mat.emitted_spec(),
                            crate::color::smodulate(mat.albedo_spec(), rec),
                        ));
                    }
                    out
                },
                None => emitted,
            }
        },
    }
}

/// The base color of whatever the ray first hits, or a vertical sky
/// gradient when it hits nothing; an auxiliary pass for denoising input.
pub fn hit_albedo<T: Hittable>(ray: Ray, world: &T) -> (r: Color)
    requires
        world.scene_wf(),
        ray.wf(),
        ray.dir.bounded(2 * ONE as int),
    ensures
        match world.hit_spec(HIT_EPS as int, T_MAX as int, ray) {
            Option::Some(h) => r == h.material.albedo_spec(),
            Option::None => ({
                let t = fmul(32768, ray.dir.y + ONE);
                &&& r.r == fmul(ONE as int, (ONE as int) - t) + fmul(32768, t)
                &&& r.g == fmul(ONE as int, (ONE as int) - t) + fmul(45875, t)
                &&& r.b == fmul(ONE as int, (ONE as int) - t) + fmul(ONE as int, t)
            }),
        },
{
    let found = world.hit(HIT_EPS, T_MAX, &ray);
    match found {
        Some(hit) => hit.material.albedo(),
        None => {
            proof {
                lemma_fmul_le(32768, (ray.dir.y + ONE) as int, 0x8000, 0x3_0000, 0x1_8000);
            }
            let t = crate::fixed::div_trunc(
                (32768i128) * ((ray.dir.y + ONE) as i128),
                ONE as i128,
            ) as i64;
            let c0 = Color { r: ONE, g: ONE, b: ONE };
            let c1 = Color { r: 32768, g: 45875, b: ONE };
            Color::lerp(c0, c1, t)
        },
    }
}

/// The surface normal of whatever the ray first hits, as a color triple;
/// black when it hits nothing.
pub fn hit_normal<T: Hittable>(ray: Ray, world: &T) -> (r: Color)
    requires
        world.scene_wf(),
        ray.wf(),
    ensures
        match world.hit_spec(HIT_EPS as int, T_MAX as int, ray) {
            Option::Some(h) => r == (Color { r: h.normal.x, g: h.normal.y, b: h.normal.z }),
            Option::None => r == (Color { r: 0i64, g: 0i64, b: 0i64 }),
        },
{
    let found = world.hit(HIT_EPS, T_MAX, &ray);
    match found {
        Some(hit) => Color::from_vec3(hit.normal),
        None => Color { r: 0, g: 0, b: 0 },
    }
}

/// Relies on rand::random: a machine word from the thread-local generator.
/// Nothing is promised of the value, so every caller is verified for all of
/// them.
#[verifier::external_body]
fn rand_u64() -> u64 {
    rand::random::<u64>()
}

/// A random scalar in `[0, 1)`, in fixed-point units.
pub fn random_scalar() -> (r: i64)
    ensures
        0 <= r < ONE,
{
    (rand_u64() % (ONE as u64)) as i64
}

/// A random scalar in `[-1, 1)`, in fixed-point units.
pub fn random_signed_scalar() -> (r: i64)
    ensures
        -ONE <= r < ONE,
{
    (rand_u64() % ((2 * ONE) as u64)) as i64 - ONE
}

/// A random choice among the three coordinate axes.
pub fn random_axis() -> (a: usize)
    ensures
        a < 3,
{
    (rand_u64() % 3) as usize
}

} // verus!
