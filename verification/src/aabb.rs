//! Axis-aligned bounding boxes with an exact slab test.
//!
//! `hit` decides precisely whether some fixed-point parameter `t` in the
//! queried range sends the ray into the box: the per-axis inequalities are
//! resolved by rounded integer division, so the test neither misses a
//! parameter that fits nor accepts a range with none.  The hierarchy in
//! `bvh` leans on the "never misses" direction to prune soundly.
//!
//! A zero direction component is an ordinary case, not an error: its slab
//! constrains nothing when the origin lies between the planes and rules
//! the ray out otherwise, which is the limit the reciprocal formulation
//! reaches through infinities.
use crate::fixed::{ceil_div, div_ceil, div_floor, lemma_mul_div_iff, ONE, T_MAX};
use crate::maths::{Ray, Vec3};
use vstd::prelude::*;

verus! {

/// Largest magnitude a box corner component may have.
pub const BOX_MAX: i64 = 0x2_0000_0000;

/// Minimum and maximum corner.
#[derive(Clone, Copy, Debug, PartialEq, Eq, Structural)]
pub struct Aabb {
    pub min: Vec3,
    pub max: Vec3,
}

/// One slab constraint: at parameter `t` the ray's coordinate on this axis,
/// scaled by `ONE`, lies between the scaled box bounds.
pub open spec fn axis_ok(lo: int, hi: int, o: int, d: int, t: int) -> bool {
    &&& (lo - o) * (ONE as int) <= t * d
    &&& t * d <= (hi - o) * (ONE as int)
}

/// All three slab constraints at parameter `t`.
pub open spec fn slab_ok(b: Aabb, ray: Ray, t: int) -> bool {
    &&& axis_ok(b.min.x as int, b.max.x as int, ray.origin.x as int, ray.dir.x as int, t)
    &&& axis_ok(b.min.y as int, b.max.y as int, ray.origin.y as int, ray.dir.y as int, t)
    &&& axis_ok(b.min.z as int, b.max.z as int, ray.origin.z as int, ray.dir.z as int, t)
}

/// What the slab test decides: some integer parameter in the queried range
/// satisfies all three slabs.
pub open spec fn aabb_hit_spec(b: Aabb, ray: Ray, tmin: int, tmax: int) -> bool {
    exists|t: int| tmin <= t <= tmax && #[trigger] slab_ok(b, ray, t)
}

impl Aabb {
    /// Corners bounded and ordered.
    pub open spec fn wf(self) -> bool {
        &&& self.min.bounded(BOX_MAX as int)
        &&& self.max.bounded(BOX_MAX as int)
        &&& self.min.x <= self.max.x
        &&& self.min.y <= self.max.y
        &&& self.min.z <= self.max.z
    }

    /// `inner` fits inside `outer` on every axis.
    pub open spec fn contained_in(self, outer: Aabb) -> bool {
        &&& outer.min.x <= self.min.x
        &&& outer.min.y <= self.min.y
        &&& outer.min.z <= self.min.z
        &&& self.max.x <= outer.max.x
        &&& self.max.y <= outer.max.y
        &&& self.max.z <= outer.max.z
    }

    pub fn new(min: Vec3, max: Vec3) -> (r: Aabb)
        ensures
            r == (Aabb { min, max }),
    {
        Aabb { min, max }
    }

    /// The zero-extent sentinel box at the origin.
    pub fn null_aabb() -> (r: Aabb)
        ensures
            r == (Aabb {
                min: Vec3 { x: 0i64, y: 0i64, z: 0i64 },
                max: Vec3 { x: 0i64, y: 0i64, z: 0i64 },
            }),
            r.wf(),
    {
        Aabb { min: Vec3::zero(), max: Vec3::zero() }
    }

    /// The smallest box holding both arguments: componentwise minimum of
    /// minima and maximum of maxima.
    pub fn combine(self, other: Aabb) -> (r: Aabb)
        requires
            self.wf(),
            other.wf(),
        ensures
            r == scombine(self, other),
            r.wf(),
            self.contained_in(r),
            other.contained_in(r),
            r.min.x == if self.min.x <= other.min.x { self.min.x } else { other.min.x },
            r.min.y == if self.min.y <= other.min.y { self.min.y } else { other.min.y },
            r.min.z == if self.min.z <= other.min.z { self.min.z } else { other.min.z },
            r.max.x == if self.max.x >= other.max.x { self.max.x } else { other.max.x },
            r.max.y == if self.max.y >= other.max.y { self.max.y } else { other.max.y },
            r.max.z == if self.max.z >= other.max.z { self.max.z } else { other.max.z },
    {
        let min = Vec3 {
            x: if self.min.x <= other.min.x { self.min.x } else { other.min.x },
            y: if self.min.y <= other.min.y { self.min.y } else { other.min.y },
            z: if self.min.z <= other.min.z { self.min.z } else { other.min.z },
        };
        let max = Vec3 {
            x: if self.max.x >= other.max.x { self.max.x } else { other.max.x },
            y: if self.max.y >= other.max.y { self.max.y } else { other.max.y },
            z: if self.max.z >= other.max.z { self.max.z } else { other.max.z },
        };
        Aabb { min, max }
    }

    /// The slab test: true exactly when some fixed-point parameter in
    /// `[tmin, tmax]` places the ray inside the box on all three axes.
    pub fn hit(&self, ray: &Ray, tmin: i64, tmax: i64) -> (r: bool)
        requires
            self.wf(),
            ray.wf(),
            -T_MAX <= tmin <= T_MAX,
            -T_MAX <= tmax <= T_MAX,
        ensures
            r == aabb_hit_spec(*self, *ray, tmin as int, tmax as int),
    {
        let (lo1, hi1) = axis_range(
            ray.origin.x,
            ray.dir.x,
            self.min.x,
            self.max.x,
            tmin,
            tmax,
        );
        let (lo2, hi2) = axis_range(ray.origin.y, ray.dir.y, self.min.y, self.max.y, lo1, hi1);
        let (lo3, hi3) = axis_range(ray.origin.z, ray.dir.z, self.min.z, self.max.z, lo2, hi2);
        proof {
            let b = *self;
            let rr = *ray;
            if lo3 <= hi3 {
                let t = lo3 as int;
                lemma_axis_interval(
                    b.min.z as int,
                    b.max.z as int,
                    rr.origin.z as int,
                    rr.dir.z as int,
                    lo2 as int,
                    hi2 as int,
                    t,
                );
                lemma_axis_interval(
                    b.min.y as int,
                    b.max.y as int,
                    rr.origin.y as int,
                    rr.dir.y as int,
                    lo1 as int,
                    hi1 as int,
                    t,
                );
                lemma_axis_interval(
                    b.min.x as int,
                    b.max.x as int,
                    rr.origin.x as int,
                    rr.dir.x as int,
                    tmin as int,
                    tmax as int,
                    t,
                );
                assert(tmin <= t <= tmax && slab_ok(b, rr, t));
            } else {
                assert(!aabb_hit_spec(b, rr, tmin as int, tmax as int)) by {
                    if aabb_hit_spec(b, rr, tmin as int, tmax as int) {
                        let t = choose|t: int|
                            tmin <= t <= tmax && #[trigger] slab_ok(b, rr, t);
                        lemma_axis_interval(
                            b.min.x as int,
                            b.max.x as int,
                            rr.origin.x as int,
                            rr.dir.x as int,
                            tmin as int,
                            tmax as int,
                            t,
                        );
                        lemma_axis_interval(
                            b.min.y as int,
                            b.max.y as int,
                            rr.origin.y as int,
                            rr.dir.y as int,
                            lo1 as int,
                            hi1 as int,
                            t,
                        );
                        lemma_axis_interval(
                            b.min.z as int,
                            b.max.z as int,
                            rr.origin.z as int,
                            rr.dir.z as int,
                            lo2 as int,
                            hi2 as int,
                            t,
                        );
                        assert(lo3 <= t <= hi3);
                    }
                }
            }
        }
        lo3 <= hi3
    }
}

/// What `combine` returns: the componentwise minimum of minima and
/// maximum of maxima.
pub open spec fn scombine(a: Aabb, b: Aabb) -> Aabb {
    Aabb {
        min: Vec3 {
            x: if a.min.x <= b.min.x { a.min.x } else { b.min.x },
            y: if a.min.y <= b.min.y { a.min.y } else { b.min.y },
            z: if a.min.z <= b.min.z { a.min.z } else { b.min.z },
        },
        max: Vec3 {
            x: if a.max.x >= b.max.x { a.max.x } else { b.max.x },
            y: if a.max.y >= b.max.y { a.max.y } else { b.max.y },
            z: if a.max.z >= b.max.z { a.max.z } else { b.max.z },
        },
    }
}

/// Combining is a bounding superset: for any boxes, the combined box
/// contains both inputs' corners — its minimum is at most either minimum
/// and its maximum at least either maximum, on every axis.
pub proof fn lemma_combine_superset(a: Aabb, b: Aabb)
    ensures
        a.contained_in(scombine(a, b)),
        b.contained_in(scombine(a, b)),
        scombine(a, b) == scombine(b, a),
{
}

/// Combining may group children in any order.
pub proof fn lemma_combine_associative(a: Aabb, b: Aabb, c: Aabb)
    ensures
        scombine(scombine(a, b), c) == scombine(a, scombine(b, c)),
{
}

/// A parameter that satisfies the slabs of a box satisfies those of any
/// box containing it.
pub proof fn lemma_slab_monotone(inner: Aabb, outer: Aabb, ray: Ray, t: int)
    requires
        inner.contained_in(outer),
        slab_ok(inner, ray, t),
    ensures
        slab_ok(outer, ray, t),
{
}

/// The parameter interval a single slab admits, intersected with a running
/// interval; an upside-down pair stands for the empty set.
pub open spec fn axis_interval(bmin: int, bmax: int, o: int, d: int, lo: int, hi: int) -> (
    int,
    int,
) {
    if d == 0 {
        if bmin <= o && o <= bmax {
            (lo, hi)
        } else {
            (1int, 0int)
        }
    } else if d > 0 {
        let alo = ceil_div((bmin - o) * (ONE as int), d);
        let ahi = ((bmax - o) * (ONE as int)) / d;
        (if alo > lo { alo } else { lo }, if ahi < hi { ahi } else { hi })
    } else {
        let alo = ceil_div((o - bmax) * (ONE as int), -d);
        let ahi = ((o - bmin) * (ONE as int)) / (-d);
        (if alo > lo { alo } else { lo }, if ahi < hi { ahi } else { hi })
    }
}

/// The interval `axis_interval` returns holds exactly the parameters of the
/// running interval that satisfy this axis's slab constraint.
pub proof fn lemma_axis_interval(bmin: int, bmax: int, o: int, d: int, lo: int, hi: int, t: int)
    ensures
        (lo <= t <= hi && axis_ok(bmin, bmax, o, d, t)) <==> {
            let iv = axis_interval(bmin, bmax, o, d, lo, hi);
            iv.0 <= t <= iv.1
        },
{
    if d == 0 {
        assert(t * 0 == 0) by (nonlinear_arith);
    } else if d > 0 {
        lemma_mul_div_iff(t, d, (bmin - o) * (ONE as int), (bmax - o) * (ONE as int));
    } else {
        lemma_mul_div_iff(t, -d, (o - bmax) * (ONE as int), (o - bmin) * (ONE as int));
        assert(t * (-d) == -(t * d)) by (nonlinear_arith);
        assert((o - bmax) * (ONE as int) == -((bmax - o) * (ONE as int))) by (nonlinear_arith);
        assert((o - bmin) * (ONE as int) == -((bmin - o) * (ONE as int))) by (nonlinear_arith);
    }
}

/// Intersect the running parameter interval `[lo, hi]` with the parameters
/// this axis admits, as `axis_interval` lays it out.
fn axis_range(o: i64, d: i64, bmin: i64, bmax: i64, lo: i64, hi: i64) -> (r: (i64, i64))
    requires
        -crate::fixed::RAY_MAX <= o <= crate::fixed::RAY_MAX,
        -crate::fixed::RAY_MAX <= d <= crate::fixed::RAY_MAX,
        -BOX_MAX <= bmin <= BOX_MAX,
        -BOX_MAX <= bmax <= BOX_MAX,
    ensures
        r.0 == axis_interval(bmin as int, bmax as int, o as int, d as int, lo as int, hi as int).0,
        r.1 == axis_interval(bmin as int, bmax as int, o as int, d as int, lo as int, hi as int).1,
{
    if d == 0 {
        if bmin <= o && o <= bmax {
            (lo, hi)
        } else {
            (1, 0)
        }
    } else if d > 0 {
        let a = (bmin - o) * ONE;
        let b = (bmax - o) * ONE;
        let axis_lo = div_ceil(a, d);
        let axis_hi = div_floor(b, d);
        let nlo = if axis_lo > lo {
            axis_lo
        } else {
            lo
        };
        let nhi = if axis_hi < hi {
            axis_hi
        } else {
            hi
        };
        (nlo, nhi)
    } else {
        let nd = -d;
        let a = (o - bmax) * ONE;
        let b = (o - bmin) * ONE;
        let axis_lo = div_ceil(a, nd);
        let axis_hi = div_floor(b, nd);
        let nlo = if axis_lo > lo {
            axis_lo
        } else {
            lo
        };
        let nhi = if axis_hi < hi {
            axis_hi
        } else {
            hi
        };
        (nlo, nhi)
    }
}

} // verus!
