//! Intersectable primitives: the hit-record protocol, spheres, and the flat
//! list that scans its children with a shrinking range.
use crate::aabb::{slab_ok, Aabb};
use crate::fixed::{
    fdiv, fmul, isqrt, isqrt_u128, lemma_fmul_le, lemma_tdiv_bound, lemma_tdiv_fundamental,
    lemma_tdiv_ordered, tdiv, COORD_MAX, ONE, RAY_MAX, T_MAX,
};
use crate::material::Material;
use crate::maths::{sat, sdot, slen2, sneg, Ray, Vec3};
use vstd::prelude::*;

verus! {

/// Rounding slack, in fixed-point units, that a sphere's bounding box and
/// its acceptance test allow around the exact surface.
pub const BOX_SLACK: i64 = 64;

/// Smallest radius a sphere may have; keeps the outward normal's
/// denominator large against the rounding slack.
pub const RADIUS_MIN: i64 = 1024;

/// Everything one intersection produces: where, how the surface faces, what
/// it is made of, and how far along the ray it lies.
#[derive(Clone, Copy, Debug, PartialEq, Eq, Structural)]
pub struct HitRecord {
    pub point: Vec3,
    pub normal: Vec3,
    pub material: Material,
    pub t: i64,
    pub front_face: bool,
}

impl HitRecord {
    /// Bounds every record produced by a well-formed scene satisfies.
    pub open spec fn wf(self) -> bool {
        &&& self.point.bounded(RAY_MAX as int)
        &&& self.normal.bounded(2 * ONE as int)
        &&& self.material.wf()
        &&& 0 <= self.t <= T_MAX
    }
}

/// The record an intersection at parameter `t` with the given outward
/// normal produces: the stored normal is flipped to oppose the ray, and the
/// flip is remembered as `front_face`.
pub open spec fn mk_hit_record(ray: Ray, t: int, material: Material, outward: Vec3) -> HitRecord {
    let front = sdot(ray.dir, outward) < 0;
    HitRecord {
        point: sat(ray, t),
        normal: if front {
            outward
        } else {
            sneg(outward)
        },
        material,
        t: t as i64,
        front_face: front,
    }
}

/// Build the record for a hit; flips the outward normal against the ray.
fn create_hit_record(ray: &Ray, t: i64, material: Material, outward_normal: Vec3) -> (r: HitRecord)
    requires
        ray.wf(),
        -T_MAX <= t <= T_MAX,
        outward_normal.bounded(2 * ONE as int),
    ensures
        r == mk_hit_record(*ray, t as int, material, outward_normal),
{
    let point = ray.at(t);
    let d = ray.dir.dot(outward_normal);
    let front_face = d < 0;
    let normal = if front_face {
        outward_normal
    } else {
        let flipped = outward_normal.negated();
        proof {
            assert(flipped == sneg(outward_normal));
        }
        flipped
    };
    HitRecord { point, normal, material, t, front_face }
}

/// A sphere with a shared material.
#[derive(Clone, Copy, Debug, PartialEq, Eq, Structural)]
pub struct Sphere {
    pub center: Vec3,
    pub radius: i64,
    pub material: Material,
}

/// The ray's origin relative to the sphere's center.
pub open spec fn sphere_oc(s: Sphere, ray: Ray) -> Vec3 {
    Vec3 {
        x: (ray.origin.x - s.center.x) as i64,
        y: (ray.origin.y - s.center.y) as i64,
        z: (ray.origin.z - s.center.z) as i64,
    }
}

/// The point lies within the sphere's slack box: each coordinate within
/// `radius + BOX_SLACK` of the center.
pub open spec fn in_slack_box(p: Vec3, s: Sphere) -> bool {
    &&& -(s.radius + BOX_SLACK) <= p.x - s.center.x <= s.radius + BOX_SLACK
    &&& -(s.radius + BOX_SLACK) <= p.y - s.center.y <= s.radius + BOX_SLACK
    &&& -(s.radius + BOX_SLACK) <= p.z - s.center.z <= s.radius + BOX_SLACK
}

/// The outward normal at a point on the sphere: offset from the center
/// divided by the radius.
pub open spec fn sphere_outward(p: Vec3, s: Sphere) -> Vec3 {
    Vec3 {
        x: fdiv(p.x - s.center.x, s.radius as int) as i64,
        y: fdiv(p.y - s.center.y, s.radius as int) as i64,
        z: fdiv(p.z - s.center.z, s.radius as int) as i64,
    }
}

/// The box a sphere reports: center plus or minus the radius, widened by
/// the rounding slack so that every accepted hit point's exact coordinates
/// stay inside (see `lemma_sphere_hit_in_box`).
pub open spec fn sphere_bbox(s: Sphere) -> Aabb {
    Aabb {
        min: Vec3 {
            x: (s.center.x - s.radius - BOX_SLACK - 1) as i64,
            y: (s.center.y - s.radius - BOX_SLACK - 1) as i64,
            z: (s.center.z - s.radius - BOX_SLACK - 1) as i64,
        },
        max: Vec3 {
            x: (s.center.x + s.radius + BOX_SLACK + 1) as i64,
            y: (s.center.y + s.radius + BOX_SLACK + 1) as i64,
            z: (s.center.z + s.radius + BOX_SLACK + 1) as i64,
        },
    }
}

/// What a sphere intersection returns: the smaller quadratic root if it
/// lies in `[tmin, tmax]`, else the larger, else nothing; the accepted
/// point must also land inside the sphere's slack box.
pub open spec fn sphere_hit_spec(s: Sphere, tmin: int, tmax: int, ray: Ray) -> Option<HitRecord> {
    let oc = sphere_oc(s, ray);
    let a = slen2(ray.dir);
    let half_b = sdot(oc, ray.dir);
    let c = slen2(oc) - fmul(s.radius as int, s.radius as int);
    let disc = fmul(half_b, half_b) - fmul(a, c);
    if a <= 0 || disc < 0 {
        None
    } else {
        let sq = isqrt(disc * (ONE as int));
        let root1 = tdiv((-half_b - sq) * (ONE as int), a);
        let root2 = tdiv((-half_b + sq) * (ONE as int), a);
        let root = if tmin <= root1 <= tmax {
            root1
        } else {
            root2
        };
        if !(tmin <= root <= tmax) {
            None
        } else {
            let p = sat(ray, root);
            if !in_slack_box(p, s) {
                None
            } else {
                Some(mk_hit_record(ray, root, s.material, sphere_outward(p, s)))
            }
        }
    }
}

impl Sphere {
    /// Center and radius within the scene bounds, material normalized.
    pub open spec fn wf(self) -> bool {
        &&& self.center.bounded(COORD_MAX as int)
        &&& RADIUS_MIN <= self.radius <= COORD_MAX
        &&& self.material.wf()
    }

    /// A sphere from its center's coordinates, radius and material.
    pub fn create(x: i64, y: i64, z: i64, radius: i64, material: Material) -> (r: Sphere)
        requires
            -COORD_MAX <= x <= COORD_MAX,
            -COORD_MAX <= y <= COORD_MAX,
            -COORD_MAX <= z <= COORD_MAX,
            RADIUS_MIN <= radius <= COORD_MAX,
            material.wf(),
        ensures
            r == (Sphere { center: Vec3 { x, y, z }, radius, material }),
            r.wf(),
    {
        Sphere { center: Vec3 { x, y, z }, radius, material }
    }

    /// The sphere's bounding box; a sphere always has one.
    pub fn bounding_box(&self) -> (r: Option<Aabb>)
        requires
            self.wf(),
        ensures
            r == Some(sphere_bbox(*self)),
            sphere_bbox(*self).wf(),
    {
        let slack = self.radius + BOX_SLACK + 1;
        Some(
            Aabb {
                min: Vec3 {
                    x: self.center.x - slack,
                    y: self.center.y - slack,
                    z: self.center.z - slack,
                },
                max: Vec3 {
                    x: self.center.x + slack,
                    y: self.center.y + slack,
                    z: self.center.z + slack,
                },
            },
        )
    }
}

/// The capability every intersectable object offers: report the nearest
/// hit in a parametric range, as a function the specification pins down.
pub trait Hittable {
    /// The value `hit` returns, as a specification-level function.
    spec fn hit_spec(&self, tmin: int, tmax: int, ray: Ray) -> Option<HitRecord>;

    /// The object is well formed enough to query.
    spec fn scene_wf(&self) -> bool;

    /// Any record the specification yields is well formed and in range.
    proof fn lemma_hit_spec_wf(&self, tmin: int, tmax: int, ray: Ray)
        requires
            self.scene_wf(),
            ray.wf(),
            0 <= tmin <= tmax <= T_MAX,
        ensures
            match self.hit_spec(tmin, tmax, ray) {
                Option::Some(h) => h.wf() && tmin <= h.t <= tmax,
                Option::None => true,
            },
    ;

    /// Report a hit with parameter in `[tmin, tmax]`, exactly as
    /// `hit_spec` lays it out.
    fn hit(&self, tmin: i64, tmax: i64, ray: &Ray) -> (r: Option<HitRecord>)
        requires
            self.scene_wf(),
            ray.wf(),
            0 <= tmin,
            tmin <= tmax,
            tmax <= T_MAX,
        ensures
            r == self.hit_spec(tmin as int, tmax as int, *ray),
    ;
}

/// The outward normal's components stay within two units: the offset is at
/// most `radius + BOX_SLACK` and the radius is at least `RADIUS_MIN`.
proof fn lemma_outward_bound(dx: int, r: int)
    requires
        RADIUS_MIN <= r,
        -(r + BOX_SLACK) <= dx <= r + BOX_SLACK,
    ensures
        -2 * (ONE as int) <= fdiv(dx, r) <= 2 * (ONE as int),
{
    let s = ONE as int;
    vstd::arithmetic::mul::lemma_mul_inequality(dx, r + 64, s);
    vstd::arithmetic::mul::lemma_mul_inequality(-(r + 64), dx, s);
    assert(-((r + 64) * s) == (-(r + 64)) * s) by (nonlinear_arith);
    lemma_tdiv_bound(dx * s, r, (r + 64) * s);
    let q = tdiv((r + 64) * s, r);
    lemma_tdiv_fundamental((r + 64) * s, r);
    assert((r + 64) * s >= 0) by (nonlinear_arith)
        requires
            r >= 1024,
            s == 65536,
    ;
    assert(q <= 2 * s) by (nonlinear_arith)
        requires
            r * q <= (r + 64) * s,
            r >= 1024,
            s == 65536,
            q >= 0,
    ;
}

/// Any record `sphere_hit_spec` yields is well formed, carries the
/// sphere's material, and lies in the queried range.
pub proof fn lemma_sphere_hit_range(s: Sphere, tmin: int, tmax: int, ray: Ray)
    requires
        s.wf(),
        ray.wf(),
        0 <= tmin <= tmax <= T_MAX,
    ensures
        match sphere_hit_spec(s, tmin, tmax, ray) {
            Option::Some(h) => h.wf() && tmin <= h.t <= tmax && h.material == s.material,
            Option::None => true,
        },
{
    if sphere_hit_spec(s, tmin, tmax, ray) is Some {
        let h = sphere_hit_spec(s, tmin, tmax, ray)->Some_0;
        let p = h.point;
        lemma_outward_bound(p.x - s.center.x, s.radius as int);
        lemma_outward_bound(p.y - s.center.y, s.radius as int);
        lemma_outward_bound(p.z - s.center.z, s.radius as int);
    }
}

impl Hittable for Sphere {
    open spec fn hit_spec(&self, tmin: int, tmax: int, ray: Ray) -> Option<HitRecord> {
        sphere_hit_spec(*self, tmin, tmax, ray)
    }

    open spec fn scene_wf(&self) -> bool {
        self.wf()
    }

    proof fn lemma_hit_spec_wf(&self, tmin: int, tmax: int, ray: Ray) {
        lemma_sphere_hit_range(*self, tmin, tmax, ray);
    }

    /// Solve the sphere quadratic, preferring the smaller root in range.
    fn hit(&self, tmin: i64, tmax: i64, ray: &Ray) -> (r: Option<HitRecord>) {
        let oc = Vec3 {
            x: ray.origin.x - self.center.x,
            y: ray.origin.y - self.center.y,
            z: ray.origin.z - self.center.z,
        };
        proof {
            assert(oc == sphere_oc(*self, *ray));
            crate::maths::lemma_sdot_le(
                ray.dir,
                ray.dir,
                0x2_0000_0000,
                0x2_0000_0000,
                0x4_0000_0000_0000,
            );
            crate::maths::lemma_sdot_le(oc, oc, 0x4_0000_0000, 0x4_0000_0000, 0x10_0000_0000_0000);
            crate::maths::lemma_sdot_le(
                oc,
                ray.dir,
                0x4_0000_0000,
                0x2_0000_0000,
                0x8_0000_0000_0000,
            );
            lemma_fmul_le(
                self.radius as int,
                self.radius as int,
                0x8000_0000,
                0x8000_0000,
                0x4000_0000_0000,
            );
        }
        let a = ray.dir.length2();
        let half_b = oc.dot(ray.dir);
        let rr = crate::fixed::div_trunc(
            (self.radius as i128) * (self.radius as i128),
            ONE as i128,
        ) as i64;
        let c = oc.length2() - rr;
        if a <= 0 {
            return None;
        }
        proof {
            lemma_fmul_le(
                half_b as int,
                half_b as int,
                0x18_0000_0000_0000,
                0x18_0000_0000_0000,
                0x240_0000_0000_0000_0000_0000,
            );
            lemma_fmul_le(
                a as int,
                c as int,
                0xC_0000_0000_0000,
                0x40_0000_0000_0000,
                0x300_0000_0000_0000_0000_0000,
            );
        }
        let hb2: i128 = crate::fixed::div_trunc((half_b as i128) * (half_b as i128), ONE as i128);
        let ac: i128 = crate::fixed::div_trunc((a as i128) * (c as i128), ONE as i128);
        let disc: i128 = hb2 - ac;
        if disc < 0 {
            return None;
        }
        let squ = isqrt_u128((disc as u128) * (ONE as u128));
        proof {
            assert((squ as int) * (squ as int) <= disc * 65536);
            assert(squ <= 0x80_0000_0000_0000) by (nonlinear_arith)
                requires
                    (squ as int) * (squ as int) <= disc * 65536,
                    0 <= disc <= 0x540_0000_0000_0000_0000_0000,
                    squ >= 0,
            ;
        }
        let sq: i128 = squ as i128;
        let root1: i128 = crate::fixed::div_trunc(
            (-(half_b as i128) - sq) * (ONE as i128),
            a as i128,
        );
        let accept1 = (tmin as i128) <= root1 && root1 <= (tmax as i128);
        let root: i128 = if accept1 {
            root1
        } else {
            crate::fixed::div_trunc((-(half_b as i128) + sq) * (ONE as i128), a as i128)
        };
        if !((tmin as i128) <= root && root <= (tmax as i128)) {
            return None;
        }
        let t = root as i64;
        let p = ray.at(t);
        proof {
            assert(p == sat(*ray, t as int));
        }
        let dx = p.x - self.center.x;
        let dy = p.y - self.center.y;
        let dz = p.z - self.center.z;
        let lim = self.radius + BOX_SLACK;
        if !(-lim <= dx && dx <= lim && -lim <= dy && dy <= lim && -lim <= dz && dz <= lim) {
            return None;
        }
        proof {
            lemma_outward_bound(dx as int, self.radius as int);
            lemma_outward_bound(dy as int, self.radius as int);
            lemma_outward_bound(dz as int, self.radius as int);
        }
        let nx = crate::fixed::div_trunc((dx as i128) * (ONE as i128), self.radius as i128) as i64;
        let ny = crate::fixed::div_trunc((dy as i128) * (ONE as i128), self.radius as i128) as i64;
        let nz = crate::fixed::div_trunc((dz as i128) * (ONE as i128), self.radius as i128) as i64;
        let outward = Vec3 { x: nx, y: ny, z: nz };
        proof {
            assert(outward == sphere_outward(p, *self));
        }
        Some(create_hit_record(ray, t, self.material, outward))
    }
}

/// An ordered collection of spheres, intersected by scanning every child.
pub struct HittableList {
    pub objects: Vec<Sphere>,
}

/// The state of the list scan after `i` children: the best record so far
/// and the shrunken far limit it imposes on the rest.
pub open spec fn list_hit_rec(
    objs: Seq<Sphere>,
    ray: Ray,
    tmin: int,
    closest: int,
    best: Option<HitRecord>,
    i: nat,
) -> Option<HitRecord>
    decreases objs.len() - i,
{
    if i >= objs.len() {
        best
    } else {
        match sphere_hit_spec(objs[i as int], tmin, closest, ray) {
            Option::Some(h) => list_hit_rec(objs, ray, tmin, h.t as int, Option::Some(h), i + 1),
            Option::None => list_hit_rec(objs, ray, tmin, closest, best, i + 1),
        }
    }
}

/// What the list scan returns: nearest hit wins, and on an exact tie the
/// later child, because the shrinking far limit stays inclusive.
pub open spec fn list_hit_spec(objs: Seq<Sphere>, tmin: int, tmax: int, ray: Ray) -> Option<
    HitRecord,
> {
    list_hit_rec(objs, ray, tmin, tmax, Option::None, 0)
}

impl HittableList {
    /// Every child is well formed.
    pub open spec fn wf(self) -> bool {
        forall|i: int| 0 <= i < self.objects@.len() ==> (#[trigger] self.objects@[i]).wf()
    }

    /// The empty list.
    pub fn new() -> (r: HittableList)
        ensures
            r.objects@ =~= Seq::<Sphere>::empty(),
            r.wf(),
    {
        HittableList { objects: Vec::new() }
    }

    /// Append a child.
    pub fn add(&mut self, hittable: Sphere)
        ensures
            final(self).objects@ =~= old(self).objects@.push(hittable),
    {
        self.objects.push(hittable);
    }
}

impl Hittable for HittableList {
    open spec fn hit_spec(&self, tmin: int, tmax: int, ray: Ray) -> Option<HitRecord> {
        list_hit_spec(self.objects@, tmin, tmax, ray)
    }

    open spec fn scene_wf(&self) -> bool {
        self.wf()
    }

    proof fn lemma_hit_spec_wf(&self, tmin: int, tmax: int, ray: Ray) {
        lemma_list_hit_rec_wf(self.objects@, ray, tmin, tmax, Option::None, 0);
    }

    /// Scan every child, shrinking the far limit to the best hit so far,
    /// so a later child can only win by being strictly nearer or exactly
    /// tied.
    fn hit(&self, tmin: i64, tmax: i64, ray: &Ray) -> (r: Option<HitRecord>) {
        let mut closest: i64 = tmax;
        let mut temphit: Option<HitRecord> = None;
        let mut idx: usize = 0;
        let n = self.objects.len();
        while idx < n
            invariant
                n == self.objects@.len(),
                idx <= n,
                self.wf(),
                ray.wf(),
                0 <= tmin <= closest <= tmax <= T_MAX,
                match temphit {
                    Option::Some(h) => h.t == closest,
                    Option::None => closest == tmax,
                },
                list_hit_rec(self.objects@, *ray, tmin as int, closest as int, temphit, idx as nat)
                    == list_hit_spec(self.objects@, tmin as int, tmax as int, *ray),
            decreases n - idx,
        {
            let s = &self.objects[idx];
            let found = s.hit(tmin, closest, ray);
            proof {
                lemma_sphere_hit_range(*s, tmin as int, closest as int, *ray);
            }
            if let Some(h) = found {
                closest = h.t;
                temphit = Some(h);
            }
            idx = idx + 1;
        }
        temphit
    }
}

/// Shrinking the far limit filters a sphere's hit: the result over
/// `[tmin, b]` is the result over `[tmin, tmax]` when its parameter still
/// fits, and nothing otherwise.  The list scan leans on this to shrink its
/// range without changing which hit wins.
pub proof fn lemma_sphere_hit_shrink(s: Sphere, tmin: int, tmax: int, b: int, ray: Ray)
    requires
        0 <= tmin,
        b <= tmax <= T_MAX,
    ensures
        sphere_hit_spec(s, tmin, b, ray) == (match sphere_hit_spec(s, tmin, tmax, ray) {
            Option::Some(h) => if h.t <= b {
                Option::Some(h)
            } else {
                Option::None::<HitRecord>
            },
            Option::None => Option::None::<HitRecord>,
        }),
{
    let oc = sphere_oc(s, ray);
    let a = slen2(ray.dir);
    let half_b = sdot(oc, ray.dir);
    let c = slen2(oc) - fmul(s.radius as int, s.radius as int);
    let disc = fmul(half_b, half_b) - fmul(a, c);
    if a <= 0 || disc < 0 {
    } else {
        crate::fixed::lemma_isqrt_exists(disc * (ONE as int));
        assert(disc * (ONE as int) >= 0) by (nonlinear_arith)
            requires
                disc >= 0,
        ;
        let sq = isqrt(disc * (ONE as int));
        let root1 = tdiv((-half_b - sq) * (ONE as int), a);
        let root2 = tdiv((-half_b + sq) * (ONE as int), a);
        assert((-half_b - sq) * (ONE as int) <= (-half_b + sq) * (ONE as int)) by (nonlinear_arith)
            requires
                sq >= 0,
        ;
        lemma_tdiv_ordered((-half_b - sq) * (ONE as int), (-half_b + sq) * (ONE as int), a);
        assert(root1 <= root2);
    }
}

/// Any record the list scan yields is well formed and within the range the
/// scan was started with.
proof fn lemma_list_hit_rec_wf(
    objs: Seq<Sphere>,
    ray: Ray,
    tmin: int,
    closest: int,
    best: Option<HitRecord>,
    i: nat,
)
    requires
        forall|j: int| 0 <= j < objs.len() ==> (#[trigger] objs[j]).wf(),
        ray.wf(),
        0 <= tmin <= closest <= T_MAX,
        match best {
            Option::Some(h) => h.wf() && tmin <= h.t <= closest,
            Option::None => true,
        },
    ensures
        match list_hit_rec(objs, ray, tmin, closest, best, i) {
            Option::Some(h) => h.wf() && tmin <= h.t <= closest,
            Option::None => true,
        },
    decreases objs.len() - i,
{
    if i < objs.len() {
        lemma_sphere_hit_range(objs[i as int], tmin, closest, ray);
        match sphere_hit_spec(objs[i as int], tmin, closest, ray) {
            Option::Some(h) => {
                lemma_list_hit_rec_wf(objs, ray, tmin, h.t as int, Option::Some(h), i + 1);
            },
            Option::None => {
                lemma_list_hit_rec_wf(objs, ray, tmin, closest, best, i + 1);
            },
        }
    }
}

/// A sphere hit's parameter satisfies the slab constraints of the sphere's
/// bounding box: the accepted point lies in the slack box, and truncation
/// in `sat` loses less than one unit per axis, which the box's extra unit
/// absorbs.  This is what lets the hierarchy prune by boxes without ever
/// losing a hit.
pub proof fn lemma_sphere_hit_in_box(s: Sphere, tmin: int, tmax: int, ray: Ray)
    requires
        s.wf(),
        ray.wf(),
        0 <= tmin,
        tmax <= T_MAX,
    ensures
        match sphere_hit_spec(s, tmin, tmax, ray) {
            Option::Some(h) => slab_ok(sphere_bbox(s), ray, h.t as int) && tmin <= h.t <= tmax,
            Option::None => true,
        },
{
    if sphere_hit_spec(s, tmin, tmax, ray) is Some {
        let h = sphere_hit_spec(s, tmin, tmax, ray)->Some_0;
        let root = h.t as int;
        let p = sat(ray, root);
        lemma_fmul_le(root, ray.dir.x as int, T_MAX as int, RAY_MAX as int, 0x1_0000_0000_0000);
        lemma_fmul_le(root, ray.dir.y as int, T_MAX as int, RAY_MAX as int, 0x1_0000_0000_0000);
        lemma_fmul_le(root, ray.dir.z as int, T_MAX as int, RAY_MAX as int, 0x1_0000_0000_0000);
        lemma_tdiv_fundamental(root * (ray.dir.x as int), ONE as int);
        lemma_tdiv_fundamental(root * (ray.dir.y as int), ONE as int);
        lemma_tdiv_fundamental(root * (ray.dir.z as int), ONE as int);
    }
}

/// What one scan state guarantees about its outcome: the scan returns the
/// best record it started with or a hit of some remaining child, never
/// farther than any remaining child's hit.
#[verifier::rlimit(100)]
proof fn lemma_list_hit_rec_characterization(
    objs: Seq<Sphere>,
    ray: Ray,
    tmin: int,
    closest: int,
    best: Option<HitRecord>,
    i: nat,
)
    requires
        forall|j: int| 0 <= j < objs.len() ==> (#[trigger] objs[j]).wf(),
        ray.wf(),
        0 <= tmin <= closest <= T_MAX,
        match best {
            Option::Some(h) => h.t == closest,
            Option::None => true,
        },
    ensures
        match list_hit_rec(objs, ray, tmin, closest, best, i) {
            Option::None => best is None && forall|j: int|
                i <= j < objs.len() ==> (#[trigger] sphere_hit_spec(
                    objs[j],
                    tmin,
                    closest,
                    ray,
                )) is None,
            Option::Some(h) => {
                &&& h.t <= closest
                &&& (best == Option::Some(h) || exists|j: int|
                    i <= j < objs.len() && #[trigger] sphere_hit_spec(objs[j], tmin, closest, ray)
                        == Option::Some(h))
                &&& forall|j: int|
                    i <= j < objs.len() ==> match #[trigger] sphere_hit_spec(
                        objs[j],
                        tmin,
                        closest,
                        ray,
                    ) {
                        Option::Some(g) => g.t >= h.t,
                        Option::None => true,
                    }
            },
        },
    decreases objs.len() - i,
{
    if i >= objs.len() {
    } else {
        let cur = sphere_hit_spec(objs[i as int], tmin, closest, ray);
        match cur {
            Option::Some(h1) => {
                lemma_sphere_hit_range(objs[i as int], tmin, closest, ray);
                lemma_list_hit_rec_characterization(
                    objs,
                    ray,
                    tmin,
                    h1.t as int,
                    Option::Some(h1),
                    i + 1,
                );
                let r = list_hit_rec(objs, ray, tmin, h1.t as int, Option::Some(h1), i + 1);
                match r {
                    Option::None => {
                        assert(false);
                    },
                    Option::Some(h) => {
                        // Translate facts about the shrunken range back to
                        // the current one, child by child.
                        assert forall|j: int| i + 1 <= j < objs.len() implies match #[trigger] sphere_hit_spec(
                            objs[j],
                            tmin,
                            closest,
                            ray,
                        ) {
                            Option::Some(g) => g.t >= h.t,
                            Option::None => true,
                        } by {
                            lemma_sphere_hit_shrink(objs[j], tmin, closest, h1.t as int, ray);
                        }
                        if h != h1 {
                            let j = choose|j: int|
                                i + 1 <= j < objs.len() && #[trigger] sphere_hit_spec(
                                    objs[j],
                                    tmin,
                                    h1.t as int,
                                    ray,
                                ) == Option::Some(h);
                            lemma_sphere_hit_shrink(objs[j], tmin, closest, h1.t as int, ray);
                            assert(sphere_hit_spec(objs[j], tmin, closest, ray)
                                == Option::Some(h));
                        }
                    },
                }
            },
            Option::None => {
                lemma_list_hit_rec_characterization(objs, ray, tmin, closest, best, i + 1);
            },
        }
    }
}

/// The flat list scan finds a hit exactly when some child reports one, and
/// never a farther hit than any child's.
pub proof fn lemma_list_hit_characterization(objs: Seq<Sphere>, tmin: int, tmax: int, ray: Ray)
    requires
        forall|j: int| 0 <= j < objs.len() ==> (#[trigger] objs[j]).wf(),
        ray.wf(),
        0 <= tmin <= tmax <= T_MAX,
    ensures
        match list_hit_spec(objs, tmin, tmax, ray) {
            Option::None => forall|j: int|
                0 <= j < objs.len() ==> (#[trigger] sphere_hit_spec(
                    objs[j],
                    tmin,
                    tmax,
                    ray,
                )) is None,
            Option::Some(h) => {
                &&& exists|j: int|
                    0 <= j < objs.len() && #[trigger] sphere_hit_spec(objs[j], tmin, tmax, ray)
                        == Option::Some(h)
                &&& forall|j: int|
                    0 <= j < objs.len() ==> match #[trigger] sphere_hit_spec(
                        objs[j],
                        tmin,
                        tmax,
                        ray,
                    ) {
                        Option::Some(g) => g.t >= h.t,
                        Option::None => true,
                    }
            },
        },
{
    lemma_list_hit_rec_characterization(objs, ray, tmin, tmax, Option::None, 0);
}

} // verus!
