//! The demonstration scene: a handful of spheres over a large ground
//! sphere, lit by an emissive sun and lamp, gathered into a hierarchy.
use crate::bvh::BvhNode;
use crate::color::Color;
use crate::hittable::{HittableList, Sphere};
use crate::material::{Dieletric, DiffuseLight, Lambertian, Material, Metal};
use crate::maths::Vec3;
use vstd::prelude::*;

verus! {

/// The demonstration scene's spheres, in insertion order.  Coordinates
/// and colors are fixed-point: 65536 is one unit.
pub open spec fn world_spheres() -> Seq<Sphere> {
    let lambert_red = Material::Lambertian(
        Lambertian { albedo: Color { r: 60948i64, g: 0i64, b: 0i64 } },
    );
    let sun = Material::DiffuseLight(
        DiffuseLight { emit: Color { r: 65536i64, g: 65536i64, b: 58982i64 } },
    );
    let lamp = Material::DiffuseLight(
        DiffuseLight { emit: Color { r: 65536i64, g: 65536i64, b: 0i64 } },
    );
    let aluminium = Material::Metal(
        Metal { albedo: Color { r: 52429i64, g: 52429i64, b: 52429i64 }, fuzz: 3277i64 },
    );
    let gold = Material::Metal(
        Metal { albedo: Color { r: 65536i64, g: 62259i64, b: 36045i64 }, fuzz: 7209i64 },
    );
    let glass = Material::Dieletric(
        Dieletric {
            albedo: Color { r: 65536i64, g: 65536i64, b: 65536i64 },
            index_of_refraction: 98304i64,
        },
    );
    let ground_mat = Material::Lambertian(
        Lambertian { albedo: Color { r: 13107i64, g: 52429i64, b: 19661i64 } },
    );
    seq![
        Sphere {
            center: Vec3 { x: -65536i64, y: 0i64, z: -65536i64 },
            radius: 22938i64,
            material: aluminium,
        },
        Sphere {
            center: Vec3 { x: 131072i64, y: 131072i64, z: -131072i64 },
            radius: 32768i64,
            material: lamp,
        },
        Sphere {
            center: Vec3 { x: 98304i64, y: 0i64, z: -131072i64 },
            radius: 22938i64,
            material: gold,
        },
        Sphere {
            center: Vec3 { x: -5242880i64, y: 3932160i64, z: -3276800i64 },
            radius: 4587520i64,
            material: sun,
        },
        Sphere {
            center: Vec3 { x: 0i64, y: 0i64, z: -65536i64 },
            radius: 32768i64,
            material: glass,
        },
        Sphere {
            center: Vec3 { x: 65536i64, y: -19661i64, z: -65536i64 },
            radius: 13107i64,
            material: glass,
        },
        Sphere {
            center: Vec3 { x: 0i64, y: 0i64, z: -196608i64 },
            radius: 32768i64,
            material: lambert_red,
        },
        Sphere {
            center: Vec3 { x: 0i64, y: -6586368i64, z: -196608i64 },
            radius: 6553600i64,
            material: ground_mat,
        },
    ]
}

/// Build the demonstration scene and the hierarchy over it: the tree holds
/// exactly the spheres `world_spheres` lists.
pub fn make_world() -> (r: BvhNode)
    ensures
        r.wf(),
        r.leaves().to_multiset() =~= world_spheres().to_multiset(),
{
    let mut world = HittableList::new();
    let lambert_red = Lambertian::create(Color { r: 60948, g: 0, b: 0 });
    let sun = DiffuseLight::create(Color { r: 65536, g: 65536, b: 58982 });
    let lamp = DiffuseLight::create(Color { r: 65536, g: 65536, b: 0 });
    let aluminium = Metal::create(Color { r: 52429, g: 52429, b: 52429 }, 3277);
    let gold = Metal::create(Color { r: 65536, g: 62259, b: 36045 }, 7209);
    let glass = Dieletric::create(Color { r: 65536, g: 65536, b: 65536 }, 98304);
    let ground_mat = Lambertian::create(Color { r: 13107, g: 52429, b: 19661 });
    world.add(Sphere::create(-65536, 0, -65536, 22938, aluminium));
    world.add(Sphere::create(131072, 131072, -131072, 32768, lamp));
    world.add(Sphere::create(98304, 0, -131072, 22938, gold));
    world.add(Sphere::create(-5242880, 3932160, -3276800, 4587520, sun));
    world.add(Sphere::create(0, 0, -65536, 32768, glass));
    world.add(Sphere::create(65536, -19661, -65536, 13107, glass));
    world.add(Sphere::create(0, 0, -196608, 32768, lambert_red));
    world.add(Sphere::create(0, -6586368, -196608, 6553600, ground_mat));
    proof {
        assert(world.objects@ =~= world_spheres());
    }
    BvhNode::new(world)
}

} // verus!
