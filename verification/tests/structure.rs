use raytrace::bvh::BvhNode;
use raytrace::color::Color;
use raytrace::fixed::{ONE, T_MAX};
use raytrace::helpers::{random_scalar, random_signed_scalar, ray_color};
use raytrace::hittable::{Hittable, HittableList, Sphere};
use raytrace::material::{DiffuseLight, Lambertian, Metal};
use raytrace::maths::{Ray, Vec3};
use raytrace::scene::make_world;

fn test_scene() -> HittableList {
    let mut world = HittableList::new();
    world.add(Sphere::create(
        -ONE,
        0,
        -ONE,
        22938,
        Metal::create(Color::new(52429, 52429, 52429), 3277),
    ));
    world.add(Sphere::create(
        2 * ONE,
        2 * ONE,
        -2 * ONE,
        32768,
        DiffuseLight::create(Color::new(ONE, ONE, 0)),
    ));
    world.add(Sphere::create(
        0,
        0,
        -ONE,
        32768,
        Lambertian::create(Color::new(60948, 0, 0)),
    ));
    world.add(Sphere::create(
        0,
        -100 * ONE - ONE / 2,
        -3 * ONE,
        100 * ONE,
        Lambertian::create(Color::new(13107, 52429, 19661)),
    ));
    world.add(Sphere::create(
        0,
        0,
        -3 * ONE,
        32768,
        Lambertian::create(Color::new(0, 60948, 0)),
    ));
    world
}

fn sample_rays() -> Vec<Ray> {
    let mut rays = Vec::new();
    let dirs = [
        (0, 0, -ONE),
        (ONE / 4, 0, -ONE),
        (-ONE / 3, ONE / 8, -ONE),
        (ONE, ONE, -ONE),
        (0, -ONE, -ONE),
        (0, ONE, 0),
        (ONE, 0, 0),
        (-ONE / 2, -ONE / 5, -ONE),
    ];
    for (x, y, z) in dirs {
        rays.push(Ray::new(Vec3::new(0, ONE / 2, 3 * ONE), Vec3::new(x, y, z)));
        rays.push(Ray::new(Vec3::new(ONE, 0, 0), Vec3::new(x, y, z)));
    }
    rays
}

#[test]
fn bvh_and_list_agree_on_sampled_rays() {
    let bvh = BvhNode::new(test_scene());
    let list = test_scene();
    for ray in sample_rays() {
        let from_tree = bvh.hit(raytrace::helpers::HIT_EPS, T_MAX, &ray);
        let from_list = list.hit(raytrace::helpers::HIT_EPS, T_MAX, &ray);
        match (from_tree, from_list) {
            (None, None) => {}
            (Some(a), Some(b)) => assert_eq!(a.t, b.t),
            (a, b) => panic!(
                "tree and list disagree: {:?} vs {:?}",
                a.map(|h| h.t),
                b.map(|h| h.t)
            ),
        }
    }
}

#[test]
fn bvh_finds_the_nearest_of_aligned_spheres() {
    // Three spheres stacked along -z: the nearest wins regardless of the
    // tree shape the random axis choices produce.
    let mut world = HittableList::new();
    for k in 2..5 {
        world.add(Sphere::create(
            0,
            0,
            -k * ONE,
            ONE / 4,
            Lambertian::create(Color::new(ONE / 2, ONE / 2, ONE / 2)),
        ));
    }
    let bvh = BvhNode::new(world);
    let ray = Ray::new(Vec3::new(0, 0, 0), Vec3::new(0, 0, -ONE));
    let hit = bvh.hit(0, T_MAX, &ray).expect("must hit the stack");
    assert_eq!(hit.t, 2 * ONE - ONE / 4);
}

#[test]
fn make_world_renders_something() {
    let world = make_world();
    // A ray toward the emissive lamp returns exactly its radiance.
    let toward_lamp = Ray::new(
        Vec3::new(2 * ONE, 2 * ONE, 2 * ONE),
        Vec3::new(0, 0, -ONE),
    );
    let c = ray_color(toward_lamp, &world, Color::new(0, 0, 0), 8);
    assert_eq!(c, Color::new(ONE, ONE, 0));
    // A ray that escapes the scene returns the background.
    let escaping = Ray::new(Vec3::new(0, 0, 3 * ONE), Vec3::new(0, 0, ONE));
    let bg = Color::new(7, 14, 131);
    assert_eq!(ray_color(escaping, &world, bg, 8), bg);
}

#[test]
fn gamma_encoding_has_exact_channel_values() {
    let c = Color::new(ONE, 16384, 0);
    let px = c.as_rgb8(1);
    assert_eq!((px.r, px.g, px.b), (255, 128, 0));
    // Averaging over samples happens before encoding.
    let sum = Color::new(2 * ONE, 2 * 16384, 0);
    let px2 = sum.as_rgb8(2);
    assert_eq!((px2.r, px2.g, px2.b), (255, 128, 0));
    // Channels clamp instead of wrapping.
    let hot = Color::new(40 * ONE, -3 * ONE, 49152);
    let px3 = hot.as_rgb8(1);
    assert_eq!((px3.r, px3.g, px3.b), (255, 0, 221));
}

#[test]
fn color_arithmetic_is_componentwise() {
    let a = Color::new(ONE, ONE / 2, 0);
    let b = Color::new(ONE / 2, ONE / 2, ONE);
    assert_eq!(a.plus(b), Color::new(3 * ONE / 2, ONE, ONE));
    assert_eq!(a.modulate(b), Color::new(ONE / 2, ONE / 4, 0));
    assert_eq!(
        Color::lerp(a, b, ONE / 2),
        Color::new(3 * ONE / 4, ONE / 2, ONE / 2)
    );
}

#[test]
fn random_scalars_stay_in_their_ranges() {
    for _ in 0..200 {
        let u = random_scalar();
        assert!((0..ONE).contains(&u));
        let v = random_signed_scalar();
        assert!((-ONE..ONE).contains(&v));
    }
}

#[test]
fn sampled_vectors_stay_in_the_unit_ball() {
    for _ in 0..100 {
        let v = Vec3::inside_unit_sphere();
        assert!(v.length2() < ONE);
        let d = Vec3::on_unit_disc();
        assert!(d.length2() < ONE && d.z == 0);
        let n = Vec3::new(0, ONE, 0);
        let h = Vec3::random_in_hemisphere(n);
        assert!(h.dot(n) >= 0);
        let u = Vec3::random_unit_vector();
        // A normalized draw keeps every component within three units.
        assert!(u.x.abs() <= 3 * ONE && u.y.abs() <= 3 * ONE && u.z.abs() <= 3 * ONE);
    }
}
