use raytrace::aabb::Aabb;
use raytrace::color::Color;
use raytrace::fixed::ONE;
use raytrace::hittable::{Hittable, Sphere};
use raytrace::material::Lambertian;
use raytrace::maths::{clamp, lerp, Ray, Vec3};

fn gray() -> raytrace::material::Material {
    Lambertian::create(Color::new(32768, 32768, 32768))
}

#[test]
fn aabb_slab_hit_straight_on() {
    let b = Aabb::new(Vec3::new(-ONE, -ONE, -ONE), Vec3::new(ONE, ONE, ONE));
    let ray = Ray::new(Vec3::new(0, 0, 5 * ONE), Vec3::new(0, 0, -ONE));
    assert!(b.hit(&ray, 0, 100 * ONE));
}

#[test]
fn aabb_slab_miss_outgoing_diagonal() {
    let b = Aabb::new(Vec3::new(-ONE, -ONE, -ONE), Vec3::new(ONE, ONE, ONE));
    let ray = Ray::new(Vec3::new(5 * ONE, 5 * ONE, 5 * ONE), Vec3::new(ONE, ONE, ONE));
    assert!(!b.hit(&ray, 0, 100 * ONE));
}

#[test]
fn aabb_zero_direction_component_inside_slab() {
    // The x direction is zero while the origin sits between the x slabs:
    // the test must still accept along the other axes.
    let b = Aabb::new(Vec3::new(-ONE, -ONE, -ONE), Vec3::new(ONE, ONE, ONE));
    let ray = Ray::new(Vec3::new(0, 0, 5 * ONE), Vec3::new(0, 0, -ONE));
    assert!(b.hit(&ray, 0, 100 * ONE));
    // With the origin outside the x slabs and no x motion, nothing helps.
    let ray2 = Ray::new(Vec3::new(3 * ONE, 0, 5 * ONE), Vec3::new(0, 0, -ONE));
    assert!(!b.hit(&ray2, 0, 100 * ONE));
}

#[test]
fn combine_is_bounding_superset() {
    let a = Aabb::new(Vec3::new(0, 0, 0), Vec3::new(ONE, ONE, ONE));
    let b = Aabb::new(
        Vec3::new(-2 * ONE, -ONE / 2, 0),
        Vec3::new(ONE / 2, 2 * ONE, 3 * ONE),
    );
    let c = a.combine(b);
    assert_eq!(c.min.x, -2 * ONE);
    assert_eq!(c.min.y, -ONE / 2);
    assert_eq!(c.min.z, 0);
    assert_eq!(c.max.x, ONE);
    assert_eq!(c.max.y, 2 * ONE);
    assert_eq!(c.max.z, 3 * ONE);
    // Both inputs' corners lie inside the combined box.
    assert!(c.min.x <= a.min.x && a.max.x <= c.max.x);
    assert!(c.min.y <= b.min.y && b.max.y <= c.max.y);
}

#[test]
fn sphere_hit_round_trip() {
    let s = Sphere::create(0, 0, -5 * ONE, ONE, gray());
    let ray = Ray::new(Vec3::new(0, 0, 0), Vec3::new(0, 0, -ONE));
    let hit = s.hit(0, raytrace::fixed::T_MAX, &ray).expect("must hit");
    assert_eq!(hit.t, 4 * ONE);
    assert_eq!(hit.normal, Vec3::new(0, 0, ONE));
    assert!(hit.front_face);
    assert_eq!(hit.point, Vec3::new(0, 0, -4 * ONE));
}

#[test]
fn sphere_second_root_from_inside() {
    // From the center, the smaller root is negative, so the far root wins.
    let s = Sphere::create(0, 0, 0, ONE, gray());
    let ray = Ray::new(Vec3::new(0, 0, 0), Vec3::new(0, 0, -ONE));
    let hit = s.hit(0, raytrace::fixed::T_MAX, &ray).expect("must hit");
    assert_eq!(hit.t, ONE);
    assert!(!hit.front_face);
    assert_eq!(hit.normal, Vec3::new(0, 0, ONE));
}

#[test]
fn sphere_miss_is_none() {
    let s = Sphere::create(0, 0, -5 * ONE, ONE, gray());
    let ray = Ray::new(Vec3::new(0, 0, 0), Vec3::new(0, 0, ONE));
    assert!(s.hit(0, raytrace::fixed::T_MAX, &ray).is_none());
}

#[test]
fn sphere_range_excludes_hit() {
    let s = Sphere::create(0, 0, -5 * ONE, ONE, gray());
    let ray = Ray::new(Vec3::new(0, 0, 0), Vec3::new(0, 0, -ONE));
    // Both roots (4 and 6) lie outside [0, 3].
    assert!(s.hit(0, 3 * ONE, &ray).is_none());
}

#[test]
fn reflect_mirrors_about_normal() {
    let v = Vec3::new(ONE, -ONE, 0);
    let n = Vec3::new(0, ONE, 0);
    assert_eq!(v.reflect(n), Vec3::new(ONE, ONE, 0));
}

#[test]
fn refract_head_on_passes_straight_through() {
    // At normal incidence the refracted ray continues undeflected,
    // whatever the ratio of indices.
    let v = Vec3::new(0, 0, -ONE);
    let n = Vec3::new(0, 0, ONE);
    assert_eq!(v.refract(n, ONE), Vec3::new(0, 0, -ONE));
    assert_eq!(v.refract(n, 43690), Vec3::new(0, 0, -ONE));
}

#[test]
fn ray_at_walks_the_direction() {
    let ray = Ray::new(Vec3::new(ONE, 0, 0), Vec3::new(0, 0, -ONE));
    assert_eq!(ray.at(2 * ONE), Vec3::new(ONE, 0, -2 * ONE));
}

#[test]
fn clamp_orders_bounds() {
    assert_eq!(clamp(0, 10, -5), 0);
    assert_eq!(clamp(0, 10, 5), 5);
    assert_eq!(clamp(0, 10, 15), 10);
}

#[test]
fn lerp_endpoints_are_exact() {
    let a = Vec3::new(0, 0, 0);
    let b = Vec3::new(ONE, 2 * ONE, 3 * ONE);
    assert_eq!(lerp(a, b, 0), a);
    assert_eq!(lerp(a, b, ONE), b);
    assert_eq!(lerp(a, b, ONE / 2), Vec3::new(ONE / 2, ONE, 3 * ONE / 2));
}

#[test]
fn normalized_unit_axis_is_fixed_point_one() {
    let v = Vec3::new(0, 7 * ONE, 0);
    assert_eq!(v.normalized(), Vec3::new(0, ONE, 0));
    let mut w = Vec3::new(3 * ONE, 0, 0);
    w.normalize();
    assert_eq!(w, Vec3::new(ONE, 0, 0));
}

#[test]
fn dot_and_length2_scale_once() {
    let v = Vec3::new(2 * ONE, 0, 0);
    let w = Vec3::new(3 * ONE, ONE, 0);
    assert_eq!(v.dot(w), 6 * ONE);
    assert_eq!(v.length2(), 4 * ONE);
    assert_eq!(v.length(), 2 * ONE);
}

#[test]
fn cross_of_axes_gives_third_axis() {
    assert_eq!(Vec3::right().cross(Vec3::up()), Vec3::forward());
}
