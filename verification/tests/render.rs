use raytrace::color::Color;
use raytrace::fixed::ONE;
use raytrace::helpers::{hit_albedo, hit_normal, ray_color};
use raytrace::hittable::{HitRecord, HittableList, Sphere};
use raytrace::material::{Dieletric, DiffuseLight, Lambertian, Material, Metal};
use raytrace::maths::{Ray, Vec3};

fn black() -> Color {
    Color::new(0, 0, 0)
}

#[test]
fn depth_zero_returns_black() {
    let mut world = HittableList::new();
    world.add(Sphere::create(
        0,
        0,
        -5 * ONE,
        ONE,
        DiffuseLight::create(Color::new(ONE, ONE, ONE)),
    ));
    let ray = Ray::new(Vec3::new(0, 0, 0), Vec3::new(0, 0, -ONE));
    let bg = Color::new(100, 200, 300);
    assert_eq!(ray_color(ray, &world, bg, 0), black());
    assert_eq!(ray_color(ray, &world, bg, -3), black());
}

#[test]
fn no_hit_returns_background_exactly() {
    let world = HittableList::new();
    let ray = Ray::new(Vec3::new(0, 0, 0), Vec3::new(0, 0, -ONE));
    let bg = Color::new(7, 13, 131);
    assert_eq!(ray_color(ray, &world, bg, 16), bg);
}

#[test]
fn emissive_hit_short_circuits_to_emission() {
    let emit = Color::new(ONE, ONE, 58982);
    let mut world = HittableList::new();
    world.add(Sphere::create(0, 0, -5 * ONE, ONE, DiffuseLight::create(emit)));
    let ray = Ray::new(Vec3::new(0, 0, 0), Vec3::new(0, 0, -ONE));
    // The background must not leak into an emissive hit.
    let bg1 = Color::new(11111, 22222, 33333);
    let bg2 = Color::new(0, 0, 0);
    assert_eq!(ray_color(ray, &world, bg1, 8), emit);
    assert_eq!(ray_color(ray, &world, bg2, 8), emit);
}

#[test]
fn mirror_corridor_exhausts_depth_to_black() {
    // Two perfect mirrors facing each other: the ray bounces forever, so
    // any depth budget runs out and the estimate is black.
    let mirror = Metal::create(Color::new(ONE, ONE, ONE), 0);
    let mut world = HittableList::new();
    world.add(Sphere::create(0, 0, -3 * ONE, ONE, mirror));
    world.add(Sphere::create(0, 0, 3 * ONE, ONE, mirror));
    let ray = Ray::new(Vec3::new(0, 0, 0), Vec3::new(0, 0, -ONE));
    let bg = Color::new(ONE, ONE, ONE);
    assert_eq!(ray_color(ray, &world, bg, 50), black());
}

#[test]
fn lambertian_always_scatters_with_albedo() {
    let albedo = Color::new(60948, 0, 0);
    let mat = Lambertian::create(albedo);
    let hit = HitRecord {
        point: Vec3::new(0, 0, -4 * ONE),
        normal: Vec3::new(0, 0, ONE),
        material: mat,
        t: 4 * ONE,
        front_face: true,
    };
    let ray = Ray::new(Vec3::new(0, 0, 0), Vec3::new(0, 0, -ONE));
    let (att, scattered) = mat.scatter(ray, hit).expect("diffuse always scatters");
    assert_eq!(att, albedo);
    assert_eq!(scattered.origin, hit.point);
}

#[test]
fn metal_reflects_deterministically_with_zero_fuzz() {
    let albedo = Color::new(52429, 52429, 52429);
    let mat = Metal::create(albedo, 0);
    let hit = HitRecord {
        point: Vec3::new(0, 0, -2 * ONE),
        normal: Vec3::new(0, 0, ONE),
        material: mat,
        t: ONE,
        front_face: true,
    };
    let ray = Ray::new(Vec3::new(0, 0, 0), Vec3::new(0, 0, -ONE));
    let (att, scattered) = mat.scatter(ray, hit).expect("head-on reflection survives");
    assert_eq!(att, albedo);
    assert_eq!(scattered.origin, hit.point);
    assert_eq!(scattered.dir, Vec3::new(0, 0, ONE));
}

#[test]
fn metal_absorbs_grazing_reflection() {
    // A reflection that ends up tangent to the surface (dot == 0) is
    // absorbed.
    let mat = Metal::create(Color::new(ONE, ONE, ONE), 0);
    let hit = HitRecord {
        point: Vec3::new(0, 0, 0),
        normal: Vec3::new(0, 0, ONE),
        material: mat,
        t: ONE,
        front_face: true,
    };
    let ray = Ray::new(Vec3::new(-ONE, 0, 0), Vec3::new(ONE, 0, 0));
    assert!(mat.scatter(ray, hit).is_none());
}

#[test]
fn dielectric_total_internal_reflection() {
    // Leaving the glass at 45 degrees with index 1.5 cannot refract, so
    // the direction is the deterministic reflection.
    let mat = Dieletric::create(Color::new(ONE, ONE, ONE), 98304);
    let hit = HitRecord {
        point: Vec3::new(0, 0, 0),
        normal: Vec3::new(0, 0, ONE),
        material: mat,
        t: ONE,
        front_face: false,
    };
    let ray = Ray::new(Vec3::new(-ONE, 0, ONE), Vec3::new(ONE, 0, -ONE));
    let (att, scattered) = mat.scatter(ray, hit).expect("dielectric always scatters");
    assert_eq!(att, Color::new(ONE, ONE, ONE));
    assert_eq!(scattered.dir, Vec3::new(46341, 0, 46341));
}

#[test]
fn diffuse_light_never_scatters() {
    let mat = DiffuseLight::create(Color::new(ONE, ONE, 0));
    let hit = HitRecord {
        point: Vec3::new(0, 0, 0),
        normal: Vec3::new(0, 0, ONE),
        material: mat,
        t: ONE,
        front_face: true,
    };
    let ray = Ray::new(Vec3::new(0, 0, ONE), Vec3::new(0, 0, -ONE));
    assert!(mat.scatter(ray, hit).is_none());
    assert_eq!(mat.emitted(), Color::new(ONE, ONE, 0));
}

#[test]
fn material_creation_clamps_parameters() {
    let m = Metal::create(Color::new(2 * ONE, -5, 300), 3 * ONE);
    match m {
        Material::Metal(inner) => {
            assert_eq!(inner.albedo, Color::new(ONE, 0, 300));
            assert_eq!(inner.fuzz, ONE);
        }
        _ => panic!("wrong variant"),
    }
    let d = Dieletric::create(Color::new(ONE, ONE, ONE), 0);
    match d {
        Material::Dieletric(inner) => {
            assert_eq!(inner.index_of_refraction, raytrace::material::IOR_MIN);
        }
        _ => panic!("wrong variant"),
    }
}

#[test]
fn hit_normal_reports_the_surface_normal() {
    let mut world = HittableList::new();
    world.add(Sphere::create(0, 0, -5 * ONE, ONE, Lambertian::create(black())));
    let ray = Ray::new(Vec3::new(0, 0, 0), Vec3::new(0, 0, -ONE));
    assert_eq!(hit_normal(ray, &world), Color::new(0, 0, ONE));
    let miss = Ray::new(Vec3::new(0, 0, 0), Vec3::new(0, 0, ONE));
    assert_eq!(hit_normal(miss, &world), black());
}

#[test]
fn hit_albedo_reports_base_color_or_sky() {
    let albedo = Color::new(13107, 52429, 19661);
    let mut world = HittableList::new();
    world.add(Sphere::create(0, 0, -5 * ONE, ONE, Lambertian::create(albedo)));
    let ray = Ray::new(Vec3::new(0, 0, 0), Vec3::new(0, 0, -ONE));
    assert_eq!(hit_albedo(ray, &world), albedo);
    // A ray straight up misses and lands on the top of the sky gradient.
    let up = Ray::new(Vec3::new(0, 0, 0), Vec3::new(0, ONE, 0));
    assert_eq!(hit_albedo(up, &world), Color::new(32768, 45875, ONE));
}

#[test]
fn radiance_is_emission_plus_attenuated_bounce() {
    // A mirror in front of a light: one bounce picks up the full
    // emission, scaled by the mirror's albedo of one half.
    let light = DiffuseLight::create(Color::new(ONE, ONE, ONE));
    let half_mirror = Metal::create(Color::new(32768, 32768, 32768), 0);
    let mut world = HittableList::new();
    world.add(Sphere::create(0, 0, -3 * ONE, ONE, half_mirror));
    world.add(Sphere::create(0, 0, 3 * ONE, ONE, light));
    let ray = Ray::new(Vec3::new(0, 0, 0), Vec3::new(0, 0, -ONE));
    let c = ray_color(ray, &world, black(), 4);
    assert_eq!(c, Color::new(32768, 32768, 32768));
}
