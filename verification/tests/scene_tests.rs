use raytracer::camera::Camera;
use raytracer::fixed::{Fixed, SCALE};
use raytracer::hittable::{HitRecord, Hittable};
use raytracer::hittable_list::HittableList;
use raytracer::material::{AnyMaterial, Dielectric, Lambertian, Material, Metal};
use raytracer::ray::Ray;
use raytracer::render::{pixel_coordinate, quantize, sample_pixel, to_rgb};
use raytracer::sphere::{hit_sphere, Sphere};
use raytracer::tracer::{background, ray_color};
use raytracer::utils::{
    point_in_unit_disk, point_in_unit_sphere, rand_signed_unit, rand_vec3_in_unit_disk,
    rand_vec3_in_unit_sphere, rand_vec3_unit, signed_unit, Lcg, RandomSource,
};
use raytracer::vec3::Vec3;

fn fx(v: f64) -> Fixed {
    Fixed::from_raw((v * 1e9).round() as i64)
}

fn v3(x: f64, y: f64, z: f64) -> Vec3 {
    Vec3::new(fx(x), fx(y), fx(z))
}

fn grey() -> AnyMaterial {
    AnyMaterial::Lambertian(Lambertian::new(v3(0.5, 0.5, 0.5)))
}

fn red() -> AnyMaterial {
    AnyMaterial::Lambertian(Lambertian::new(v3(0.9, 0.1, 0.1)))
}

fn floor_hit(front_face: bool) -> HitRecord {
    HitRecord {
        p: v3(1.0, 0.0, 2.0),
        normal: v3(0.0, 1.0, 0.0),
        material: grey(),
        t: fx(3.0),
        front_face,
    }
}

/// A source that gives the same number at every draw.
struct Constant(Fixed);

impl RandomSource for Constant {
    fn peek(&self) -> Fixed {
        self.0
    }

    fn rest(&self) -> Self {
        Constant(self.0)
    }

    fn next_unit(&mut self) -> Fixed {
        self.0
    }
}

#[test]
fn sphere_hit_symmetry() {
    let sphere = Sphere::new(v3(0.0, 0.0, 0.0), fx(1.0), grey());
    let r = Ray::new(v3(0.0, 0.0, 2.0), v3(0.0, 0.0, -1.0));
    let rec = sphere.hit(&r, Fixed::zero(), Fixed::max_value()).unwrap();
    assert_eq!(rec.t, fx(1.0));
    assert_eq!(rec.p, v3(0.0, 0.0, 1.0));
    assert_eq!(rec.normal, v3(0.0, 0.0, 1.0));
    assert!(rec.front_face);
    assert_eq!(rec.material, grey());
}

#[test]
fn sphere_hit_from_inside_turns_the_normal() {
    let sphere = Sphere::new(v3(0.0, 0.0, 0.0), fx(1.0), grey());
    let r = Ray::new(v3(0.0, 0.0, 0.0), v3(0.0, 0.0, -1.0));
    let rec = sphere.hit(&r, fx(0.001), Fixed::max_value()).unwrap();
    assert_eq!(rec.t, fx(1.0));
    assert_eq!(rec.p, v3(0.0, 0.0, -1.0));
    assert_eq!(rec.normal, v3(0.0, 0.0, 1.0));
    assert!(!rec.front_face);
}

#[test]
fn normal_opposes_the_ray_outside_and_inside() {
    let sphere = Sphere::new(v3(0.5, -0.25, -3.0), fx(1.5), grey());
    let outside = Ray::new(v3(0.0, 0.0, 0.0), v3(0.1, -0.05, -1.0));
    let inside = Ray::new(v3(0.5, -0.25, -3.0), v3(0.3, 0.7, -0.2));
    for r in [outside, inside] {
        let rec = sphere.hit(&r, fx(0.001), Fixed::max_value()).unwrap();
        assert!(r.direction().dot(rec.normal).le(Fixed::zero()));
    }
    let rec = sphere.hit(&outside, fx(0.001), Fixed::max_value()).unwrap();
    assert!(rec.front_face);
    let rec = sphere.hit(&inside, fx(0.001), Fixed::max_value()).unwrap();
    assert!(!rec.front_face);
}

#[test]
fn sphere_miss() {
    let sphere = Sphere::new(v3(0.0, 0.0, -5.0), fx(1.0), grey());
    let beside = Ray::new(v3(0.0, 2.0, 0.0), v3(0.0, 0.0, -1.0));
    assert_eq!(sphere.hit(&beside, Fixed::zero(), Fixed::max_value()), None);
    let away = Ray::new(v3(0.0, 0.0, 0.0), v3(0.0, 0.0, 1.0));
    assert_eq!(sphere.hit(&away, Fixed::zero(), Fixed::max_value()), None);
}

#[test]
fn sphere_hit_window_is_open_at_both_ends() {
    let sphere = Sphere::new(v3(0.0, 0.0, 0.0), fx(1.0), grey());
    let r = Ray::new(v3(0.0, 0.0, 2.0), v3(0.0, 0.0, -1.0));
    // the roots are 1 and 3
    assert_eq!(sphere.hit(&r, fx(1.0), fx(3.0)), None);
    assert_eq!(sphere.hit(&r, fx(1.0), fx(3.000000001)).unwrap().t, fx(3.0));
    assert_eq!(sphere.hit(&r, fx(0.999999999), fx(3.0)).unwrap().t, fx(1.0));
    assert_eq!(sphere.hit(&r, fx(3.0), Fixed::max_value()), None);
    assert_eq!(sphere.hit(&r, Fixed::zero(), fx(1.0)), None);
}

#[test]
fn sphere_is_not_hit_by_a_ray_without_direction() {
    let sphere = Sphere::new(v3(0.0, 0.0, 0.0), fx(1.0), grey());
    let r = Ray::new(v3(0.0, 0.0, 0.0), Vec3::zero());
    assert_eq!(sphere.hit(&r, fx(-1.0), Fixed::max_value()), None);
}

#[test]
fn sphere_with_negative_radius_has_its_normal_inward() {
    let sphere = Sphere::new(v3(0.0, 0.0, 0.0), fx(-1.0), grey());
    let r = Ray::new(v3(0.0, 0.0, 2.0), v3(0.0, 0.0, -1.0));
    let rec = sphere.hit(&r, Fixed::zero(), Fixed::max_value()).unwrap();
    assert_eq!(rec.t, fx(1.0));
    assert!(!rec.front_face);
    assert_eq!(rec.normal, v3(0.0, 0.0, 1.0));
}

#[test]
fn set_face_normal_keeps_or_turns_the_normal() {
    let r = Ray::new(v3(0.0, 0.0, 0.0), v3(0.0, -1.0, 0.0));
    let p = v3(0.0, -1.0, 0.0);
    let up = v3(0.0, 1.0, 0.0);
    let down = v3(0.0, -1.0, 0.0);
    let mut rec = HitRecord::new(&p, &up, fx(1.0), &grey());
    assert!(!rec.front_face);
    rec.set_face_normal(&r, &up);
    assert!(rec.front_face);
    assert_eq!(rec.normal, up);
    rec.set_face_normal(&r, &down);
    assert!(!rec.front_face);
    assert_eq!(rec.normal, up);
    assert_eq!(rec.p, p);
    assert_eq!(rec.t, fx(1.0));
}

#[test]
fn world_returns_the_nearest_of_two_hits() {
    let far = Sphere::new(v3(0.0, 0.0, -5.0), fx(1.0), grey());
    let near = Sphere::new(v3(0.0, 0.0, -3.0), fx(1.0), red());
    let r = Ray::new(v3(0.0, 0.0, 0.0), v3(0.0, 0.0, -1.0));
    let t_far = far.hit(&r, fx(0.001), Fixed::max_value()).unwrap().t;
    let t_near = near.hit(&r, fx(0.001), Fixed::max_value()).unwrap().t;
    assert_eq!(t_far, fx(4.0));
    assert_eq!(t_near, fx(2.0));

    let mut world = HittableList::new();
    world.add(far);
    world.add(near);
    let rec = world.hit(&r, fx(0.001), Fixed::max_value()).unwrap();
    assert_eq!(rec.t, fx(2.0));
    assert_eq!(rec.material, red());

    let mut world = HittableList::new();
    world.add(near);
    world.add(far);
    let rec = world.hit(&r, fx(0.001), Fixed::max_value()).unwrap();
    assert_eq!(rec.t, fx(2.0));
    assert_eq!(rec.material, red());
}

#[test]
fn world_keeps_the_first_of_two_equal_hits() {
    let first = Sphere::new(v3(0.0, 0.0, -3.0), fx(1.0), grey());
    let second = Sphere::new(v3(0.0, 0.0, -3.0), fx(1.0), red());
    let r = Ray::new(v3(0.0, 0.0, 0.0), v3(0.0, 0.0, -1.0));
    let mut world = HittableList::new();
    world.add(first);
    world.add(second);
    assert_eq!(world.len(), 2);
    let rec = world.hit(&r, fx(0.001), Fixed::max_value()).unwrap();
    assert_eq!(rec.material, grey());
}

#[test]
fn world_hit_respects_the_window() {
    let far = Sphere::new(v3(0.0, 0.0, -5.0), fx(1.0), grey());
    let near = Sphere::new(v3(0.0, 0.0, -3.0), fx(1.0), red());
    let r = Ray::new(v3(0.0, 0.0, 0.0), v3(0.0, 0.0, -1.0));
    let mut world = HittableList::new();
    world.add(far);
    world.add(near);
    // the near sphere is entered at 2 and left at 4, the far one at 4 and 6
    assert_eq!(world.hit(&r, fx(2.0), fx(4.0)), None);
    assert_eq!(world.hit(&r, fx(1.5), fx(4.0)).unwrap().material, red());
    // both are hit at 4: the one added first is kept
    let rec = world.hit(&r, fx(2.5), fx(4.5)).unwrap();
    assert_eq!(rec.t, fx(4.0));
    assert_eq!(rec.material, grey());
    assert_eq!(world.hit(&r, fx(4.0), Fixed::max_value()).unwrap().t, fx(6.0));
    assert_eq!(world.hit(&r, fx(6.0), Fixed::max_value()), None);
}

#[test]
fn empty_world_is_never_hit() {
    let world: HittableList<Sphere> = HittableList::new();
    assert_eq!(world.len(), 0);
    let r = Ray::new(v3(0.0, 0.0, 0.0), v3(0.0, 0.0, -1.0));
    assert_eq!(world.hit(&r, Fixed::zero(), Fixed::max_value()), None);
}

#[test]
fn world_of_worlds() {
    let mut inner = HittableList::new();
    inner.add(Sphere::new(v3(0.0, 0.0, -5.0), fx(1.0), grey()));
    let mut other = HittableList::new();
    other.add(Sphere::new(v3(0.0, 0.0, -3.0), fx(1.0), red()));
    let mut world = HittableList::new();
    world.add(inner);
    world.add(other);
    let r = Ray::new(v3(0.0, 0.0, 0.0), v3(0.0, 0.0, -1.0));
    assert_eq!(world.hit(&r, fx(0.001), Fixed::max_value()).unwrap().t, fx(2.0));
}

#[test]
fn lambertian_attenuates_by_its_colour() {
    let m = Lambertian::new(v3(0.8, 0.3, 0.1));
    let r = Ray::new(v3(1.0, 3.0, 2.0), v3(0.0, -1.0, 0.0));
    let rec = floor_hit(true);
    let s = m.scatter_with(&r, &rec, v3(0.3, 0.4, 0.0), Fixed::zero()).unwrap();
    assert_eq!(s.attenuation, v3(0.8, 0.3, 0.1));
    assert_eq!(s.ray.origin(), rec.p);
    // the normal plus the unit vector toward the sample
    assert_eq!(s.ray.direction(), v3(0.6, 1.8, 0.0));
    let mut rng = Lcg::new(7);
    for _ in 0..50 {
        let s = m.scatter(&r, &rec, &mut rng).unwrap();
        assert_eq!(s.attenuation, v3(0.8, 0.3, 0.1));
        assert!(s.attenuation.x.le(fx(0.8)));
        assert_eq!(s.ray.origin(), rec.p);
    }
}

#[test]
fn lambertian_falls_back_to_the_normal() {
    let m = Lambertian::new(v3(0.8, 0.3, 0.1));
    let r = Ray::new(v3(1.0, 3.0, 2.0), v3(0.0, -1.0, 0.0));
    let rec = floor_hit(true);
    // the unit vector toward the sample cancels the normal
    let s = m.scatter_with(&r, &rec, v3(0.0, -0.5, 0.0), Fixed::zero()).unwrap();
    assert_eq!(s.ray.direction(), rec.normal);
}

#[test]
fn metal_mirrors_and_attenuates_by_its_colour() {
    let m = Metal::new(v3(0.7, 0.6, 0.5), Fixed::zero());
    let r = Ray::new(v3(-2.0, 4.0, 2.0), v3(3.0, -4.0, 0.0));
    let rec = floor_hit(true);
    let s = m.scatter_with(&r, &rec, v3(0.5, 0.5, 0.5), Fixed::zero()).unwrap();
    assert_eq!(s.attenuation, v3(0.7, 0.6, 0.5));
    assert_eq!(s.ray.origin(), rec.p);
    assert_eq!(s.ray.direction(), v3(0.6, 0.8, 0.0));
}

#[test]
fn metal_fuzz_moves_the_mirror_direction() {
    let m = Metal::new(v3(0.7, 0.6, 0.5), fx(0.5));
    let r = Ray::new(v3(-2.0, 4.0, 2.0), v3(3.0, -4.0, 0.0));
    let rec = floor_hit(true);
    let s = m.scatter_with(&r, &rec, v3(0.2, -0.4, 0.6), Fixed::zero()).unwrap();
    assert_eq!(s.ray.direction(), v3(0.7, 0.6, 0.3));
}

#[test]
fn metal_absorbs_a_ray_sent_into_the_surface() {
    let m = Metal::new(v3(0.7, 0.6, 0.5), fx(1.0));
    let r = Ray::new(v3(-2.0, 4.0, 2.0), v3(3.0, -4.0, 0.0));
    let rec = floor_hit(true);
    assert_eq!(m.scatter_with(&r, &rec, v3(0.0, -0.9, 0.0), Fixed::zero()), None);
    // a direction that lies in the surface is kept
    let s = m.scatter_with(&r, &rec, v3(0.0, -0.8, 0.0), Fixed::zero()).unwrap();
    assert_eq!(s.ray.direction(), v3(0.6, 0.0, 0.0));
}

#[test]
fn metal_fuzz_is_clamped() {
    let r = Ray::new(v3(-2.0, 4.0, 2.0), v3(3.0, -4.0, 0.0));
    let rec = floor_hit(true);
    let sample = v3(0.1, 0.1, 0.1);
    let wild = Metal::new(v3(0.7, 0.6, 0.5), fx(7.0));
    let rough = Metal::new(v3(0.7, 0.6, 0.5), fx(1.0));
    assert_eq!(wild, rough);
    let s = wild.scatter_with(&r, &rec, sample, Fixed::zero()).unwrap();
    assert_eq!(s.ray.direction(), v3(0.7, 0.9, 0.1));
    let below = Metal::new(v3(0.7, 0.6, 0.5), fx(-3.0));
    let smooth = Metal::new(v3(0.7, 0.6, 0.5), Fixed::zero());
    assert_eq!(below, smooth);
    let s = below.scatter_with(&r, &rec, sample, Fixed::zero()).unwrap();
    assert_eq!(s.ray.direction(), v3(0.6, 0.8, 0.0));
}

#[test]
fn metal_scatter_with_a_drawn_sample() {
    let m = Metal::new(v3(0.7, 0.6, 0.5), fx(0.3));
    let r = Ray::new(v3(-2.0, 4.0, 2.0), v3(3.0, -4.0, 0.0));
    let rec = floor_hit(true);
    let mut rng = Lcg::new(11);
    for _ in 0..50 {
        if let Some(s) = m.scatter(&r, &rec, &mut rng) {
            assert_eq!(s.attenuation, v3(0.7, 0.6, 0.5));
            assert!(!s.ray.direction().dot(rec.normal).is_negative());
        }
    }
}

#[test]
fn dielectric_attenuation_is_white() {
    let glass = Dielectric::new(fx(1.5));
    assert_eq!(glass.ir, fx(1.5));
    let r = Ray::new(v3(1.0, 3.0, 2.0), v3(0.3, -1.0, 0.2));
    let mut rng = Lcg::new(3);
    for front in [true, false] {
        let rec = floor_hit(front);
        for _ in 0..50 {
            let s = glass.scatter(&r, &rec, &mut rng).unwrap();
            assert_eq!(s.attenuation, v3(1.0, 1.0, 1.0));
            assert_eq!(s.ray.origin(), rec.p);
        }
    }
}

#[test]
fn dielectric_bends_or_mirrors_by_the_draw() {
    let glass = Dielectric::new(fx(1.5));
    let r = Ray::new(v3(1.0, 3.0, 2.0), v3(0.0, -3.0, 0.0));
    let rec = floor_hit(true);
    // head on, the reflectance is about 0.04
    let s = glass.scatter_with(&r, &rec, Vec3::zero(), fx(0.5)).unwrap();
    assert_eq!(s.ray.direction(), v3(0.0, -1.0, 0.0));
    let s = glass.scatter_with(&r, &rec, Vec3::zero(), fx(0.01)).unwrap();
    assert_eq!(s.ray.direction(), v3(0.0, 1.0, 0.0));
}

#[test]
fn dielectric_mirrors_where_it_cannot_bend() {
    let glass = Dielectric::new(fx(1.5));
    let r = Ray::new(v3(1.0, 3.0, 2.0), v3(0.8, -0.6, 0.0));
    // coming out of the glass: the ratio is 1.5, the sine 0.8
    let rec = floor_hit(false);
    let s = glass.scatter_with(&r, &rec, Vec3::zero(), fx(0.999999999)).unwrap();
    assert_eq!(s.ray.direction(), v3(0.8, 0.6, 0.0));
    // going in, the ratio is two thirds and the ray is bent
    let rec = floor_hit(true);
    let s = glass.scatter_with(&r, &rec, Vec3::zero(), fx(0.999999999)).unwrap();
    assert!(s.ray.direction().y.is_negative());
    assert!(s.ray.direction().x.lt(fx(0.8)));
}

#[test]
fn any_material_answers_as_the_material_it_holds() {
    let r = Ray::new(v3(-2.0, 4.0, 2.0), v3(3.0, -4.0, 0.0));
    let rec = floor_hit(true);
    let sample = v3(0.1, 0.2, 0.3);
    let draw = fx(0.25);
    let l = Lambertian::new(v3(0.8, 0.3, 0.1));
    let m = Metal::new(v3(0.7, 0.6, 0.5), fx(0.5));
    let d = Dielectric::new(fx(1.5));
    assert_eq!(
        AnyMaterial::Lambertian(l).scatter_with(&r, &rec, sample, draw),
        l.scatter_with(&r, &rec, sample, draw)
    );
    assert_eq!(
        AnyMaterial::Metal(m).scatter_with(&r, &rec, sample, draw),
        m.scatter_with(&r, &rec, sample, draw)
    );
    assert_eq!(
        AnyMaterial::Dielectric(d).scatter_with(&r, &rec, sample, draw),
        d.scatter_with(&r, &rec, sample, draw)
    );
    let mut a = Lcg::new(5);
    let mut b = Lcg::new(5);
    assert_eq!(AnyMaterial::Metal(m).scatter(&r, &rec, &mut a), m.scatter(&r, &rec, &mut b));
}

#[test]
fn reflectance_exact_values() {
    // r0 = ((1 - 1.5) / (1 + 1.5))^2 = 0.04
    assert_eq!(Dielectric::reflectance(fx(1.0), fx(1.5)), fx(0.04));
    assert_eq!(Dielectric::reflectance(fx(0.0), fx(1.5)), fx(1.0));
    // 0.04 + 0.96 * 0.5^5
    assert_eq!(Dielectric::reflectance(fx(0.5), fx(1.5)), fx(0.07));
    assert_eq!(Dielectric::reflectance(fx(1.0), fx(1.0)), Fixed::zero());
}

#[test]
fn reflectance_lies_between_r0_and_one_and_grows_as_the_cosine_falls() {
    for idx in [0.1, 0.5, 2.0 / 3.0, 1.0, 1.5, 2.4, 1000.0] {
        let r0 = Dielectric::reflectance(Fixed::one(), fx(idx));
        let mut last = r0;
        let mut step = 100;
        while step >= 0 {
            let cosine = Fixed::from_raw(step * (SCALE / 100));
            let refl = Dielectric::reflectance(cosine, fx(idx));
            assert!(r0.le(refl));
            assert!(refl.le(Fixed::one()));
            assert!(last.le(refl));
            last = refl;
            step -= 1;
        }
    }
}

#[test]
fn ray_color_with_no_depth_is_black() {
    let mut world = HittableList::new();
    world.add(Sphere::new(v3(0.0, 0.0, -1.0), fx(0.5), grey()));
    let mut rng = Lcg::new(1);
    let hits = Ray::new(v3(0.0, 0.0, 0.0), v3(0.0, 0.0, -1.0));
    let misses = Ray::new(v3(0.0, 0.0, 0.0), v3(0.0, 1.0, 0.0));
    assert_eq!(ray_color(&hits, &world, 0, &mut rng), Vec3::zero());
    assert_eq!(ray_color(&misses, &world, 0, &mut rng), Vec3::zero());
}

#[test]
fn background_gradient() {
    let world: HittableList<Sphere> = HittableList::new();
    let mut rng = Lcg::new(1);
    let up = Ray::new(v3(0.0, 0.0, 0.0), v3(0.0, 1.0, 0.0));
    let down = Ray::new(v3(0.0, 0.0, 0.0), v3(0.0, -1.0, 0.0));
    let level = Ray::new(v3(0.0, 0.0, 0.0), v3(0.0, 0.0, -2.0));
    assert_eq!(ray_color(&up, &world, 50, &mut rng), v3(0.5, 0.7, 1.0));
    assert_eq!(ray_color(&down, &world, 50, &mut rng), v3(1.0, 1.0, 1.0));
    assert_eq!(ray_color(&level, &world, 50, &mut rng), v3(0.75, 0.85, 1.0));
    assert_eq!(background(v3(0.0, 5.0, 0.0)), v3(0.5, 0.7, 1.0));
    assert_eq!(background(v3(3.0, 4.0, 0.0)), v3(0.55, 0.73, 1.0));
}

#[test]
fn ray_color_multiplies_the_attenuation_in() {
    let mut world = HittableList::new();
    world.add(Sphere::new(v3(0.0, 0.0, -1.0), fx(0.5), grey()));
    let r = Ray::new(v3(0.0, 0.0, 0.0), v3(0.0, 0.0, -1.0));
    let mut rng = Lcg::new(9);
    // one bounce: the scattered ray has no depth left
    assert_eq!(ray_color(&r, &world, 1, &mut rng), Vec3::zero());
    // two bounces: half of a background colour, as the sphere is convex
    for _ in 0..20 {
        let c = ray_color(&r, &world, 2, &mut rng);
        assert!(fx(0.25).le(c.x) && c.x.le(fx(0.5)));
        assert!(fx(0.35).le(c.y) && c.y.le(fx(0.5)));
        assert_eq!(c.z, fx(0.5));
    }
}

#[test]
fn ray_color_of_a_mirror_facing_the_sky() {
    let mut world = HittableList::new();
    let mirror = AnyMaterial::Metal(Metal::new(v3(0.8, 0.8, 0.8), Fixed::zero()));
    world.add(Sphere::new(v3(0.0, -100.0, 0.0), fx(100.0), mirror));
    let r = Ray::new(v3(0.0, 1.0, 0.0), v3(0.0, -1.0, 0.0));
    let mut rng = Lcg::new(2);
    // straight down onto the top of the sphere and straight up again
    assert_eq!(ray_color(&r, &world, 5, &mut rng), v3(0.4, 0.56, 0.8));
}

#[test]
fn lcg_is_determined_by_its_seed() {
    let mut a = Lcg::new(42);
    let mut b = Lcg::new(42);
    let mut c = Lcg::new(43);
    let mut differs = false;
    for _ in 0..100 {
        let x = a.next_unit();
        assert_eq!(x, b.next_unit());
        differs = differs || x != c.next_unit();
        assert!(!x.is_negative() && x.lt(Fixed::one()));
    }
    assert!(differs);
}

#[test]
fn lcg_first_numbers() {
    let mut g = Lcg::new(42);
    assert_eq!(g.next_unit().raw(), 568_230_326);
    assert_eq!(g.next_unit().raw(), 225_463_428);
    assert_eq!(g.next_unit().raw(), 412_838_318);
}

#[test]
fn samplers_keep_to_their_shapes() {
    let mut rng = Lcg::new(2024);
    for _ in 0..200 {
        let s = rand_signed_unit(&mut rng);
        assert!(fx(-1.0).le(s) && s.lt(Fixed::one()));
        let v = rand_vec3_in_unit_sphere(&mut rng);
        assert!(v.length_squared().lt(Fixed::one()));
        let d = rand_vec3_in_unit_disk(&mut rng);
        assert!(d.length_squared().lt(Fixed::one()));
        assert_eq!(d.z, Fixed::zero());
        let u = rand_vec3_unit(&mut rng);
        let len = u.length().raw();
        assert!((len - SCALE).abs() <= 3, "length {}", len);
    }
}

#[test]
fn samplers_give_up_on_a_source_that_never_fits() {
    // every point drawn is the corner (0.999999998, 0.999999998, 0.999999998)
    let mut stuck = Constant(fx(0.999999999));
    assert_eq!(rand_vec3_in_unit_sphere(&mut stuck), Vec3::zero());
    assert_eq!(rand_vec3_in_unit_disk(&mut stuck), Vec3::zero());
    assert_eq!(rand_vec3_unit(&mut stuck), Vec3::zero());
    // the centre of the cube is accepted at once
    let mut middle = Constant(fx(0.5));
    assert_eq!(rand_signed_unit(&mut middle), Fixed::zero());
    assert_eq!(rand_vec3_in_unit_sphere(&mut middle), Vec3::zero());
    let mut low = Constant(fx(0.25));
    assert_eq!(rand_vec3_in_unit_sphere(&mut low), v3(-0.5, -0.5, -0.5));
    assert_eq!(rand_vec3_in_unit_disk(&mut low), v3(-0.5, -0.5, 0.0));
}

fn simple_camera(aperture: f64) -> Camera {
    Camera::new(
        v3(0.0, 0.0, 0.0),
        v3(0.0, 0.0, -1.0),
        v3(0.0, 1.0, 0.0),
        fx(90.0),
        fx(2.0),
        fx(aperture),
        fx(1.0),
    )
}

fn close(a: Vec3, b: Vec3, tolerance: i64) -> bool {
    (a.x.raw() - b.x.raw()).abs() <= tolerance
        && (a.y.raw() - b.y.raw()).abs() <= tolerance
        && (a.z.raw() - b.z.raw()).abs() <= tolerance
}

#[test]
fn pinhole_camera_rays_start_at_the_eye() {
    let cam = simple_camera(0.0);
    let mut rng = Lcg::new(5);
    for (u, v) in [(0.0, 0.0), (0.5, 0.5), (1.0, 1.0), (0.25, 0.75)] {
        let r = cam.get_ray(fx(u), fx(v), &mut rng);
        assert_eq!(r.origin(), v3(0.0, 0.0, 0.0));
    }
    let r = cam.get_ray_with(fx(0.5), fx(0.5), v3(0.6, 0.3, 0.0));
    assert_eq!(r.origin(), v3(0.0, 0.0, 0.0));
}

#[test]
fn camera_rays_aim_at_the_image() {
    // a right angle of view: the image is 2 high and 4 wide at distance 1
    let cam = simple_camera(0.0);
    let sample = Vec3::zero();
    let centre = cam.get_ray_with(fx(0.5), fx(0.5), sample);
    assert!(close(centre.direction(), v3(0.0, 0.0, -1.0), 20));
    let corner = cam.get_ray_with(fx(0.0), fx(0.0), sample);
    assert!(close(corner.direction(), v3(-2.0, -1.0, -1.0), 20));
    let opposite = cam.get_ray_with(fx(1.0), fx(1.0), sample);
    assert!(close(opposite.direction(), v3(2.0, 1.0, -1.0), 20));
}

#[test]
fn camera_lens_moves_the_origin_and_keeps_the_target() {
    let cam = simple_camera(0.5);
    let through_centre = cam.get_ray_with(fx(0.25), fx(0.75), Vec3::zero());
    let through_edge = cam.get_ray_with(fx(0.25), fx(0.75), v3(0.8, -0.4, 0.0));
    assert_eq!(through_centre.origin(), v3(0.0, 0.0, 0.0));
    // the lens has radius 0.25; right is +x and up is +y
    assert_eq!(through_edge.origin(), v3(0.2, -0.1, 0.0));
    let target_a = through_centre.at(Fixed::one());
    let target_b = through_edge.at(Fixed::one());
    assert_eq!(target_a, target_b);
    assert!(close(target_a, v3(-1.0, 0.5, -1.0), 20));
}

#[test]
fn camera_looks_along_a_slanted_axis() {
    let cam = Camera::new(
        v3(3.0, 0.0, 4.0),
        v3(0.0, 0.0, 0.0),
        v3(0.0, 1.0, 0.0),
        fx(90.0),
        fx(1.0),
        Fixed::zero(),
        fx(5.0),
    );
    let centre = cam.get_ray_with(fx(0.5), fx(0.5), Vec3::zero());
    assert_eq!(centre.origin(), v3(3.0, 0.0, 4.0));
    // the plane of focus passes through the point looked at
    assert!(close(centre.direction(), v3(-3.0, 0.0, -4.0), 50));
}

#[test]
fn hit_sphere_gives_the_smaller_solution() {
    let r = Ray::new(v3(0.0, 0.0, 0.0), v3(0.0, 0.0, -1.0));
    assert_eq!(hit_sphere(&v3(0.0, 0.0, -1.0), fx(0.5), &r), Some(fx(0.5)));
    assert_eq!(hit_sphere(&v3(0.0, 0.0, -3.0), fx(1.0), &r), Some(fx(2.0)));
    // a direction twice as long reaches the sphere at half the parameter
    let fast = Ray::new(v3(0.0, 0.0, 0.0), v3(0.0, 0.0, -2.0));
    assert_eq!(hit_sphere(&v3(0.0, 0.0, -3.0), fx(1.0), &fast), Some(fx(1.0)));
    // the line meets a sphere behind the origin at negative parameters
    assert_eq!(hit_sphere(&v3(0.0, 0.0, 1.0), fx(0.5), &r), Some(fx(-1.5)));
    // no solution
    assert_eq!(hit_sphere(&v3(0.0, 2.0, -1.0), fx(0.5), &r), None);
    // the line touches the sphere
    assert_eq!(hit_sphere(&v3(0.0, 0.5, -1.0), fx(0.5), &r), Some(fx(1.0)));
}

#[test]
fn sphere_of_radius_zero_is_hit_only_through_its_centre() {
    let point = Sphere::new(v3(0.0, 0.0, -2.0), Fixed::zero(), grey());
    let through = Ray::new(v3(0.0, 0.0, 0.0), v3(0.0, 0.0, -1.0));
    let rec = point.hit(&through, fx(0.001), Fixed::max_value()).unwrap();
    assert_eq!(rec.t, fx(2.0));
    assert_eq!(rec.p, v3(0.0, 0.0, -2.0));
    assert_eq!(rec.normal, Vec3::zero());
    let beside = Ray::new(v3(0.0, 0.001, 0.0), v3(0.0, 0.0, -1.0));
    assert_eq!(point.hit(&beside, fx(0.001), Fixed::max_value()), None);
}

#[test]
fn colours_stay_in_the_unit_range() {
    let mut world = HittableList::new();
    world.add(Sphere::new(
        v3(0.0, -100.5, -1.0),
        fx(100.0),
        AnyMaterial::Lambertian(Lambertian::new(v3(0.8, 0.8, 0.0))),
    ));
    world.add(Sphere::new(v3(0.0, 0.0, -1.0), fx(0.5), red()));
    world.add(Sphere::new(
        v3(-1.0, 0.0, -1.0),
        fx(0.5),
        AnyMaterial::Dielectric(Dielectric::new(fx(1.5))),
    ));
    world.add(Sphere::new(
        v3(1.0, 0.0, -1.0),
        fx(0.5),
        AnyMaterial::Metal(Metal::new(v3(1.0, 0.6, 0.2), fx(0.3))),
    ));
    let cam = Camera::new(
        v3(0.0, 0.5, 1.0),
        v3(0.0, 0.0, -1.0),
        v3(0.0, 1.0, 0.0),
        fx(90.0),
        fx(1.5),
        fx(0.1),
        fx(2.0),
    );
    let mut rng = Lcg::new(77);
    let mut lit = 0;
    for i in 0..20 {
        for j in 0..20 {
            let r = cam.get_ray(fx(i as f64 / 19.0), fx(j as f64 / 19.0), &mut rng);
            let c = ray_color(&r, &world, 20, &mut rng);
            for channel in [c.x, c.y, c.z] {
                assert!(!channel.is_negative() && channel.le(Fixed::one()));
            }
            if c != Vec3::zero() {
                lit += 1;
            }
        }
    }
    assert!(lit > 300);
}

#[test]
fn pixel_coordinate_spans_the_image() {
    assert_eq!(pixel_coordinate(0, Fixed::zero(), 401), Fixed::zero());
    assert_eq!(pixel_coordinate(400, Fixed::zero(), 401), Fixed::one());
    assert_eq!(pixel_coordinate(100, Fixed::zero(), 401), fx(0.25));
    assert_eq!(pixel_coordinate(100, fx(0.5), 401), fx(0.25125));
    // an image of one pixel has no last column to divide by
    assert_eq!(pixel_coordinate(0, Fixed::zero(), 1), Fixed::zero());
    assert_eq!(pixel_coordinate(0, fx(0.5), 1), Fixed::max_value());
}

#[test]
fn sample_pixel_without_samples_is_black() {
    let world: HittableList<Sphere> = HittableList::new();
    let cam = simple_camera(0.0);
    let mut rng = Lcg::new(1);
    assert_eq!(sample_pixel(&cam, &world, 3, 4, 10, 10, 0, 5, &mut rng), Vec3::zero());
}

#[test]
fn sample_pixel_of_an_empty_scene_is_the_background() {
    let world: HittableList<Sphere> = HittableList::new();
    let cam = simple_camera(0.0);
    // no jitter: the ray goes through the lower left corner of the pixel
    let mut still = Constant(Fixed::zero());
    let c = sample_pixel(&cam, &world, 5, 10, 11, 11, 4, 5, &mut still);
    let r = cam.get_ray_with(fx(0.5), fx(1.0), Vec3::zero());
    assert_eq!(c, background(r.direction()));
    // the top row looks up: more sky than the bottom row
    let top = sample_pixel(&cam, &world, 5, 10, 11, 11, 4, 5, &mut still);
    let bottom = sample_pixel(&cam, &world, 5, 0, 11, 11, 4, 5, &mut still);
    assert!(top.x.lt(bottom.x));
}

#[test]
fn sample_pixel_takes_the_mean() {
    let mut world = HittableList::new();
    world.add(Sphere::new(v3(0.0, 0.0, -1.0), fx(0.5), red()));
    let cam = simple_camera(0.0);
    let mut rng = Lcg::new(12);
    let mut again = Lcg::new(12);
    let c = sample_pixel(&cam, &world, 5, 5, 11, 11, 8, 10, &mut rng);
    let mut sum = Vec3::zero();
    for _ in 0..8 {
        let u = pixel_coordinate(5, again.next_unit(), 11);
        let v = pixel_coordinate(5, again.next_unit(), 11);
        let r = cam.get_ray(u, v, &mut again);
        sum = sum.add(ray_color(&r, &world, 10, &mut again));
    }
    assert_eq!(c, sum.div(Fixed::from_int(8)));
    for channel in [c.x, c.y, c.z] {
        assert!(!channel.is_negative() && channel.le(Fixed::one()));
    }
}

#[test]
fn lambertian_direction_is_never_near_zero() {
    let m = Lambertian::new(v3(0.8, 0.3, 0.1));
    let r = Ray::new(v3(1.0, 3.0, 2.0), v3(0.0, -1.0, 0.0));
    let rec = floor_hit(true);
    let mut rng = Lcg::new(99);
    for _ in 0..200 {
        let s = m.scatter(&r, &rec, &mut rng).unwrap();
        assert!(!raytracer::vec3::is_near_zero(s.ray.direction()));
    }
}

#[test]
fn quantize_follows_the_gamma_curve() {
    assert_eq!(quantize(Fixed::zero()), 0);
    assert_eq!(quantize(fx(0.25)), 128);
    assert_eq!(quantize(fx(0.0625)), 64);
    assert_eq!(quantize(fx(0.5)), 181);
    assert_eq!(quantize(Fixed::one()), 255);
    assert_eq!(quantize(fx(4.0)), 255);
    assert_eq!(quantize(Fixed::max_value()), 255);
    assert_eq!(quantize(fx(-1.0)), 0);
    assert_eq!(quantize(Fixed::from_raw(1)), 0);
}

#[test]
fn quantize_never_darkens_a_brighter_channel() {
    let mut last = 0;
    let mut raw = 0;
    while raw <= 1_100_000_000 {
        let byte = quantize(Fixed::from_raw(raw));
        assert!(last <= byte);
        last = byte;
        raw += 1_000_000;
    }
    assert_eq!(last, 255);
}

#[test]
fn to_rgb_takes_the_channels_in_order() {
    assert_eq!(to_rgb(v3(0.25, 1.0, 0.0)), [128, 255, 0]);
    assert_eq!(to_rgb(v3(0.5, 0.7, 1.0)), [181, 214, 255]);
}

#[test]
fn signed_unit_stretches_a_draw() {
    assert_eq!(signed_unit(Fixed::zero()), fx(-1.0));
    assert_eq!(signed_unit(fx(0.5)), Fixed::zero());
    assert_eq!(signed_unit(fx(0.75)), fx(0.5));
    assert_eq!(signed_unit(fx(0.999999999)), fx(0.999999998));
}

#[test]
fn point_in_unit_sphere_rejects_what_lies_outside() {
    assert_eq!(point_in_unit_sphere(fx(0.5), fx(0.5), fx(0.5)), Some(Vec3::zero()));
    assert_eq!(point_in_unit_sphere(fx(0.75), fx(0.75), fx(0.5)), Some(v3(0.5, 0.5, 0.0)));
    // 0.6 and 0.8 make a length of one
    assert_eq!(point_in_unit_sphere(fx(0.8), fx(0.1), fx(0.5)), None);
    assert_eq!(point_in_unit_sphere(Fixed::zero(), Fixed::zero(), Fixed::zero()), None);
    // on the sphere is not inside it
    assert_eq!(point_in_unit_sphere(Fixed::one(), fx(0.5), fx(0.5)), None);
    assert_eq!(
        point_in_unit_sphere(fx(0.999999999), fx(0.5), fx(0.5)),
        Some(v3(0.999999998, 0.0, 0.0))
    );
}

#[test]
fn point_in_unit_disk_rejects_what_lies_outside() {
    assert_eq!(point_in_unit_disk(fx(0.25), fx(0.25)), Some(v3(-0.5, -0.5, 0.0)));
    assert_eq!(point_in_unit_disk(fx(0.5), fx(0.5)), Some(Vec3::zero()));
    assert_eq!(point_in_unit_disk(Fixed::zero(), Fixed::zero()), None);
    assert_eq!(point_in_unit_disk(fx(0.9), fx(0.9)), None);
    // 0.6 and 0.8 make a length of one
    assert_eq!(point_in_unit_disk(fx(0.8), fx(0.9)), None);
    assert_eq!(point_in_unit_disk(fx(0.8), fx(0.899999999)), Some(v3(0.6, 0.799999998, 0.0)));
}

#[test]
fn sphere_sampler_takes_three_numbers_a_try() {
    for seed in 0..50u64 {
        let mut rng = Lcg::new(seed);
        let mut shadow = Lcg::new(seed);
        let v = rand_vec3_in_unit_sphere(&mut rng);
        let mut expected = Vec3::zero();
        for _ in 0..64 {
            let a = shadow.next_unit();
            let b = shadow.next_unit();
            let c = shadow.next_unit();
            if let Some(p) = point_in_unit_sphere(a, b, c) {
                expected = p;
                break;
            }
        }
        assert_eq!(v, expected);
        assert_eq!(rng.next_unit(), shadow.next_unit());
    }
}

#[test]
fn disk_sampler_takes_two_numbers_a_try() {
    for seed in 0..50u64 {
        let mut rng = Lcg::new(seed);
        let mut shadow = Lcg::new(seed);
        let v = rand_vec3_in_unit_disk(&mut rng);
        let mut expected = Vec3::zero();
        for _ in 0..64 {
            let a = shadow.next_unit();
            let b = shadow.next_unit();
            if let Some(p) = point_in_unit_disk(a, b) {
                expected = p;
                break;
            }
        }
        assert_eq!(v, expected);
        assert_eq!(rng.next_unit(), shadow.next_unit());
    }
}

#[test]
fn unit_sampler_is_the_sphere_sample_normalized() {
    let mut rng = Lcg::new(31);
    let mut shadow = Lcg::new(31);
    for _ in 0..50 {
        let u = rand_vec3_unit(&mut rng);
        assert_eq!(u, rand_vec3_in_unit_sphere(&mut shadow).normalize());
    }
    assert_eq!(rng.next_unit(), shadow.next_unit());
    let mut rng = Lcg::new(8);
    let mut shadow = Lcg::new(8);
    assert_eq!(rand_signed_unit(&mut rng), signed_unit(shadow.next_unit()));
    assert_eq!(rng.next_unit(), shadow.next_unit());
}

#[test]
fn scatter_takes_its_random_value_from_the_source() {
    let r = Ray::new(v3(-2.0, 4.0, 2.0), v3(3.0, -4.0, 0.0));
    let rec = floor_hit(true);
    let l = Lambertian::new(v3(0.8, 0.3, 0.1));
    let m = Metal::new(v3(0.7, 0.6, 0.5), fx(0.5));
    let d = Dielectric::new(fx(1.5));
    for seed in 0..20u64 {
        let mut rng = Lcg::new(seed);
        let mut shadow = Lcg::new(seed);
        let sample = rand_vec3_in_unit_sphere(&mut shadow);
        assert_eq!(l.scatter(&r, &rec, &mut rng), l.scatter_with(&r, &rec, sample, Fixed::zero()));
        assert_eq!(rng.next_unit(), shadow.next_unit());

        let mut rng = Lcg::new(seed);
        let mut shadow = Lcg::new(seed);
        let sample = rand_vec3_in_unit_sphere(&mut shadow);
        assert_eq!(m.scatter(&r, &rec, &mut rng), m.scatter_with(&r, &rec, sample, Fixed::zero()));
        assert_eq!(rng.next_unit(), shadow.next_unit());

        let mut rng = Lcg::new(seed);
        let mut shadow = Lcg::new(seed);
        let draw = shadow.next_unit();
        assert_eq!(d.scatter(&r, &rec, &mut rng), d.scatter_with(&r, &rec, Vec3::zero(), draw));
        assert_eq!(rng.next_unit(), shadow.next_unit());
    }
}

#[test]
fn get_ray_takes_the_lens_sample_from_the_source() {
    let cam = simple_camera(0.5);
    let mut rng = Lcg::new(14);
    let mut shadow = Lcg::new(14);
    for _ in 0..20 {
        let r = cam.get_ray(fx(0.3), fx(0.6), &mut rng);
        let sample = rand_vec3_in_unit_disk(&mut shadow);
        assert_eq!(r, cam.get_ray_with(fx(0.3), fx(0.6), sample));
    }
    assert_eq!(rng.next_unit(), shadow.next_unit());
}

#[test]
fn ray_color_draws_nothing_on_a_miss_or_without_depth() {
    let mut world = HittableList::new();
    world.add(Sphere::new(v3(0.0, 0.0, -1.0), fx(0.5), grey()));
    let hits = Ray::new(v3(0.0, 0.0, 0.0), v3(0.0, 0.0, -1.0));
    let misses = Ray::new(v3(0.0, 0.0, 0.0), v3(1.0, 0.0, 0.0));
    let first = Lcg::new(21).next_unit();

    let mut rng = Lcg::new(21);
    assert_eq!(ray_color(&misses, &world, 50, &mut rng), v3(0.75, 0.85, 1.0));
    assert_eq!(rng.next_unit(), first);

    let mut rng = Lcg::new(21);
    assert_eq!(ray_color(&hits, &world, 0, &mut rng), Vec3::zero());
    assert_eq!(rng.next_unit(), first);

    // a hit takes numbers from the source
    let mut rng = Lcg::new(21);
    ray_color(&hits, &world, 1, &mut rng);
    assert!(rng.next_unit() != first);

    // the background does not depend on the origin, the length of the
    // direction or the depth
    let mut rng = Lcg::new(21);
    let far = Ray::new(v3(5.0, 7.0, 9.0), v3(250.0, 0.0, 0.0));
    assert_eq!(ray_color(&far, &world, 1, &mut rng), v3(0.75, 0.85, 1.0));
}

#[test]
fn ray_color_is_determined_by_the_seed() {
    let mut world = HittableList::new();
    world.add(Sphere::new(v3(0.0, -100.5, -1.0), fx(100.0), grey()));
    world.add(Sphere::new(v3(0.0, 0.0, -1.0), fx(0.5), red()));
    let cam = simple_camera(0.1);
    let mut a = Lcg::new(4);
    let mut b = Lcg::new(4);
    for i in 0..10 {
        let ca = sample_pixel(&cam, &world, i, 5, 10, 10, 4, 10, &mut a);
        let cb = sample_pixel(&cam, &world, i, 5, 10, 10, 4, 10, &mut b);
        assert_eq!(ca, cb);
    }
    assert_eq!(a.next_unit(), b.next_unit());
}

#[test]
fn sphere_is_hit_by_a_ray_with_a_very_short_direction() {
    // one raw unit of direction: the sphere is a thousand million parameters away
    let unit = Sphere::new(v3(0.0, 0.0, 0.0), fx(1.0), grey());
    let r = Ray::new(v3(0.0, 0.0, 0.0), Vec3::new(Fixed::zero(), Fixed::zero(), Fixed::from_raw(1)));
    let rec = unit.hit(&r, fx(0.001), Fixed::max_value()).unwrap();
    assert_eq!(rec.t, Fixed::from_int(1_000_000_000));
    assert_eq!(rec.p, v3(0.0, 0.0, 1.0));
    assert_eq!(rec.normal, v3(0.0, 0.0, -1.0));
    assert!(!rec.front_face);

    let sphere = Sphere::new(v3(0.0, 0.0, -1.0), fx(0.5), grey());
    let r = Ray::new(v3(0.0, 0.0, 0.0), v3(0.0, 0.0, -0.00004));
    let rec = sphere.hit(&r, fx(0.001), Fixed::max_value()).unwrap();
    assert_eq!(rec.t, fx(12500.0));
    assert_eq!(rec.p, v3(0.0, 0.0, -0.5));
    assert_eq!(rec.normal, v3(0.0, 0.0, 1.0));

    let r = Ray::new(v3(0.0, 0.0, 0.0), v3(0.0, 0.0, -0.000044));
    let rec = sphere.hit(&r, fx(0.001), Fixed::max_value()).unwrap();
    assert_eq!(rec.t.raw(), 11_363_636_363_636);
    assert_eq!(rec.p.z.raw(), -499_999_999);
    assert_eq!(rec.normal, v3(0.0, 0.0, 1.0));

    assert_eq!(hit_sphere(&v3(0.0, 0.0, -1.0), fx(0.5), &r), Some(Fixed::from_raw(11_363_636_363_636)));
    assert_eq!(hit_sphere(&v3(0.0, 0.0, -1.0), fx(0.5), &Ray::new(v3(0.0, 0.0, 0.0), Vec3::zero())), None);
}

#[test]
fn ray_color_inside_a_closed_sphere_does_not_see_the_sky() {
    let mut world = HittableList::new();
    world.add(Sphere::new(v3(0.0, 0.0, 0.0), fx(1.0), grey()));
    let mut rng = Lcg::new(3);
    for direction in [v3(0.0, 0.0, 0.00002), v3(0.0, 0.0, 2.0), v3(0.000001, -0.000002, 0.0)] {
        let r = Ray::new(v3(0.0, 0.0, 0.0), direction);
        // every bounce stays inside and halves the light; none is left at the end
        assert_eq!(ray_color(&r, &world, 3, &mut rng), Vec3::zero());
        assert!(world.hit(&r, fx(0.001), Fixed::max_value()).is_some());
    }
}

#[test]
fn short_vectors_normalize_to_length_one() {
    let one = Fixed::from_raw(1);
    let zero = Fixed::zero();
    assert_eq!(Vec3::new(one, one, zero).normalize(), v3(0.707106781, 0.707106781, 0.0));
    assert_eq!(
        Vec3::new(one, one.neg(), one).normalize(),
        v3(0.577350269, -0.577350269, 0.577350269)
    );
    assert_eq!(Vec3::new(zero, Fixed::from_raw(-1), zero).normalize(), v3(0.0, -1.0, 0.0));
    assert_eq!(
        Vec3::new(Fixed::from_raw(3), Fixed::from_raw(1), zero).normalize(),
        v3(0.948683298, 0.316227766, 0.0)
    );
    // the same direction at every length
    let mut rng = Lcg::new(5);
    for _ in 0..100 {
        let v = rand_vec3_in_unit_sphere(&mut rng);
        if v == Vec3::zero() {
            continue;
        }
        let u = v.normalize();
        for scale in [fx(0.000001), fx(0.001), fx(1000.0), fx(1000000.0)] {
            let w = v.scale(scale).normalize();
            if v.scale(scale).length().raw() > 1_000_000 {
                assert!(
                    (w.x.raw() - u.x.raw()).abs() <= 3000
                        && (w.y.raw() - u.y.raw()).abs() <= 3000
                        && (w.z.raw() - u.z.raw()).abs() <= 3000
                );
            }
            let len = w.length().raw();
            assert!(w == Vec3::zero() || (len - SCALE).abs() <= 3, "length {}", len);
        }
    }
}

#[test]
fn camera_axes_are_unit_for_a_near_target() {
    // the point looked at is one raw unit from the eye in two components
    let one = Fixed::from_raw(1);
    let cam = Camera::new(
        v3(0.0, 0.0, 0.0),
        Vec3::new(one, one, Fixed::zero()),
        v3(0.0, 0.0, 1.0),
        fx(90.0),
        fx(1.0),
        fx(2.0),
        fx(1.0),
    );
    // the lens has radius one and the sample lies 0.9 up the lens
    let r = cam.get_ray_with(fx(0.5), fx(0.5), v3(0.0, 0.9, 0.0));
    let off = r.origin().length().raw();
    assert!((off - 900_000_000).abs() <= 5, "offset {}", off);
    // the image centre is one ahead along the view
    let centre = cam.get_ray_with(fx(0.5), fx(0.5), Vec3::zero());
    assert!(close(centre.direction(), v3(0.707106781, 0.707106781, 0.0), 5));
}

#[test]
fn background_does_not_depend_on_the_length_of_the_direction() {
    let one = Fixed::from_raw(1);
    let short = background(Vec3::new(one, one, Fixed::zero()));
    let long = background(v3(1.0, 1.0, 0.0));
    assert_eq!(short, long);
    assert_eq!(short, v3(0.573223305, 0.743933983, 1.0));
}

#[test]
fn glass_of_index_one_leaves_a_short_ray_unbent() {
    let one = Fixed::from_raw(1);
    let r = Ray::new(v3(0.0, 1.0, 0.0), Vec3::new(one, one.neg(), Fixed::zero()));
    let rec = floor_hit(true);
    let glass = Dielectric::new(fx(1.0));
    let s = glass.scatter_with(&r, &rec, Vec3::zero(), fx(0.5)).unwrap();
    assert!(close(s.ray.direction(), v3(0.707106781, -0.707106781, 0.0), 5));
    let mirror = Metal::new(v3(0.9, 0.9, 0.9), Fixed::zero());
    let s = mirror.scatter_with(&r, &rec, Vec3::zero(), Fixed::zero()).unwrap();
    assert!(close(s.ray.direction(), v3(0.707106781, 0.707106781, 0.0), 5));
}

#[test]
fn normal_of_a_hit_has_length_one() {
    let sphere = Sphere::new(v3(0.5, -0.25, -3.0), fx(1.5), grey());
    let mut rng = Lcg::new(66);
    let mut hits = 0;
    for _ in 0..200 {
        let d = Vec3::new(
            rand_signed_unit(&mut rng).mul(fx(0.5)),
            rand_signed_unit(&mut rng).mul(fx(0.5)),
            fx(-1.0),
        );
        let r = Ray::new(v3(0.0, 0.0, 0.0), d);
        if let Some(rec) = sphere.hit(&r, fx(0.001), Fixed::max_value()) {
            hits += 1;
            let len = rec.normal.length().raw();
            assert!((len - SCALE).abs() <= 20, "length {}", len);
        }
    }
    assert!(hits > 50);
}

#[test]
fn camera_does_not_depend_on_the_length_of_vup() {
    let one = Fixed::from_raw(1);
    let short = Camera::new(
        v3(0.0, 0.0, 0.0),
        v3(0.6, 0.0, -0.8),
        Vec3::new(Fixed::zero(), one, Fixed::zero()),
        fx(90.0),
        fx(2.0),
        fx(0.5),
        fx(1.0),
    );
    let long = Camera::new(
        v3(0.0, 0.0, 0.0),
        v3(0.6, 0.0, -0.8),
        v3(0.0, 1000000.0, 0.0),
        fx(90.0),
        fx(2.0),
        fx(0.5),
        fx(1.0),
    );
    assert_eq!(short, long);
    let r = short.get_ray_with(fx(0.5), fx(1.0), v3(0.8, 0.0, 0.0));
    // right is (0.8, 0, 0.6): the origin moves 0.2 along it
    assert!(close(r.origin(), v3(0.16, 0.0, 0.12), 5));
}

#[test]
fn sphere_far_from_the_origin_of_the_ray() {
    let sphere = Sphere::new(v3(0.0, 0.0, 0.0), fx(1.0), grey());
    // the line passes fifty thousand from the centre
    let beside = Ray::new(v3(50000.0, 0.0, 100000.0), v3(0.0, 0.0, -1.0));
    assert_eq!(sphere.hit(&beside, fx(0.001), Fixed::max_value()), None);
    let at_it = Ray::new(v3(0.0, 0.0, 100000.0), v3(0.0, 0.0, -1.0));
    assert_eq!(sphere.hit(&at_it, fx(0.001), Fixed::max_value()).unwrap().t, fx(99999.0));
    // a small sphere far away, hit and missed by a hair
    let small = Sphere::new(v3(0.0, 0.0, -10000.0), fx(0.001), grey());
    let through = Ray::new(v3(0.0, 0.0005, 0.0), v3(0.0, 0.0, -1.0));
    let rec = small.hit(&through, fx(0.001), Fixed::max_value()).unwrap();
    assert_eq!(rec.p.y, fx(0.0005));
    assert!((rec.t.raw() - 9_999_999_133_975).abs() <= 2, "t {}", rec.t.raw());
    let past = Ray::new(v3(0.0, 0.0011, 0.0), v3(0.0, 0.0, -1.0));
    assert_eq!(small.hit(&past, fx(0.001), Fixed::max_value()), None);
}

#[test]
fn point_of_a_hit_lies_on_the_sphere() {
    let sphere = Sphere::new(v3(0.5, -0.25, -3.0), fx(1.5), grey());
    let mut rng = Lcg::new(123);
    let mut hits = 0;
    for i in 0..400 {
        let scale = [fx(0.000001), fx(0.001), fx(1.0), fx(1000.0)][i % 4];
        let d = Vec3::new(
            rand_signed_unit(&mut rng).mul(fx(0.5)),
            rand_signed_unit(&mut rng).mul(fx(0.5)),
            fx(-1.0),
        )
        .scale(scale);
        let r = Ray::new(v3(0.0, 0.0, 0.0), d);
        if let Some(rec) = sphere.hit(&r, Fixed::zero(), Fixed::max_value()) {
            hits += 1;
            let distance = rec.p.sub(sphere.center).length().raw();
            // the parameter has whole raw units: a long direction makes long steps
            let tolerance = if i % 4 == 3 { 2000 } else { 20 };
            assert!((distance - 1_500_000_000).abs() <= tolerance, "distance {}", distance);
            assert_eq!(rec.p, r.at(rec.t));
        }
    }
    assert!(hits > 100);
}

#[test]
fn refracted_and_mirrored_directions_have_length_one() {
    let glass = Dielectric::new(fx(1.5));
    let mirror = Metal::new(v3(0.9, 0.9, 0.9), Fixed::zero());
    let mut rng = Lcg::new(55);
    for i in 0..200 {
        let scale = [fx(0.000001), fx(1.0), fx(1000.0)][i % 3];
        let d = Vec3::new(
            rand_signed_unit(&mut rng),
            rand_signed_unit(&mut rng).abs().neg().sub(fx(0.01)),
            rand_signed_unit(&mut rng),
        )
        .scale(scale);
        let r = Ray::new(v3(1.0, 3.0, 2.0), d);
        let rec = floor_hit(i % 2 == 0);
        for draw in [Fixed::zero(), fx(0.999999999)] {
            let s = glass.scatter_with(&r, &rec, Vec3::zero(), draw).unwrap();
            let len = s.ray.direction().length().raw();
            assert!((len - SCALE).abs() <= 400, "glass {}", len);
        }
        let s = mirror.scatter_with(&r, &rec, Vec3::zero(), Fixed::zero()).unwrap();
        let len = s.ray.direction().length().raw();
        assert!((len - SCALE).abs() <= 400, "mirror {}", len);
    }
}
