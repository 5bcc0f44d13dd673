use raytracer::fixed::{Fixed, LIMIT};
use raytracer::ray::{reflect, refract, Ray};
use raytracer::vec3::{is_near_zero, Vec3};

fn fx(v: f64) -> Fixed {
    Fixed::from_raw((v * 1e9).round() as i64)
}

fn v3(x: f64, y: f64, z: f64) -> Vec3 {
    Vec3::new(fx(x), fx(y), fx(z))
}

#[test]
fn vector_sum_difference_and_opposite() {
    assert_eq!(v3(1.0, 2.0, 3.0).add(v3(0.5, -2.0, 4.0)), v3(1.5, 0.0, 7.0));
    assert_eq!(v3(1.0, 2.0, 3.0).sub(v3(0.5, -2.0, 4.0)), v3(0.5, 4.0, -1.0));
    assert_eq!(v3(1.0, -2.0, 0.0).neg(), v3(-1.0, 2.0, 0.0));
    assert_eq!(Vec3::splat(fx(2.0)), v3(2.0, 2.0, 2.0));
    assert_eq!(Vec3::zero(), v3(0.0, 0.0, 0.0));
}

#[test]
fn vector_scaling() {
    assert_eq!(v3(1.0, -2.0, 3.0).scale(fx(2.5)), v3(2.5, -5.0, 7.5));
    assert_eq!(v3(1.0, -2.0, 3.0).div(fx(2.0)), v3(0.5, -1.0, 1.5));
    assert_eq!(v3(0.5, 0.7, 1.0).mul(v3(0.5, 0.5, 0.25)), v3(0.25, 0.35, 0.25));
}

#[test]
fn dot_product() {
    assert_eq!(v3(1.0, 2.0, 3.0).dot(v3(4.0, 5.0, 6.0)), fx(32.0));
    assert_eq!(v3(1.0, 0.0, 0.0).dot(v3(0.0, 1.0, 0.0)), Fixed::zero());
    assert_eq!(v3(1.0, -1.0, 0.0).dot(v3(0.0, 1.0, 0.0)), fx(-1.0));
}

#[test]
fn dot_product_rounds_once() {
    let tiny = Fixed::from_raw(20_000);
    let v = Vec3::new(tiny, tiny, tiny);
    // three products of 4e8 squared raw units each: 1.2e9 in all, one raw unit
    assert_eq!(v.dot(v).raw(), 1);
}

#[test]
fn dot_product_saturates() {
    let top = Fixed::max_value();
    let v = Vec3::new(top, top, top);
    assert_eq!(v.dot(v).raw(), LIMIT);
    assert_eq!(v.dot(v.neg()).raw(), -LIMIT);
}

#[test]
fn cross_product() {
    assert_eq!(v3(1.0, 0.0, 0.0).cross(v3(0.0, 1.0, 0.0)), v3(0.0, 0.0, 1.0));
    assert_eq!(v3(0.0, 1.0, 0.0).cross(v3(1.0, 0.0, 0.0)), v3(0.0, 0.0, -1.0));
    assert_eq!(v3(1.0, 2.0, 3.0).cross(v3(4.0, 5.0, 6.0)), v3(-3.0, 6.0, -3.0));
}

#[test]
fn length_and_its_square() {
    assert_eq!(v3(3.0, 4.0, 0.0).length_squared(), fx(25.0));
    assert_eq!(v3(3.0, 4.0, 0.0).length(), fx(5.0));
    assert_eq!(v3(1.0, 2.0, 2.0).length(), fx(3.0));
    assert_eq!(v3(1.0, 1.0, 1.0).length().raw(), 1_732_050_807);
    assert_eq!(Vec3::zero().length(), Fixed::zero());
}

#[test]
fn length_of_a_short_vector_keeps_its_precision() {
    let v = Vec3::new(Fixed::from_raw(3), Fixed::from_raw(4), Fixed::zero());
    assert_eq!(v.length().raw(), 5);
    assert_eq!(v.length_squared().raw(), 0);
}

#[test]
fn normalize_divides_by_the_length() {
    assert_eq!(v3(3.0, 4.0, 0.0).normalize(), v3(0.6, 0.8, 0.0));
    assert_eq!(v3(0.0, 0.0, -7.0).normalize(), v3(0.0, 0.0, -1.0));
    let tiny = Vec3::new(Fixed::from_raw(3), Fixed::from_raw(-4), Fixed::zero());
    assert_eq!(tiny.normalize(), v3(0.6, -0.8, 0.0));
}

#[test]
fn normalize_leaves_the_zero_vector() {
    assert_eq!(Vec3::zero().normalize(), Vec3::zero());
}

#[test]
fn normalize_of_the_largest_vector() {
    let top = Fixed::max_value();
    let u = Vec3::new(top, top, top.neg()).normalize();
    assert_eq!(u.x.raw(), 577_350_269);
    assert_eq!(u.y.raw(), 577_350_269);
    assert_eq!(u.z.raw(), -577_350_269);
}

#[test]
fn near_zero_is_below_ten_raw_units() {
    let nine = Fixed::from_raw(9);
    let ten = Fixed::from_raw(10);
    assert!(is_near_zero(Vec3::new(nine, nine.neg(), Fixed::zero())));
    assert!(!is_near_zero(Vec3::new(nine, ten, Fixed::zero())));
    assert!(!is_near_zero(Vec3::new(ten.neg(), nine, nine)));
    assert!(is_near_zero(Vec3::zero()));
}

#[test]
fn ray_at_walks_along_the_direction() {
    let r = Ray::new(v3(1.0, 2.0, 3.0), v3(0.0, -1.0, 0.5));
    assert_eq!(r.origin(), v3(1.0, 2.0, 3.0));
    assert_eq!(r.direction(), v3(0.0, -1.0, 0.5));
    assert_eq!(r.at(Fixed::zero()), v3(1.0, 2.0, 3.0));
    assert_eq!(r.at(fx(2.0)), v3(1.0, 0.0, 4.0));
    assert_eq!(r.at(fx(-1.0)), v3(1.0, 3.0, 2.5));
}

#[test]
fn reflect_mirrors_about_the_normal() {
    assert_eq!(reflect(v3(1.0, -1.0, 0.0), v3(0.0, 1.0, 0.0)), v3(1.0, 1.0, 0.0));
    assert_eq!(reflect(v3(0.0, -1.0, 0.0), v3(0.0, 1.0, 0.0)), v3(0.0, 1.0, 0.0));
    assert_eq!(reflect(v3(0.6, -0.8, 0.0), v3(0.0, 1.0, 0.0)), v3(0.6, 0.8, 0.0));
    assert_eq!(reflect(v3(1.0, 0.0, 0.0), v3(0.0, 1.0, 0.0)), v3(1.0, 0.0, 0.0));
}

#[test]
fn refract_keeps_a_ray_that_meets_the_surface_head_on() {
    let down = v3(0.0, -1.0, 0.0);
    let n = v3(0.0, 1.0, 0.0);
    assert_eq!(refract(down, n, Fixed::one().div(fx(1.5))), down);
    assert_eq!(refract(down, n, fx(1.5)), down);
}

#[test]
fn refract_with_equal_indices_goes_straight_on() {
    let uv = v3(0.6, -0.8, 0.0);
    assert_eq!(refract(uv, v3(0.0, 1.0, 0.0), Fixed::one()), uv);
}

#[test]
fn refract_bends_toward_the_normal_in_the_denser_medium() {
    // sine 0.6 outside, ratio 0.5: sine 0.3 inside
    let out = refract(v3(0.6, -0.8, 0.0), v3(0.0, 1.0, 0.0), fx(0.5));
    assert_eq!(out.x, fx(0.3));
    assert_eq!(out.y.raw(), -953_939_201);
    assert_eq!(out.z, Fixed::zero());
}

#[test]
fn refract_where_it_cannot_be_bent_stays_in_the_surface() {
    // sine 0.8, ratio 1.5: no solution; the root of the negative number is zero
    let out = refract(v3(0.8, -0.6, 0.0), v3(0.0, 1.0, 0.0), fx(1.5));
    assert_eq!(out, v3(1.2, 0.0, 0.0));
}
