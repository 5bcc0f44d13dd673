//! The colour that a ray brings back from a scene.

use crate::fixed::{Fixed, SCALE};
use crate::hittable::{never_amplifies, HitRecord, Hittable};
use crate::material::{scatter_from, Material};
use crate::ray::Ray;
use crate::utils::RandomSource;
use crate::vec3::{in_unit_range, Color, Vec3};
use vstd::prelude::*;

verus! {

broadcast use Fixed::lemma_of;

/// Raw units of the parameter below which a hit is ignored, so that a ray
/// does not hit the surface that it leaves: 0.001.
pub const T_MIN: i64 = 1_000_000;

/// Raw units of the red channel of the sky colour (0.5, 0.7, 1.0).
pub const SKY_RED: i64 = 500_000_000;

/// Raw units of the green channel of the sky colour.
pub const SKY_GREEN: i64 = 700_000_000;

/// Raw units of the blue channel of the sky colour.
pub const SKY_BLUE: i64 = 1_000_000_000;

/// Raw units of one half.
pub const HALF: i64 = 500_000_000;

/// The colour of no light.
pub open spec fn black() -> Color {
    Vec3::zero_spec()
}

/// The colour of the sky straight up.
pub open spec fn sky() -> Color {
    Vec3 {
        x: Fixed::of(SKY_RED as int),
        y: Fixed::of(SKY_GREEN as int),
        z: Fixed::of(SKY_BLUE as int),
    }
}

/// How far up a direction points, from zero for straight down to one for
/// straight up: `(y + 1) / 2` for the `y` of the unit direction.
pub open spec fn elevation(direction: Vec3) -> Fixed {
    direction.normalize_spec().y.add_spec(Fixed::one_spec()).mul_spec(Fixed::of(HALF as int))
}

/// The colour of the background in a direction: white blended into the sky
/// colour by the elevation, `(1 - t) * white + t * sky`.
pub open spec fn background_spec(direction: Vec3) -> Color {
    let t = elevation(direction);
    Vec3::splat_spec(Fixed::one_spec()).scale_spec(Fixed::one_spec().sub_spec(t)).add_spec(
        sky().scale_spec(t),
    )
}

/// The window in which a ray looks for what it hits: from `T_MIN` on.
pub open spec fn first_hit<W: Hittable>(world: &W, r: Ray) -> Option<HitRecord> {
    world.hit_spec(r, Fixed::of(T_MIN as int), Fixed::max_value_spec())
}

/// The colour that the ray `r` brings back from `world` within `depth`
/// bounces, with the random values taken from the source `rng`, and the source
/// afterwards: black once the bounces are used up; the background where the
/// ray hits nothing; black where the material absorbs it; else the
/// attenuation times the colour that the scattered ray brings back within
/// one bounce less. Only a hit takes anything from the source.
pub open spec fn ray_color_spec<W: Hittable, R: RandomSource>(
    world: &W,
    r: Ray,
    depth: nat,
    rng: R,
) -> (Color, R)
    decreases depth,
{
    if depth == 0 {
        (black(), rng)
    } else {
        match first_hit(world, r) {
            None => (background_spec(r.direction), rng),
            Some(rec) => {
                let (scatter, rest) = scatter_from(&rec.material, r, rec, rng);
                match scatter {
                    None => (black(), rest),
                    Some(s) => {
                        let (inner, last) = ray_color_spec(world, s.ray, (depth - 1) as nat, rest);
                        (s.attenuation.mul_spec(inner), last)
                    },
                }
            },
        }
    }
}

/// The elevation of a direction lies between zero and one.
pub proof fn lemma_elevation_range(direction: Vec3)
    ensures
        0 <= elevation(direction)@ <= SCALE as int,
{
    direction.lemma_normalize_bounded();
    let raised = direction.normalize_spec().y.add_spec(Fixed::one_spec());
    let half = Fixed::of(HALF as int);
    raised.lemma_mul_monotone(half, Fixed::from_int_spec(2), half);
    assert(Fixed::from_int_spec(2)@ * half@ == SCALE * SCALE) by (nonlinear_arith)
        requires
            Fixed::from_int_spec(2)@ == 2 * SCALE,
            half@ * 2 == SCALE,
    ;
    vstd::arithmetic::div_mod::lemma_div_by_multiple(SCALE as int, SCALE as int);
}

/// Every channel of the background lies between zero and one.
pub proof fn lemma_background_in_unit_range(direction: Vec3)
    ensures
        in_unit_range(background_spec(direction)),
{
    let one = Fixed::one_spec();
    let t = elevation(direction);
    lemma_elevation_range(direction);
    let rest = one.sub_spec(t);
    rest.lemma_mul_one();
    t.lemma_mul_by_fraction(sky().x);
    t.lemma_mul_by_fraction(sky().y);
    t.lemma_mul_by_fraction(sky().z);
    t.lemma_mul_commutes(sky().x);
    t.lemma_mul_commutes(sky().y);
    t.lemma_mul_commutes(sky().z);
}

/// Where no material of the world amplifies, the colour that a ray brings
/// back lies in the unit range: the bounces create no light.
pub proof fn lemma_color_in_unit_range<W: Hittable, R: RandomSource>(
    world: &W,
    r: Ray,
    depth: nat,
    rng: R,
)
    requires
        never_amplifies(world),
    ensures
        in_unit_range(ray_color_spec(world, r, depth, rng).0),
    decreases depth,
{
    Vec3::lemma_zero();
    if depth > 0 {
        match first_hit(world, r) {
            None => {
                lemma_background_in_unit_range(r.direction);
            },
            Some(rec) => {
                rec.material.lemma_attenuation_from_in_unit_range(r, rec, rng);
                let (scatter, rest) = scatter_from(&rec.material, r, rec, rng);
                match scatter {
                    None => {},
                    Some(s) => {
                        lemma_color_in_unit_range(world, s.ray, (depth - 1) as nat, rest);
                        s.attenuation.lemma_mul_in_unit_range(
                            ray_color_spec(world, s.ray, (depth - 1) as nat, rest).0,
                        );
                    },
                }
            },
        }
    }
}

/// The colour of the background in a direction.
pub fn background(direction: Vec3) -> (c: Color)
    ensures
        c == background_spec(direction),
{
    let one = Fixed::one();
    let unit_direction = direction.normalize();
    let t = unit_direction.y.add(one).mul(Fixed::from_raw(HALF));
    let sky = Vec3::new(
        Fixed::from_raw(SKY_RED),
        Fixed::from_raw(SKY_GREEN),
        Fixed::from_raw(SKY_BLUE),
    );
    Vec3::splat(one).scale(one.sub(t)).add(sky.scale(t))
}

/// The colour that the ray `r` brings back from `world`, following it through
/// at most `max_depth` bounces. Random values are taken from `rng` at hits
/// only.
pub fn ray_color<W: Hittable, R: RandomSource>(
    r: &Ray,
    world: &W,
    max_depth: u32,
    rng: &mut R,
) -> (c: Color)
    ensures
        (c, *final(rng)) == ray_color_spec(world, *r, max_depth as nat, *old(rng)),
        max_depth == 0 ==> c == black() && *final(rng) == *old(rng),
        max_depth > 0 && first_hit(world, *r) is None ==> c == background_spec(r.direction)
            && *final(rng) == *old(rng),
        never_amplifies(world) ==> in_unit_range(c),
    decreases max_depth,
{
    proof {
        if never_amplifies(world) {
            lemma_color_in_unit_range(world, *r, max_depth as nat, *rng);
        }
    }
    if max_depth == 0 {
        return Vec3::zero();
    }
    match world.hit(r, Fixed::from_raw(T_MIN), Fixed::max_value()) {
        None => background(r.direction()),
        Some(rec) => {
            match rec.material.scatter(r, &rec, rng) {
                None => Vec3::zero(),
                Some(s) => {
                    let inner = ray_color(&s.ray, world, max_depth - 1, rng);
                    s.attenuation.mul(inner)
                },
            }
        },
    }
}

} // verus!
