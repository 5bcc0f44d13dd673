//! The source of randomness and the samplers built on it.

use crate::fixed::{lemma_product_bound, Fixed, SCALE};
use crate::vec3::Vec3;
use vstd::prelude::*;

verus! {

broadcast use Fixed::lemma_of;

/// Number of draws after which a rejection sampler gives up.
pub const MAX_DRAWS: u32 = 64;

/// Multiplier of the linear congruential generator.
pub const LCG_MULTIPLIER: u64 = 6364136223846793005;

/// Increment of the linear congruential generator.
pub const LCG_INCREMENT: u64 = 1442695040888963407;

/// A stream of numbers drawn uniformly from `[0, 1)`. A source is a value:
/// what it gives next, and what it is afterwards, depend on nothing else, so
/// that equal sources give equal streams.
pub trait RandomSource: Sized {
    /// The number that the source gives next.
    spec fn peek(&self) -> Fixed;

    /// The source after it has given that number.
    spec fn rest(&self) -> Self;

    /// Takes the next number from the stream.
    fn next_unit(&mut self) -> (r: Fixed)
        ensures
            r == old(self).peek(),
            *final(self) == old(self).rest(),
            is_unit_draw(r),
    ;
}

/// `u` lies in `[0, 1)`.
pub open spec fn is_unit_draw(u: Fixed) -> bool {
    0 <= u@ < SCALE as int
}

/// `v` lies strictly inside the unit sphere, with every component in
/// `[-1, 1)`.
pub open spec fn in_unit_sphere(v: Vec3) -> bool {
    &&& -(SCALE as int) <= v.x@ < SCALE as int
    &&& -(SCALE as int) <= v.y@ < SCALE as int
    &&& -(SCALE as int) <= v.z@ < SCALE as int
    &&& v.length_squared_spec()@ < SCALE as int
}

/// `v` lies strictly inside the unit disk of the plane `z = 0`.
pub open spec fn in_unit_disk(v: Vec3) -> bool {
    in_unit_sphere(v) && v.z@ == 0
}

/// The state that follows `s` in the generator's cycle.
pub open spec fn lcg_step(s: u64) -> u64 {
    ((s * LCG_MULTIPLIER + LCG_INCREMENT) % 0x1_0000_0000_0000_0000) as u64
}

/// The number that the generator gives in state `s`: the upper half of the
/// state, read as a fraction of `2^32` and rounded down to a raw unit.
pub open spec fn lcg_output(s: u64) -> Fixed {
    Fixed::of(((s / 0x1_0000_0000) * SCALE) / 0x1_0000_0000)
}

/// A seedable linear congruential generator over 64-bit states.
#[derive(Clone, Copy, Debug)]
pub struct Lcg {
    state: u64,
}

impl View for Lcg {
    type V = u64;

    /// The current state.
    closed spec fn view(&self) -> u64 {
        self.state
    }
}

impl Lcg {
    /// A generator that starts from `seed`: equal seeds give equal streams.
    pub fn new(seed: u64) -> (g: Lcg)
        ensures
            g@ == seed,
    {
        Lcg { state: seed }
    }
}

impl Lcg {
    /// The source after a draw is in the state that follows.
    pub proof fn lemma_rest(&self)
        ensures
            self.rest()@ == lcg_step(self@),
    {
    }
}

impl RandomSource for Lcg {
    /// The number of the state that follows.
    open spec fn peek(&self) -> Fixed {
        lcg_output(lcg_step(self@))
    }

    /// The generator in the state that follows.
    closed spec fn rest(&self) -> Lcg {
        Lcg { state: lcg_step(self.state) }
    }

    /// Steps the state once and gives the number of the new state.
    fn next_unit(&mut self) -> (r: Fixed)
        ensures
            final(self)@ == lcg_step(old(self)@),
            r == lcg_output(final(self)@),
    {
        proof {
            lemma_product_bound(
                self.state as int,
                LCG_MULTIPLIER as int,
                0x1_0000_0000_0000_0000,
                LCG_MULTIPLIER as int,
            );
        }
        let wide: u128 = (self.state as u128) * (LCG_MULTIPLIER as u128) + (
        LCG_INCREMENT as u128);
        self.state = (wide % 0x1_0000_0000_0000_0000) as u64;
        let upper: u64 = self.state / 0x1_0000_0000;
        proof {
            lemma_product_bound(upper as int, SCALE as int, 0x1_0000_0000, SCALE as int);
        }
        let raw: u64 = (upper * (SCALE as u64)) / 0x1_0000_0000;
        Fixed::from_raw(raw as i64)
    }
}

/// The number of `[-1, 1)` that a draw `u` of `[0, 1)` stands for: `2 u - 1`.
pub open spec fn signed_unit_spec(u: Fixed) -> Fixed {
    u.add_spec(u).sub_spec(Fixed::one_spec())
}

/// The point of the cube `[-1, 1)^3` that three draws stand for.
pub open spec fn cube_point(u: Fixed, v: Fixed, w: Fixed) -> Vec3 {
    Vec3 { x: signed_unit_spec(u), y: signed_unit_spec(v), z: signed_unit_spec(w) }
}

/// The point of the square `[-1, 1)^2` in the plane `z = 0` that two draws
/// stand for.
pub open spec fn square_point(u: Fixed, v: Fixed) -> Vec3 {
    Vec3 { x: signed_unit_spec(u), y: signed_unit_spec(v), z: Fixed::zero_spec() }
}

/// The point `candidate` where it lies strictly inside the unit sphere.
pub open spec fn accept_spec(candidate: Vec3) -> Option<Vec3> {
    if candidate.length_squared_spec()@ < SCALE as int {
        Some(candidate)
    } else {
        None
    }
}

/// What a rejection sampler of the unit sphere gives from the source `rng`
/// within `tries` tries, and the source afterwards: each try takes three
/// numbers; the first point of the cube that lies inside the sphere is the
/// sample; once the tries are used up the centre is.
pub open spec fn sphere_sample<R: RandomSource>(rng: R, tries: nat) -> (Vec3, R)
    decreases tries,
{
    if tries == 0 {
        (Vec3::zero_spec(), rng)
    } else {
        let second = rng.rest();
        let third = second.rest();
        let after = third.rest();
        match accept_spec(cube_point(rng.peek(), second.peek(), third.peek())) {
            Some(v) => (v, after),
            None => sphere_sample(after, (tries - 1) as nat),
        }
    }
}

/// What a rejection sampler of the unit disk gives from the source `rng`
/// within `tries` tries, and the source afterwards: each try takes two
/// numbers; the first point of the square that lies inside the disk is the
/// sample; once the tries are used up the centre is.
pub open spec fn disk_sample<R: RandomSource>(rng: R, tries: nat) -> (Vec3, R)
    decreases tries,
{
    if tries == 0 {
        (Vec3::zero_spec(), rng)
    } else {
        let second = rng.rest();
        let after = second.rest();
        match accept_spec(square_point(rng.peek(), second.peek())) {
            Some(v) => (v, after),
            None => disk_sample(after, (tries - 1) as nat),
        }
    }
}

/// The number of `[-1, 1)` that the draw `u` of `[0, 1)` stands for.
pub fn signed_unit(u: Fixed) -> (r: Fixed)
    ensures
        r == signed_unit_spec(u),
        is_unit_draw(u) ==> -(SCALE as int) <= r@ < SCALE as int,
{
    u.add(u).sub(Fixed::one())
}

/// The point of the cube for the three draws, where it lies inside the unit
/// sphere.
pub fn point_in_unit_sphere(u: Fixed, v: Fixed, w: Fixed) -> (res: Option<Vec3>)
    ensures
        res == accept_spec(cube_point(u, v, w)),
        is_unit_draw(u) && is_unit_draw(v) && is_unit_draw(w) ==> (res matches Some(p)
            ==> in_unit_sphere(p)),
{
    let candidate = Vec3::new(signed_unit(u), signed_unit(v), signed_unit(w));
    if candidate.length_squared().lt(Fixed::one()) {
        Some(candidate)
    } else {
        None
    }
}

/// The point of the square for the two draws, where it lies inside the unit
/// disk.
pub fn point_in_unit_disk(u: Fixed, v: Fixed) -> (res: Option<Vec3>)
    ensures
        res == accept_spec(square_point(u, v)),
        is_unit_draw(u) && is_unit_draw(v) ==> (res matches Some(p) ==> in_unit_disk(p)),
{
    let candidate = Vec3::new(signed_unit(u), signed_unit(v), Fixed::zero());
    if candidate.length_squared().lt(Fixed::one()) {
        Some(candidate)
    } else {
        None
    }
}

/// A number drawn uniformly from `[-1, 1)`: the next number of the source,
/// stretched.
pub fn rand_signed_unit<R: RandomSource>(rng: &mut R) -> (r: Fixed)
    ensures
        r == signed_unit_spec(old(rng).peek()),
        *final(rng) == old(rng).rest(),
        -(SCALE as int) <= r@ < SCALE as int,
{
    signed_unit(rng.next_unit())
}

/// A point drawn uniformly from the inside of the unit sphere, by rejection:
/// points of the cube `[-1, 1)^3` are drawn until one lies inside the sphere.
/// After `MAX_DRAWS` rejected points the centre is returned.
pub fn rand_vec3_in_unit_sphere<R: RandomSource>(rng: &mut R) -> (v: Vec3)
    ensures
        (v, *final(rng)) == sphere_sample(*old(rng), MAX_DRAWS as nat),
        in_unit_sphere(v),
{
    let ghost start = *rng;
    let mut draws: u32 = 0;
    while draws < MAX_DRAWS
        invariant
            draws <= MAX_DRAWS,
            start == *old(rng),
            sphere_sample(start, MAX_DRAWS as nat) == sphere_sample(
                *rng,
                (MAX_DRAWS - draws) as nat,
            ),
        decreases MAX_DRAWS - draws,
    {
        let ghost before = *rng;
        let a = rng.next_unit();
        let b = rng.next_unit();
        let c = rng.next_unit();
        if let Some(v) = point_in_unit_sphere(a, b, c) {
            assert(sphere_sample(before, (MAX_DRAWS - draws) as nat) == (v, *rng));
            return v;
        }
        draws = draws + 1;
    }
    proof {
        Vec3::lemma_zero();
    }
    Vec3::zero()
}

/// A direction drawn uniformly from the unit sphere: a point drawn from the
/// inside of the sphere, divided by its length.
pub fn rand_vec3_unit<R: RandomSource>(rng: &mut R) -> (v: Vec3)
    ensures
        v == sphere_sample(*old(rng), MAX_DRAWS as nat).0.normalize_spec(),
        *final(rng) == sphere_sample(*old(rng), MAX_DRAWS as nat).1,
{
    rand_vec3_in_unit_sphere(rng).normalize()
}

/// A point drawn uniformly from the inside of the unit disk of the plane
/// `z = 0`, by rejection. After `MAX_DRAWS` rejected points the centre is
/// returned.
pub fn rand_vec3_in_unit_disk<R: RandomSource>(rng: &mut R) -> (v: Vec3)
    ensures
        (v, *final(rng)) == disk_sample(*old(rng), MAX_DRAWS as nat),
        in_unit_disk(v),
{
    let ghost start = *rng;
    let mut draws: u32 = 0;
    while draws < MAX_DRAWS
        invariant
            draws <= MAX_DRAWS,
            start == *old(rng),
            disk_sample(start, MAX_DRAWS as nat) == disk_sample(*rng, (MAX_DRAWS - draws) as nat),
        decreases MAX_DRAWS - draws,
    {
        let ghost before = *rng;
        let a = rng.next_unit();
        let b = rng.next_unit();
        if let Some(v) = point_in_unit_disk(a, b) {
            assert(disk_sample(before, (MAX_DRAWS - draws) as nat) == (v, *rng));
            return v;
        }
        draws = draws + 1;
    }
    proof {
        Vec3::lemma_zero();
    }
    Vec3::zero()
}

} // verus!
