//! Materials: how a surface answers an incoming ray.

use crate::fixed::{Fixed, SCALE};
use crate::hittable::HitRecord;
use crate::ray::{
    incidence_cosine, lemma_reflect_length, lemma_refract_length, reflect, reflect_spec, refract,
    refract_perp, refract_spec, Ray,
};
use crate::utils::{
    rand_vec3_in_unit_sphere, rand_vec3_unit, sphere_sample, RandomSource, MAX_DRAWS,
};
use crate::vec3::{in_unit_range, is_near_zero, max_magnitude, raw_dot, Color, Vec3};
use vstd::prelude::*;

verus! {

broadcast use Fixed::lemma_of;

/// The answer of a surface to a ray that it does not absorb.
#[derive(Clone, Copy, Debug, PartialEq, Eq, Structural)]
pub struct Scatter {
    /// The factor by which the surface dims each colour channel.
    pub attenuation: Color,
    /// The ray that leaves the surface.
    pub ray: Ray,
}

/// The colour that leaves every channel as it is.
pub open spec fn white() -> Color {
    Vec3::splat_spec(Fixed::one_spec())
}

/// A material scatters an incoming ray or absorbs it.
///
/// Scattering is a function of the ray, the hit and two random values: a
/// point `sample` inside the unit sphere and a number `draw` in `[0, 1)`.
/// Each material says which of them it takes from a source of randomness.
pub trait Material: Sync + Send {
    /// The answer to the ray `r` at the hit `rec` for the given random values;
    /// `None` where the ray is absorbed.
    spec fn scatter_spec(&self, r: Ray, rec: HitRecord, sample: Vec3, draw: Fixed) -> Option<
        Scatter,
    >;

    /// Which random value the material takes from a source: a point of the
    /// unit sphere, or else one number of `[0, 1)`.
    spec fn takes_sample(&self) -> bool;

    /// The answer for random values that the caller has drawn.
    fn scatter_with(&self, r: &Ray, rec: &HitRecord, sample: Vec3, draw: Fixed) -> (res: Option<
        Scatter,
    >)
        ensures
            res == self.scatter_spec(*r, *rec, sample, draw),
    ;

    /// The answer for random values drawn from `rng`.
    fn scatter<R: RandomSource>(&self, r: &Ray, rec: &HitRecord, rng: &mut R) -> (res: Option<
        Scatter,
    >)
        ensures
            self.takes_sample() ==> res == self.scatter_spec(
                *r,
                *rec,
                sphere_sample(*old(rng), MAX_DRAWS as nat).0,
                Fixed::zero_spec(),
            ) && *final(rng) == sphere_sample(*old(rng), MAX_DRAWS as nat).1,
            !self.takes_sample() ==> res == self.scatter_spec(
                *r,
                *rec,
                Vec3::zero_spec(),
                old(rng).peek(),
            ) && *final(rng) == old(rng).rest(),
    ;
}

/// The answer of `material` to the ray `r` at the hit `rec` with the random
/// value taken from the source `rng`, and the source afterwards.
pub open spec fn scatter_from<M: Material, R: RandomSource>(
    material: &M,
    r: Ray,
    rec: HitRecord,
    rng: R,
) -> (Option<Scatter>, R) {
    if material.takes_sample() {
        let (sample, rest) = sphere_sample(rng, MAX_DRAWS as nat);
        (material.scatter_spec(r, rec, sample, Fixed::zero_spec()), rest)
    } else {
        (material.scatter_spec(r, rec, Vec3::zero_spec(), rng.peek()), rng.rest())
    }
}

/// A diffuse surface.
#[derive(Clone, Copy, Debug, PartialEq, Eq, Structural)]
pub struct Lambertian {
    base_color: Color,
}

impl Lambertian {
    /// The colour that the surface gives to the light it scatters.
    pub closed spec fn base_color(&self) -> Color {
        self.base_color
    }

    /// The direction in which a diffuse surface with normal `normal` sends a
    /// ray: the normal plus the unit vector toward `sample`, or the normal
    /// alone where that sum is near zero.
    pub open spec fn direction_spec(normal: Vec3, sample: Vec3) -> Vec3 {
        let sum = normal.add_spec(sample.normalize_spec());
        if sum.is_near_zero_spec() {
            normal
        } else {
            sum
        }
    }

    /// A diffuse material of the given colour.
    pub fn new(base_color: Color) -> (m: Lambertian)
        ensures
            m.base_color() == base_color,
    {
        Lambertian { base_color }
    }
}

impl Material for Lambertian {
    open spec fn scatter_spec(&self, r: Ray, rec: HitRecord, sample: Vec3, draw: Fixed) -> Option<
        Scatter,
    > {
        Some(
            Scatter {
                attenuation: self.base_color(),
                ray: Ray {
                    origin: rec.p,
                    direction: Lambertian::direction_spec(rec.normal, sample),
                },
            },
        )
    }

    /// A diffuse surface takes a point of the unit sphere from the source.
    open spec fn takes_sample(&self) -> bool {
        true
    }

    fn scatter_with(&self, r: &Ray, rec: &HitRecord, sample: Vec3, draw: Fixed) -> (res: Option<
        Scatter,
    >)
        ensures
            res matches Some(s) && s.attenuation == self.base_color() && (
            !rec.normal.is_near_zero_spec() ==> !s.ray.direction.is_near_zero_spec()),
    {
        Some(self.scatter_toward(rec, sample.normalize()))
    }

    fn scatter<R: RandomSource>(&self, r: &Ray, rec: &HitRecord, rng: &mut R) -> (res: Option<
        Scatter,
    >)
        ensures
            res matches Some(s) && s.attenuation == self.base_color() && (
            !rec.normal.is_near_zero_spec() ==> !s.ray.direction.is_near_zero_spec()),
    {
        let unit = rand_vec3_unit(rng);
        Some(self.scatter_toward(rec, unit))
    }
}

impl Lambertian {
    /// The answer of the surface for the unit vector `unit` drawn from the
    /// unit sphere.
    fn scatter_toward(&self, rec: &HitRecord, unit: Vec3) -> (s: Scatter)
        ensures
            s.attenuation == self.base_color(),
            s.ray.origin == rec.p,
            s.ray.direction == (if rec.normal.add_spec(unit).is_near_zero_spec() {
                rec.normal
            } else {
                rec.normal.add_spec(unit)
            }),
    {
        let mut scatter_direction = rec.normal.add(unit);
        if is_near_zero(scatter_direction) {
            scatter_direction = rec.normal;
        }
        Scatter { attenuation: self.base_color, ray: Ray::new(rec.p, scatter_direction) }
    }
}

/// A mirror, more or less rough.
#[derive(Clone, Copy, Debug, PartialEq, Eq, Structural)]
pub struct Metal {
    base_color: Color,
    fuzz: Fixed,
}

impl Metal {
    /// The colour that the surface gives to the light it scatters.
    pub closed spec fn base_color(&self) -> Color {
        self.base_color
    }

    /// The roughness, between zero and one.
    pub closed spec fn fuzz(&self) -> Fixed {
        self.fuzz
    }

    /// The roughness keeps between zero and one.
    #[verifier::type_invariant]
    pub open spec fn wf(&self) -> bool {
        0 <= self.fuzz()@ <= SCALE as int
    }

    /// The mirror direction of the ray, moved by `fuzz` times `sample`.
    pub open spec fn direction_spec(&self, r: Ray, rec: HitRecord, sample: Vec3) -> Vec3 {
        reflect_spec(r.direction.normalize_spec(), rec.normal).add_spec(
            sample.scale_spec(self.fuzz()),
        )
    }

    /// A mirror without fuzz sends a ray on with length one: for a ray with
    /// a direction and a normal of length one, the exact squared length of
    /// the outgoing direction differs from one by at most 406 raw units.
    pub proof fn lemma_mirror_length(&self, r: Ray, rec: HitRecord, sample: Vec3)
        requires
            self.fuzz()@ == 0,
            r.direction.wf(),
            max_magnitude(r.direction) != 0,
            rec.normal.is_within(SCALE as int),
            SCALE * SCALE - 6 * SCALE <= raw_dot(rec.normal, rec.normal) <= SCALE * SCALE + 2,
        ensures
            ({
                let d = self.direction_spec(r, rec, sample);
                SCALE * SCALE - 406 * SCALE <= raw_dot(d, d) <= SCALE * SCALE + 2 + 400 * SCALE
            }),
    {
        let unit = r.direction.normalize_spec();
        r.direction.lemma_normalize_unit();
        r.direction.lemma_normalize_bounded();
        lemma_reflect_length(unit, rec.normal);
        let mirrored = reflect_spec(unit, rec.normal);
        let moved = sample.scale_spec(self.fuzz());
        assert(sample.x@ * 0 == 0 && sample.y@ * 0 == 0 && sample.z@ * 0 == 0);
        assert(moved.x@ == 0 && moved.y@ == 0 && moved.z@ == 0);
        let d = self.direction_spec(r, rec, sample);
        assert(d.x@ == mirrored.x@ && d.y@ == mirrored.y@ && d.z@ == mirrored.z@);
    }

    /// A metal of the given colour; `fuzz` is clamped to `[0, 1]`.
    pub fn new(base_color: Color, fuzz: Fixed) -> (m: Metal)
        ensures
            m.base_color() == base_color,
            m.fuzz() == fuzz.max_spec(Fixed::zero_spec()).min_spec(Fixed::one_spec()),
            0 <= m.fuzz()@ <= SCALE as int,
    {
        Metal { base_color, fuzz: fuzz.max(Fixed::zero()).min(Fixed::one()) }
    }
}

impl Material for Metal {
    /// The ray is absorbed where the roughened direction points into the
    /// surface.
    open spec fn scatter_spec(&self, r: Ray, rec: HitRecord, sample: Vec3, draw: Fixed) -> Option<
        Scatter,
    > {
        let direction = self.direction_spec(r, rec, sample);
        if direction.dot_spec(rec.normal)@ < 0 {
            None
        } else {
            Some(
                Scatter { attenuation: self.base_color(), ray: Ray { origin: rec.p, direction } },
            )
        }
    }

    /// A metal takes a point of the unit sphere from the source.
    open spec fn takes_sample(&self) -> bool {
        true
    }

    fn scatter_with(&self, r: &Ray, rec: &HitRecord, sample: Vec3, draw: Fixed) -> (res: Option<
        Scatter,
    >)
        ensures
            res matches Some(s) ==> s.attenuation == self.base_color() && s.ray.direction.dot_spec(
                rec.normal,
            )@ >= 0,
    {
        let reflected = reflect(r.direction().normalize(), rec.normal);
        let scattered = Ray::new(rec.p, reflected.add(sample.scale(self.fuzz)));
        if scattered.direction().dot(rec.normal).is_negative() {
            None
        } else {
            Some(Scatter { attenuation: self.base_color, ray: scattered })
        }
    }

    fn scatter<R: RandomSource>(&self, r: &Ray, rec: &HitRecord, rng: &mut R) -> (res: Option<
        Scatter,
    >)
        ensures
            res matches Some(s) ==> s.attenuation == self.base_color() && s.ray.direction.dot_spec(
                rec.normal,
            )@ >= 0,
    {
        let sample = rand_vec3_in_unit_sphere(rng);
        self.scatter_with(r, rec, sample, Fixed::zero())
    }
}

/// A clear material that bends light, such as glass.
#[derive(Clone, Copy, Debug, PartialEq, Eq, Structural)]
pub struct Dielectric {
    /// The index of refraction.
    pub ir: Fixed,
}

impl Dielectric {
    /// The reflectance at normal incidence: `((1 - n) / (1 + n))^2`.
    pub open spec fn r0_spec(ref_idx: Fixed) -> Fixed {
        let r = Fixed::one_spec().sub_spec(ref_idx).div_spec(Fixed::one_spec().add_spec(ref_idx));
        r.mul_spec(r)
    }

    /// Schlick's approximation: `r0 + (1 - r0) * (1 - cosine)^5`.
    pub open spec fn reflectance_spec(cosine: Fixed, ref_idx: Fixed) -> Fixed {
        let r0 = Dielectric::r0_spec(ref_idx);
        r0.add_spec(
            Fixed::one_spec().sub_spec(r0).mul_spec(Fixed::one_spec().sub_spec(cosine).powi_spec(5)),
        )
    }

    /// The ratio of the refractive indices that a ray meets at `rec`: going
    /// in, one over the index; coming out, the index.
    pub open spec fn refraction_ratio(&self, rec: HitRecord) -> Fixed {
        if rec.front_face {
            Fixed::one_spec().div_spec(self.ir)
        } else {
            self.ir
        }
    }

    /// Whether Snell's law has no solution for a unit direction `unit` at a
    /// surface with normal `normal`: the ratio times the sine exceeds one.
    pub open spec fn cannot_refract(unit: Vec3, normal: Vec3, ratio: Fixed) -> bool {
        let cos_theta = incidence_cosine(unit, normal);
        let sin_theta = Fixed::one_spec().sub_spec(cos_theta.mul_spec(cos_theta)).sqrt_spec();
        ratio.mul_spec(sin_theta)@ > SCALE as int
    }

    /// Whether the ray is mirrored rather than bent: always where it cannot
    /// be bent, else where the reflectance exceeds `draw`.
    pub open spec fn reflects(&self, r: Ray, rec: HitRecord, draw: Fixed) -> bool {
        let ratio = self.refraction_ratio(rec);
        let unit = r.direction.normalize_spec();
        Dielectric::cannot_refract(unit, rec.normal, ratio) || Dielectric::reflectance_spec(
            incidence_cosine(unit, rec.normal),
            ratio,
        )@ > draw@
    }

    /// The direction in which the ray leaves: mirrored or bent.
    pub open spec fn direction_spec(&self, r: Ray, rec: HitRecord, draw: Fixed) -> Vec3 {
        let unit = r.direction.normalize_spec();
        if self.reflects(r, rec, draw) {
            reflect_spec(unit, rec.normal)
        } else {
            refract_spec(unit, rec.normal, self.refraction_ratio(rec))
        }
    }

    /// For a positive ratio of indices the reflectance at normal incidence
    /// lies between zero and one.
    pub proof fn lemma_r0_range(ref_idx: Fixed)
        requires
            ref_idx@ > 0,
        ensures
            0 <= Dielectric::r0_spec(ref_idx)@ <= SCALE as int,
    {
        let one = Fixed::one_spec();
        let ratio = one.sub_spec(ref_idx).div_spec(one.add_spec(ref_idx));
        one.sub_spec(ref_idx).lemma_div_fraction(one.add_spec(ref_idx));
        if ratio@ >= 0 {
            ratio.lemma_mul_by_fraction(ratio);
        } else {
            let opposite = ratio.neg_spec();
            assert(ratio@ * ratio@ == opposite@ * opposite@) by (nonlinear_arith)
                requires
                    opposite@ == -ratio@,
            ;
            opposite.lemma_mul_by_fraction(opposite);
        }
    }

    /// For a cosine between zero and one and a positive ratio of indices the
    /// reflectance lies between the reflectance at normal incidence and one.
    pub proof fn lemma_reflectance_range(cosine: Fixed, ref_idx: Fixed)
        requires
            0 <= cosine@ <= SCALE as int,
            ref_idx@ > 0,
        ensures
            Dielectric::r0_spec(ref_idx)@ <= Dielectric::reflectance_spec(cosine, ref_idx)@
                <= SCALE as int,
    {
        let one = Fixed::one_spec();
        let r0 = Dielectric::r0_spec(ref_idx);
        Dielectric::lemma_r0_range(ref_idx);
        one.sub_spec(cosine).lemma_powi_fraction(5);
        one.sub_spec(r0).lemma_mul_by_fraction(one.sub_spec(cosine).powi_spec(5));
    }

    /// For a positive ratio of indices the reflectance does not fall as the
    /// cosine falls from one to zero.
    pub proof fn lemma_reflectance_monotone(smaller: Fixed, larger: Fixed, ref_idx: Fixed)
        requires
            0 <= smaller@ <= larger@ <= SCALE as int,
            ref_idx@ > 0,
        ensures
            Dielectric::reflectance_spec(smaller, ref_idx)@ >= Dielectric::reflectance_spec(
                larger,
                ref_idx,
            )@,
    {
        let one = Fixed::one_spec();
        let r0 = Dielectric::r0_spec(ref_idx);
        Dielectric::lemma_r0_range(ref_idx);
        one.sub_spec(larger).lemma_powi_monotone(one.sub_spec(smaller), 5);
        one.sub_spec(r0).lemma_mul_monotone(
            one.sub_spec(larger).powi_spec(5),
            one.sub_spec(r0),
            one.sub_spec(smaller).powi_spec(5),
        );
    }

    /// A dielectric sends a ray on with length one, mirrored or bent. For a
    /// ray with a direction, a normal of length one and a ratio of indices of
    /// at most four: the exact squared length of the outgoing direction
    /// differs from one by at most 406 raw units. Where the ray is bent, this
    /// holds where the cosine of incidence is not capped and the sine of the
    /// bent ray does not exceed one.
    pub proof fn lemma_direction_length(&self, r: Ray, rec: HitRecord, draw: Fixed)
        requires
            r.direction.wf(),
            max_magnitude(r.direction) != 0,
            rec.normal.is_within(SCALE as int),
            SCALE * SCALE - 6 * SCALE <= raw_dot(rec.normal, rec.normal) <= SCALE * SCALE + 2,
            !self.reflects(r, rec, draw) ==> {
                let unit = r.direction.normalize_spec();
                let ratio = self.refraction_ratio(rec);
                &&& -4 * SCALE <= ratio@ <= 4 * SCALE
                &&& unit.neg_spec().dot_spec(rec.normal)@ <= SCALE
                &&& refract_perp(unit, rec.normal, ratio).length_squared_spec()@ <= SCALE
            },
        ensures
            ({
                let d = self.direction_spec(r, rec, draw);
                SCALE * SCALE - 406 * SCALE <= raw_dot(d, d) <= SCALE * SCALE + 2 + 400 * SCALE
            }),
    {
        let unit = r.direction.normalize_spec();
        r.direction.lemma_normalize_unit();
        r.direction.lemma_normalize_bounded();
        if self.reflects(r, rec, draw) {
            lemma_reflect_length(unit, rec.normal);
        } else {
            lemma_refract_length(unit, rec.normal, self.refraction_ratio(rec));
        }
    }

    /// A clear material with the index of refraction `ir`.
    pub fn new(ir: Fixed) -> (m: Dielectric)
        ensures
            m.ir == ir,
    {
        Dielectric { ir }
    }

    /// The share of light that a surface mirrors, by Schlick's approximation,
    /// for the cosine of the angle of incidence and the ratio of the
    /// refractive indices.
    pub fn reflectance(cosine: Fixed, ref_idx: Fixed) -> (r: Fixed)
        ensures
            r == Dielectric::reflectance_spec(cosine, ref_idx),
            0 <= cosine@ <= SCALE as int && ref_idx@ > 0 ==> Dielectric::r0_spec(ref_idx)@ <= r@
                <= SCALE as int,
    {
        proof {
            if 0 <= cosine@ <= SCALE as int && ref_idx@ > 0 {
                Dielectric::lemma_reflectance_range(cosine, ref_idx);
            }
        }
        let one = Fixed::one();
        let mut r0 = one.sub(ref_idx).div(one.add(ref_idx));
        r0 = r0.mul(r0);
        r0.add(one.sub(r0).mul(one.sub(cosine).powi(5)))
    }
}

impl Material for Dielectric {
    open spec fn scatter_spec(&self, r: Ray, rec: HitRecord, sample: Vec3, draw: Fixed) -> Option<
        Scatter,
    > {
        Some(
            Scatter {
                attenuation: white(),
                ray: Ray { origin: rec.p, direction: self.direction_spec(r, rec, draw) },
            },
        )
    }

    /// A dielectric takes one number from the source.
    open spec fn takes_sample(&self) -> bool {
        false
    }

    fn scatter_with(&self, r: &Ray, rec: &HitRecord, sample: Vec3, draw: Fixed) -> (res: Option<
        Scatter,
    >)
        ensures
            res matches Some(s) && s.attenuation == white(),
    {
        let one = Fixed::one();
        let refraction_ratio = if rec.front_face {
            one.div(self.ir)
        } else {
            self.ir
        };
        let unit_direction = r.direction().normalize();
        let cos_theta = unit_direction.neg().dot(rec.normal).min(one);
        let sin_theta = one.sub(cos_theta.mul(cos_theta)).sqrt();
        let cannot_refract = refraction_ratio.mul(sin_theta).gt(one);
        let dir_out = if cannot_refract || Dielectric::reflectance(cos_theta, refraction_ratio).gt(
            draw,
        ) {
            reflect(unit_direction, rec.normal)
        } else {
            refract(unit_direction, rec.normal, refraction_ratio)
        };
        Some(Scatter { attenuation: Vec3::splat(one), ray: Ray::new(rec.p, dir_out) })
    }

    fn scatter<R: RandomSource>(&self, r: &Ray, rec: &HitRecord, rng: &mut R) -> (res: Option<
        Scatter,
    >)
        ensures
            res matches Some(s) && s.attenuation == white(),
    {
        let draw = rng.next_unit();
        self.scatter_with(r, rec, Vec3::zero(), draw)
    }
}

/// Any of the materials.
#[derive(Clone, Copy, Debug, PartialEq, Eq, Structural)]
pub enum AnyMaterial {
    Lambertian(Lambertian),
    Metal(Metal),
    Dielectric(Dielectric),
}

impl AnyMaterial {
    /// The colour of the material keeps every channel between zero and one,
    /// so that the material dims light and never adds to it. A dielectric
    /// has no colour of its own.
    pub open spec fn never_amplifies(&self) -> bool {
        match *self {
            AnyMaterial::Lambertian(m) => in_unit_range(m.base_color()),
            AnyMaterial::Metal(m) => in_unit_range(m.base_color()),
            AnyMaterial::Dielectric(_) => true,
        }
    }

    /// The attenuation of a material that never amplifies lies in the unit
    /// range, whatever the ray, the hit and the source of randomness.
    pub proof fn lemma_attenuation_from_in_unit_range<R: RandomSource>(
        &self,
        r: Ray,
        rec: HitRecord,
        rng: R,
    )
        requires
            self.never_amplifies(),
        ensures
            scatter_from(self, r, rec, rng).0 matches Some(s) ==> in_unit_range(s.attenuation),
    {
        if self.takes_sample() {
            self.lemma_attenuation_in_unit_range(
                r,
                rec,
                sphere_sample(rng, MAX_DRAWS as nat).0,
                Fixed::zero_spec(),
            );
        } else {
            self.lemma_attenuation_in_unit_range(r, rec, Vec3::zero_spec(), rng.peek());
        }
    }

    /// The attenuation of a material that never amplifies lies in the unit
    /// range, whatever the ray, the hit and the random values.
    pub proof fn lemma_attenuation_in_unit_range(
        &self,
        r: Ray,
        rec: HitRecord,
        sample: Vec3,
        draw: Fixed,
    )
        requires
            self.never_amplifies(),
        ensures
            self.scatter_spec(r, rec, sample, draw) matches Some(s) ==> in_unit_range(
                s.attenuation,
            ),
    {
    }
}

impl Material for AnyMaterial {
    open spec fn scatter_spec(&self, r: Ray, rec: HitRecord, sample: Vec3, draw: Fixed) -> Option<
        Scatter,
    > {
        match *self {
            AnyMaterial::Lambertian(m) => m.scatter_spec(r, rec, sample, draw),
            AnyMaterial::Metal(m) => m.scatter_spec(r, rec, sample, draw),
            AnyMaterial::Dielectric(m) => m.scatter_spec(r, rec, sample, draw),
        }
    }

    open spec fn takes_sample(&self) -> bool {
        match *self {
            AnyMaterial::Lambertian(m) => m.takes_sample(),
            AnyMaterial::Metal(m) => m.takes_sample(),
            AnyMaterial::Dielectric(m) => m.takes_sample(),
        }
    }

    fn scatter_with(&self, r: &Ray, rec: &HitRecord, sample: Vec3, draw: Fixed) -> (res: Option<
        Scatter,
    >) {
        match self {
            AnyMaterial::Lambertian(m) => m.scatter_with(r, rec, sample, draw),
            AnyMaterial::Metal(m) => m.scatter_with(r, rec, sample, draw),
            AnyMaterial::Dielectric(m) => m.scatter_with(r, rec, sample, draw),
        }
    }

    fn scatter<R: RandomSource>(&self, r: &Ray, rec: &HitRecord, rng: &mut R) -> (res: Option<
        Scatter,
    >) {
        match self {
            AnyMaterial::Lambertian(m) => m.scatter(r, rec, rng),
            AnyMaterial::Metal(m) => m.scatter(r, rec, rng),
            AnyMaterial::Dielectric(m) => m.scatter(r, rec, rng),
        }
    }
}

} // verus!
