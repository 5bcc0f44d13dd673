//! The record of an intersection and the protocol of things that rays hit.

use crate::fixed::Fixed;
use crate::material::AnyMaterial;
use crate::ray::Ray;
use crate::vec3::{Point3, Vec3};
use vstd::prelude::*;

verus! {

/// What is known of the place where a ray met a surface.
#[derive(Clone, Copy, Debug, PartialEq, Eq, Structural)]
pub struct HitRecord {
    /// The point of intersection.
    pub p: Point3,
    /// The surface normal there, turned against the incoming ray.
    pub normal: Vec3,
    /// The material of the surface.
    pub material: AnyMaterial,
    /// The parameter of the ray at the point.
    pub t: Fixed,
    /// Whether the ray met the surface from outside.
    pub front_face: bool,
}

impl HitRecord {
    /// The record of a hit whose face has not been told yet.
    pub open spec fn new_spec(p: Point3, normal: Vec3, t: Fixed, material: AnyMaterial) -> HitRecord {
        HitRecord { p, normal, material, t, front_face: false }
    }

    /// Whether a ray of direction `direction` meets a surface with outward
    /// normal `outward_normal` from outside.
    pub open spec fn faces_front(direction: Vec3, outward_normal: Vec3) -> bool {
        direction.dot_spec(outward_normal)@ < 0
    }

    /// The record with its normal chosen between `outward_normal` and its
    /// opposite so that it points against the ray `r`.
    pub open spec fn set_face_normal_spec(self, r: Ray, outward_normal: Vec3) -> HitRecord {
        let front = HitRecord::faces_front(r.direction, outward_normal);
        HitRecord {
            front_face: front,
            normal: if front {
                outward_normal
            } else {
                outward_normal.neg_spec()
            },
            ..self
        }
    }

    /// A normal set by `set_face_normal_spec` never points along the ray.
    pub proof fn lemma_normal_opposes_ray(self, r: Ray, outward_normal: Vec3)
        requires
            outward_normal.wf(),
        ensures
            r.direction.dot_spec(self.set_face_normal_spec(r, outward_normal).normal)@ <= 0,
    {
        Vec3::lemma_dot_neg(r.direction, outward_normal);
    }

    /// The record of a hit at `p` with parameter `t`; `front_face` is unset
    /// until `set_face_normal` is called.
    pub fn new(p: &Point3, normal: &Vec3, t: Fixed, material: &AnyMaterial) -> (rec: HitRecord)
        ensures
            rec == HitRecord::new_spec(*p, *normal, t, *material),
    {
        HitRecord { p: *p, normal: *normal, t, front_face: false, material: *material }
    }

    /// Tells the record which side the ray `r` came from: sets `front_face`,
    /// and the normal to `outward_normal` or its opposite, whichever points
    /// against the ray.
    pub fn set_face_normal(&mut self, r: &Ray, outward_normal: &Vec3)
        ensures
            *final(self) == old(self).set_face_normal_spec(*r, *outward_normal),
            r.direction.dot_spec(final(self).normal)@ <= 0,
    {
        proof {
            use_type_invariant(outward_normal.x);
            use_type_invariant(outward_normal.y);
            use_type_invariant(outward_normal.z);
            self.lemma_normal_opposes_ray(*r, *outward_normal);
        }
        self.front_face = r.direction().dot(*outward_normal).is_negative();
        self.normal = if self.front_face {
            *outward_normal
        } else {
            outward_normal.neg()
        };
    }
}

/// `t` lies strictly between `t_min` and `t_max`.
pub open spec fn in_window(t: Fixed, t_min: Fixed, t_max: Fixed) -> bool {
    t_min@ < t@ < t_max@
}

/// `hit` with the hits at or beyond `bound` taken away.
pub open spec fn nearer_than(hit: Option<HitRecord>, bound: Fixed) -> Option<HitRecord> {
    match hit {
        Some(h) => if h.t@ < bound@ {
            Some(h)
        } else {
            None
        },
        None => None,
    }
}

/// Something that a ray can hit.
pub trait Hittable: Sync + Send {
    /// The nearest intersection of `r` with this thing whose parameter lies
    /// strictly between `t_min` and `t_max`, if there is one.
    spec fn hit_spec(&self, r: Ray, t_min: Fixed, t_max: Fixed) -> Option<HitRecord>;

    /// A reported hit lies strictly inside the window, and its normal does
    /// not point along the ray.
    proof fn lemma_hit_in_window(&self, r: Ray, t_min: Fixed, t_max: Fixed)
        ensures
            self.hit_spec(r, t_min, t_max) matches Some(h) ==> in_window(h.t, t_min, t_max)
                && r.direction.dot_spec(h.normal)@ <= 0,
    ;

    /// Lowering the upper end of the window takes away the hits at or beyond
    /// the new end and changes nothing else.
    proof fn lemma_hit_narrowed(&self, r: Ray, t_min: Fixed, t_max: Fixed, bound: Fixed)
        requires
            bound@ <= t_max@,
        ensures
            self.hit_spec(r, t_min, bound) == nearer_than(self.hit_spec(r, t_min, t_max), bound),
    ;

    /// The nearest intersection of `r` with this thing whose parameter lies
    /// strictly between `t_min` and `t_max`, if there is one.
    fn hit(&self, r: &Ray, t_min: Fixed, t_max: Fixed) -> (res: Option<HitRecord>)
        ensures
            res == self.hit_spec(*r, t_min, t_max),
    ;
}

/// Every hit that `world` reports has a material that never amplifies.
pub open spec fn never_amplifies<W: Hittable>(world: &W) -> bool {
    forall|r: Ray, t_min: Fixed, t_max: Fixed| #[trigger]
        world.hit_spec(r, t_min, t_max) matches Some(rec) ==> rec.material.never_amplifies()
}

} // verus!
