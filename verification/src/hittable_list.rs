//! A scene: a list of things, hit where the nearest of them is hit.

use crate::fixed::Fixed;
use crate::hittable::{in_window, nearer_than, never_amplifies, HitRecord, Hittable};
use crate::ray::Ray;
use crate::sphere::Sphere;
use vstd::prelude::*;

verus! {

/// The upper end of the window once `best` has been found: the parameter of
/// `best`, or `t_max` while nothing has been hit.
pub open spec fn bound_after(best: Option<HitRecord>, t_max: Fixed) -> Fixed {
    match best {
        Some(h) => h.t,
        None => t_max,
    }
}

/// The hit that remains when the things are tried in order, each against a
/// window that ends at the nearest hit found before it.
pub open spec fn nearest_hit<H: Hittable>(
    objects: Seq<H>,
    r: Ray,
    t_min: Fixed,
    t_max: Fixed,
) -> Option<HitRecord>
    decreases objects.len(),
{
    if objects.len() == 0 {
        None
    } else {
        let before = nearest_hit(objects.drop_last(), r, t_min, t_max);
        match objects.last().hit_spec(r, t_min, bound_after(before, t_max)) {
            Some(h) => Some(h),
            None => before,
        }
    }
}

/// `res` is the nearest of the hits that the things report one by one for the
/// whole window: nothing where none reports a hit, else the hit of the first
/// thing whose hit no other undercuts.
pub open spec fn is_nearest_hit<H: Hittable>(
    objects: Seq<H>,
    r: Ray,
    t_min: Fixed,
    t_max: Fixed,
    res: Option<HitRecord>,
) -> bool {
    match res {
        None => forall|i: int|
            0 <= i < objects.len() ==> (#[trigger] objects[i].hit_spec(r, t_min, t_max)) is None,
        Some(h) => exists|k: int|
            0 <= k < objects.len() && #[trigger] objects[k].hit_spec(r, t_min, t_max) == Some(h)
                && is_first_minimum(objects, r, t_min, t_max, k, h.t),
    }
}

/// No thing reports a hit nearer than `t`, and none before the `k`th reports
/// one as near.
pub open spec fn is_first_minimum<H: Hittable>(
    objects: Seq<H>,
    r: Ray,
    t_min: Fixed,
    t_max: Fixed,
    k: int,
    t: Fixed,
) -> bool {
    forall|i: int|
        0 <= i < objects.len() ==> (#[trigger] objects[i].hit_spec(r, t_min, t_max) matches Some(
            other,
        ) ==> t@ <= other.t@ && (i < k ==> t@ < other.t@))
}

/// The hit that remains lies in the window.
pub proof fn lemma_nearest_hit_in_window<H: Hittable>(
    objects: Seq<H>,
    r: Ray,
    t_min: Fixed,
    t_max: Fixed,
)
    ensures
        nearest_hit(objects, r, t_min, t_max) matches Some(h) ==> in_window(h.t, t_min, t_max)
            && r.direction.dot_spec(h.normal)@ <= 0,
    decreases objects.len(),
{
    if objects.len() > 0 {
        let before = nearest_hit(objects.drop_last(), r, t_min, t_max);
        lemma_nearest_hit_in_window(objects.drop_last(), r, t_min, t_max);
        objects.last().lemma_hit_in_window(r, t_min, bound_after(before, t_max));
    }
}

/// The hit that remains is the nearest of the hits that the things report
/// one by one.
pub proof fn lemma_nearest_hit_is_nearest<H: Hittable>(
    objects: Seq<H>,
    r: Ray,
    t_min: Fixed,
    t_max: Fixed,
)
    ensures
        is_nearest_hit(objects, r, t_min, t_max, nearest_hit(objects, r, t_min, t_max)),
    decreases objects.len(),
{
    if objects.len() > 0 {
        let init = objects.drop_last();
        let last = objects.last();
        let n = init.len() as int;
        let before = nearest_hit(init, r, t_min, t_max);
        let bound = bound_after(before, t_max);
        lemma_nearest_hit_is_nearest(init, r, t_min, t_max);
        lemma_nearest_hit_in_window(init, r, t_min, t_max);
        last.lemma_hit_narrowed(r, t_min, t_max, bound);
        let whole = last.hit_spec(r, t_min, t_max);
        let res = nearest_hit(objects, r, t_min, t_max);
        assert(objects[n] == last);
        assert forall|i: int| 0 <= i < n implies objects[i] == init[i] by {}
        match before {
            None => {
                assert(res == whole);
                match res {
                    None => {
                        assert forall|i: int| 0 <= i < objects.len() implies (
                        #[trigger] objects[i].hit_spec(r, t_min, t_max)) is None by {
                            if i < n {
                                assert(init[i].hit_spec(r, t_min, t_max) is None);
                            }
                        }
                    },
                    Some(h) => {
                        assert forall|i: int| 0 <= i < objects.len() implies (
                        #[trigger] objects[i].hit_spec(r, t_min, t_max) matches Some(other)
                            ==> h.t@ <= other.t@ && (i < n ==> h.t@ < other.t@)) by {
                            if i < n {
                                assert(init[i].hit_spec(r, t_min, t_max) is None);
                            }
                        }
                        assert(is_first_minimum(objects, r, t_min, t_max, n, h.t));
                    },
                }
            },
            Some(hp) => {
                let k = choose|k: int|
                    0 <= k < init.len() && #[trigger] init[k].hit_spec(r, t_min, t_max) == Some(hp)
                        && is_first_minimum(init, r, t_min, t_max, k, hp.t);
                match last.hit_spec(r, t_min, bound) {
                    Some(h) => {
                        assert(res == Some(h) && whole == Some(h) && h.t@ < hp.t@);
                        assert forall|i: int| 0 <= i < objects.len() implies (
                        #[trigger] objects[i].hit_spec(r, t_min, t_max) matches Some(other)
                            ==> h.t@ <= other.t@ && (i < n ==> h.t@ < other.t@)) by {
                            if i < n {
                                if let Some(other) = init[i].hit_spec(r, t_min, t_max) {
                                    assert(hp.t@ <= other.t@);
                                }
                            }
                        }
                        assert(is_first_minimum(objects, r, t_min, t_max, n, h.t));
                    },
                    None => {
                        assert(res == Some(hp));
                        assert(objects[k].hit_spec(r, t_min, t_max) == Some(hp));
                        assert forall|i: int| 0 <= i < objects.len() implies (
                        #[trigger] objects[i].hit_spec(r, t_min, t_max) matches Some(other)
                            ==> hp.t@ <= other.t@ && (i < k ==> hp.t@ < other.t@)) by {
                            if i < n {
                                if let Some(other) = init[i].hit_spec(r, t_min, t_max) {
                                    assert(hp.t@ <= other.t@ && (i < k ==> hp.t@ < other.t@));
                                }
                            }
                        }
                        assert(is_first_minimum(objects, r, t_min, t_max, k, hp.t));
                    },
                }
            },
        }
    }
}

/// Lowering the upper end of the window takes away a remaining hit at or
/// beyond the new end and changes nothing else.
pub proof fn lemma_nearest_hit_narrowed<H: Hittable>(
    objects: Seq<H>,
    r: Ray,
    t_min: Fixed,
    t_max: Fixed,
    bound: Fixed,
)
    requires
        bound@ <= t_max@,
    ensures
        nearest_hit(objects, r, t_min, bound) == nearer_than(
            nearest_hit(objects, r, t_min, t_max),
            bound,
        ),
    decreases objects.len(),
{
    if objects.len() > 0 {
        let init = objects.drop_last();
        let last = objects.last();
        lemma_nearest_hit_narrowed(init, r, t_min, t_max, bound);
        lemma_nearest_hit_in_window(init, r, t_min, t_max);
        let wide = nearest_hit(init, r, t_min, t_max);
        let narrow = nearest_hit(init, r, t_min, bound);
        last.lemma_hit_narrowed(r, t_min, t_max, bound);
        last.lemma_hit_narrowed(r, t_min, t_max, bound_after(wide, t_max));
        last.lemma_hit_narrowed(r, t_min, t_max, bound_after(narrow, bound));
    }
}

/// A list of things that never amplify never amplifies.
pub proof fn lemma_list_never_amplifies<H: Hittable>(list: &HittableList<H>)
    requires
        forall|i: int| 0 <= i < list@.len() ==> never_amplifies(&#[trigger] list@[i]),
    ensures
        never_amplifies(list),
{
    assert forall|r: Ray, t_min: Fixed, t_max: Fixed|
        (#[trigger] list.hit_spec(r, t_min, t_max)) is Some implies list.hit_spec(
        r,
        t_min,
        t_max,
    )->0.material.never_amplifies() by {
        let rec = list.hit_spec(r, t_min, t_max)->0;
        lemma_nearest_hit_is_nearest(list@, r, t_min, t_max);
        let k = choose|k: int|
            0 <= k < list@.len() && #[trigger] list@[k].hit_spec(r, t_min, t_max) == Some(rec);
        assert(never_amplifies(&list@[k]));
    }
}

/// A list of things of one kind.
pub struct HittableList<H: Hittable> {
    objects: Vec<H>,
}

/// A scene of spheres.
pub type World = HittableList<Sphere>;

/// A scene of spheres whose materials never amplify never amplifies, so
/// that the colours it sends back keep to the unit range.
pub proof fn lemma_world_never_amplifies(world: &World)
    requires
        forall|i: int| 0 <= i < world@.len() ==> (#[trigger] world@[i]).material.never_amplifies(),
    ensures
        never_amplifies(world),
{
    assert forall|i: int| 0 <= i < world@.len() implies never_amplifies(&#[trigger] world@[i]) by {
        world@[i].lemma_never_amplifies();
    }
    lemma_list_never_amplifies(world);
}

impl<H: Hittable> View for HittableList<H> {
    type V = Seq<H>;

    /// The things in the order in which they were added.
    closed spec fn view(&self) -> Seq<H> {
        self.objects@
    }
}

impl<H: Hittable> HittableList<H> {
    /// The empty list.
    pub fn new() -> (list: Self)
        ensures
            list@ == Seq::<H>::empty(),
    {
        HittableList { objects: Vec::new() }
    }

    /// Puts `object` at the end of the list.
    pub fn add(&mut self, object: H)
        ensures
            final(self)@ == old(self)@.push(object),
    {
        self.objects.push(object);
    }

    /// The number of things in the list.
    pub fn len(&self) -> (n: usize)
        ensures
            n == self@.len(),
    {
        self.objects.len()
    }
}

impl<H: Hittable> Hittable for HittableList<H> {
    open spec fn hit_spec(&self, r: Ray, t_min: Fixed, t_max: Fixed) -> Option<HitRecord> {
        nearest_hit(self@, r, t_min, t_max)
    }

    proof fn lemma_hit_in_window(&self, r: Ray, t_min: Fixed, t_max: Fixed) {
        lemma_nearest_hit_in_window(self@, r, t_min, t_max);
    }

    proof fn lemma_hit_narrowed(&self, r: Ray, t_min: Fixed, t_max: Fixed, bound: Fixed) {
        lemma_nearest_hit_narrowed(self@, r, t_min, t_max, bound);
    }

    /// The nearest of the hits of the things in the list.
    fn hit(&self, r: &Ray, t_min: Fixed, t_max: Fixed) -> (res: Option<HitRecord>)
        ensures
            is_nearest_hit(self@, *r, t_min, t_max, res),
            res matches Some(h) ==> in_window(h.t, t_min, t_max) && r.direction.dot_spec(
                h.normal,
            )@ <= 0,
    {
        let mut closest_so_far = t_max;
        let mut best: Option<HitRecord> = None;
        let mut i: usize = 0;
        while i < self.objects.len()
            invariant
                i <= self.objects.len(),
                best == nearest_hit(self.objects@.take(i as int), *r, t_min, t_max),
                closest_so_far == bound_after(best, t_max),
            decreases self.objects.len() - i,
        {
            proof {
                assert(self.objects@.take(i + 1).drop_last() == self.objects@.take(i as int));
            }
            if let Some(rec) = self.objects[i].hit(r, t_min, closest_so_far) {
                closest_so_far = rec.t;
                best = Some(rec);
            }
            i = i + 1;
        }
        proof {
            assert(self.objects@.take(i as int) == self.objects@);
            lemma_nearest_hit_is_nearest(self@, *r, t_min, t_max);
            lemma_nearest_hit_in_window(self@, *r, t_min, t_max);
        }
        best
    }
}

} // verus!
