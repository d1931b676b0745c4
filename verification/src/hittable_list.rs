//! Scenes: lists of surfaces, searched for the nearest hit.
use vstd::prelude::*;
use crate::scalar::Scalar;
use crate::hittable::{HitRecord, Hittable};
use crate::ray::Ray;
use crate::interval::Interval;

verus! {

/// A scene: the surfaces a ray is tested against, in the order in which they were added.
pub struct HittableList<H: Hittable> {
    pub objects: Vec<H>,
}

/// The nearer of two hits; the first one where neither is nearer.
pub open spec fn nearer(first: Option<HitRecord>, second: Option<HitRecord>) -> Option<HitRecord> {
    if first is None {
        second
    } else if second is Some && second->0.t.lt(first->0.t) {
        second
    } else {
        first
    }
}

/// The hit with the smallest parameter among the hits of `objects` that `ray_t`
/// encloses; of several such hits, the one of the earliest object.
pub open spec fn closest<H: Hittable>(objects: Seq<H>, r: Ray, ray_t: Interval) -> Option<HitRecord>
    decreases objects.len(),
{
    if objects.len() == 0 {
        None
    } else {
        nearer(closest(objects.drop_last(), r, ray_t), objects.last().nearest(r, ray_t))
    }
}

/// `hit` if its parameter lies below `upper`, else nothing.
pub open spec fn below(hit: Option<HitRecord>, upper: Scalar) -> Option<HitRecord> {
    if hit is Some && hit->0.t.lt(upper) {
        hit
    } else {
        None
    }
}

/// The closest hit is the hit of one of the objects, and no object has a nearer one.
#[verifier::rlimit(40)]
pub proof fn lemma_closest_is_least<H: Hittable>(objects: Seq<H>, r: Ray, ray_t: Interval)
    ensures
        closest(objects, r, ray_t) is Some ==> exists|i: int|
            0 <= i < objects.len() && #[trigger] objects[i].nearest(r, ray_t) == closest(
                objects,
                r,
                ray_t,
            ),
        closest(objects, r, ray_t) is Some ==> ray_t.encloses(closest(objects, r, ray_t)->0.t),
        forall|j: int|
            0 <= j < objects.len() && (#[trigger] objects[j].nearest(r, ray_t)) is Some ==> closest(
                objects,
                r,
                ray_t,
            ) is Some && !objects[j].nearest(r, ray_t)->0.t.lt(closest(objects, r, ray_t)->0.t),
    decreases objects.len(),
{
    if objects.len() > 0 {
        let front = objects.drop_last();
        let last = objects.last();
        lemma_closest_is_least(front, r, ray_t);
        last.lemma_hit_enclosed(r, ray_t);
        let best = closest(objects, r, ray_t);
        if best is Some {
            if best == last.nearest(r, ray_t) {
                assert(objects[objects.len() - 1].nearest(r, ray_t) == best);
            } else {
                let i = choose|i: int|
                    0 <= i < front.len() && #[trigger] front[i].nearest(r, ray_t) == closest(
                        front,
                        r,
                        ray_t,
                    );
                assert(objects[i] == front[i]);
            }
        }
        assert forall|j: int|
            0 <= j < objects.len() && (#[trigger] objects[j].nearest(r, ray_t)) is Some implies best
            is Some && !objects[j].nearest(r, ray_t)->0.t.lt(best->0.t) by {
            if j < front.len() {
                assert(objects[j] == front[j]);
                assert(front[j].nearest(r, ray_t) is Some);
                front[j].lemma_hit_enclosed(r, ray_t);
            }
        }
    }
}

/// Lowering the upper bound keeps the closest hit if it is still enclosed, and else
/// leaves none.
#[verifier::rlimit(40)]
pub proof fn lemma_closest_narrowed<H: Hittable>(
    objects: Seq<H>,
    r: Ray,
    ray_t: Interval,
    upper: Scalar,
)
    requires
        upper.le(ray_t.max),
    ensures
        closest(objects, r, Interval { min: ray_t.min, max: upper }) == below(
            closest(objects, r, ray_t),
            upper,
        ),
    decreases objects.len(),
{
    if objects.len() > 0 {
        lemma_closest_narrowed(objects.drop_last(), r, ray_t, upper);
        objects.last().lemma_hit_narrowed(r, ray_t, upper);
        lemma_closest_is_least(objects.drop_last(), r, ray_t);
        objects.last().lemma_hit_enclosed(r, ray_t);
    }
}

/// The nearest hit of a scene does not depend on the order of its surfaces: two lists
/// that hold the same surfaces, each as often as the other, both miss the ray or hit it
/// at the same parameter.
#[verifier::rlimit(40)]
pub proof fn lemma_closest_permuted<H: Hittable>(
    first: Seq<H>,
    second: Seq<H>,
    r: Ray,
    ray_t: Interval,
)
    requires
        first.to_multiset() =~= second.to_multiset(),
    ensures
        closest(first, r, ray_t) is Some <==> closest(second, r, ray_t) is Some,
        closest(first, r, ray_t) is Some ==> closest(first, r, ray_t)->0.t.same(
            closest(second, r, ray_t)->0.t,
        ),
{
    first.to_multiset_ensures();
    second.to_multiset_ensures();
    lemma_closest_is_least(first, r, ray_t);
    lemma_closest_is_least(second, r, ray_t);
    if closest(first, r, ray_t) is Some {
        let i = choose|i: int|
            0 <= i < first.len() && #[trigger] first[i].nearest(r, ray_t) == closest(first, r, ray_t);
        assert(first.contains(first[i]));
        assert(first.to_multiset().count(first[i]) > 0);
        assert(second.to_multiset().count(first[i]) > 0);
        assert(second.contains(first[i]));
        let j = choose|j: int| 0 <= j < second.len() && second[j] == first[i];
        assert(second[j].nearest(r, ray_t) is Some);
    }
    if closest(second, r, ray_t) is Some {
        let i = choose|i: int|
            0 <= i < second.len() && #[trigger] second[i].nearest(r, ray_t) == closest(
                second,
                r,
                ray_t,
            );
        assert(second.contains(second[i]));
        assert(second.to_multiset().count(second[i]) > 0);
        assert(first.to_multiset().count(second[i]) > 0);
        assert(first.contains(second[i]));
        let j = choose|j: int| 0 <= j < first.len() && first[j] == second[i];
        assert(first[j].nearest(r, ray_t) is Some);
    }
}

impl<H: Hittable> HittableList<H> {
    /// The scene without surfaces.
    pub fn new() -> (list: HittableList<H>)
        ensures
            list.objects@.len() == 0,
    {
        HittableList { objects: Vec::new() }
    }

    /// Adds a surface at the end of the scene.
    pub fn add(&mut self, object: H)
        ensures
            final(self).objects@ == old(self).objects@.push(object),
    {
        self.objects.push(object);
    }
}

impl<H: Hittable> Hittable for HittableList<H> {
    open spec fn nearest(&self, r: Ray, ray_t: Interval) -> Option<HitRecord> {
        closest(self.objects@, r, ray_t)
    }

    /// Scans the surfaces with an upper bound that shrinks to the nearest hit found
    /// so far.
#[verifier::rlimit(40)]
    fn hit(&self, r: &Ray, ray_t: Interval) -> (res: Option<HitRecord>) {
        let mut best: Option<HitRecord> = None;
        let mut closest_so_far = ray_t.max;
        let mut i: usize = 0;
        while i < self.objects.len()
            invariant
                i <= self.objects.len(),
                best == closest(self.objects@.take(i as int), *r, ray_t),
                closest_so_far == (if best is Some {
                    best->0.t
                } else {
                    ray_t.max
                }),
            decreases self.objects.len() - i,
        {
            let window = Interval::new(ray_t.min, closest_so_far);
            let found = self.objects[i].hit(r, window);
            proof {
                let seen = self.objects@.take(i as int);
                let next = self.objects@.take(i + 1);
                assert(next.drop_last() == seen);
                assert(next.last() == self.objects@[i as int]);
                lemma_closest_is_least(seen, *r, ray_t);
                self.objects@[i as int].lemma_hit_enclosed(*r, ray_t);
                if best is Some {
                    self.objects@[i as int].lemma_hit_narrowed(*r, ray_t, closest_so_far);
                } else {
                    assert(window == ray_t);
                }
            }
            match found {
                Some(rec) => {
                    closest_so_far = rec.t;
                    best = Some(rec);
                },
                None => {},
            }
            i = i + 1;
        }
        assert(self.objects@.take(i as int) == self.objects@);
        best
    }

    proof fn lemma_hit_enclosed(&self, r: Ray, ray_t: Interval) {
        lemma_closest_is_least(self.objects@, r, ray_t);
    }

    proof fn lemma_hit_narrowed(&self, r: Ray, ray_t: Interval, upper: Scalar) {
        lemma_closest_narrowed(self.objects@, r, ray_t, upper);
    }
}

} // verus!
