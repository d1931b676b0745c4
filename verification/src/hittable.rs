//! Intersection records and the contract of everything a ray can hit.
use vstd::prelude::*;
use crate::scalar::Scalar;
use crate::vector::{dot, Point3, Vec3};
use crate::ray::Ray;
use crate::interval::Interval;
use crate::material::Material;
use crate::exact::{lemma_opposite_mirrors, lemma_product_mirrors, lemma_sum_mirrors};

verus! {

/// Where and how a ray meets a surface.
#[derive(Clone, Copy, Debug)]
pub struct HitRecord {
    /// The point of intersection.
    pub p: Point3,
    /// The surface normal there, turned against the ray.
    pub normal: Vec3,
    /// The material of the surface, once it is known.
    pub mat: Option<Material>,
    /// The ray parameter of the intersection.
    pub t: Scalar,
    /// Whether the ray arrives from outside the surface.
    pub front_face: bool,
}

impl HitRecord {
    /// Whether a ray of direction `direction` meets a surface of outward normal
    /// `outward_normal` from outside.
    pub open spec fn faces(direction: Vec3, outward_normal: Vec3) -> bool {
        direction.dot_product(outward_normal).lt(Scalar::of_bits(0))
    }

    /// The outward normal turned against a ray of direction `direction`.
    pub open spec fn against(direction: Vec3, outward_normal: Vec3) -> Vec3 {
        if HitRecord::faces(direction, outward_normal) {
            outward_normal
        } else {
            outward_normal.negated()
        }
    }

    /// A record at the origin with all numbers zero and no material.
    pub fn new() -> (rec: HitRecord)
        ensures
            rec.p == Vec3::origin(),
            rec.normal == Vec3::origin(),
            rec.mat is None,
            rec.t == Scalar::of_bits(0),
            !rec.front_face,
    {
        HitRecord {
            p: Vec3::zero(),
            normal: Vec3::zero(),
            mat: None,
            t: Scalar::zero(),
            front_face: false,
        }
    }

    /// Sets the normal and the side of the hit from the outward normal of the surface,
    /// which is taken to have unit length.
    pub fn set_face_normal(&mut self, r: &Ray, outward_normal: &Vec3)
        ensures
            final(self).front_face == HitRecord::faces(r.direction, *outward_normal),
            final(self).normal == HitRecord::against(r.direction, *outward_normal),
            final(self).p == old(self).p,
            final(self).mat == old(self).mat,
            final(self).t == old(self).t,
    {
        self.front_face = dot(&r.direction(), outward_normal).less(&Scalar::zero());
        self.normal = if self.front_face {
            *outward_normal
        } else {
            outward_normal.neg()
        };
    }
}

/// The dot product with the opposite of a vector is the opposite of the dot product.
pub proof fn lemma_dot_mirrors(d: Vec3, n: Vec3)
    ensures
        d.dot_product(n.negated()).mirrors(d.dot_product(n)),
{
    let m = n.negated();
    lemma_opposite_mirrors(n.x);
    lemma_opposite_mirrors(n.y);
    lemma_opposite_mirrors(n.z);
    lemma_product_mirrors(d.x, n.x, m.x);
    lemma_product_mirrors(d.y, n.y, m.y);
    lemma_product_mirrors(d.z, n.z, m.z);
    lemma_sum_mirrors(d.x.product(n.x), d.x.product(m.x), d.y.product(n.y), d.y.product(m.y));
    lemma_sum_mirrors(
        d.x.product(n.x).sum(d.y.product(n.y)),
        d.x.product(m.x).sum(d.y.product(m.y)),
        d.z.product(n.z),
        d.z.product(m.z),
    );
}

/// The normal of a hit never points along the ray: its dot product with the direction
/// of the ray is not positive.
pub proof fn lemma_normal_opposes_ray(direction: Vec3, outward_normal: Vec3)
    ensures
        !Scalar::of_bits(0).lt(
            direction.dot_product(HitRecord::against(direction, outward_normal)),
        ),
{
    lemma_dot_mirrors(direction, outward_normal);
}

/// A surface that a ray can hit.
pub trait Hittable {
    /// The nearest intersection of `r` with the surface whose parameter `ray_t`
    /// encloses, if there is one.
    spec fn nearest(&self, r: Ray, ray_t: Interval) -> Option<HitRecord>;

    fn hit(&self, r: &Ray, ray_t: Interval) -> (res: Option<HitRecord>)
        ensures
            res == self.nearest(*r, ray_t),
    ;

    /// The parameter of a hit lies strictly inside the interval asked for.
    proof fn lemma_hit_enclosed(&self, r: Ray, ray_t: Interval)
        ensures
            self.nearest(r, ray_t) is Some ==> ray_t.encloses(self.nearest(r, ray_t)->0.t),
    ;

    /// Lowering the upper bound of the interval keeps the hit if it is still enclosed,
    /// and else leaves none.
    proof fn lemma_hit_narrowed(&self, r: Ray, ray_t: Interval, upper: Scalar)
        requires
            upper.le(ray_t.max),
        ensures
            self.nearest(r, Interval { min: ray_t.min, max: upper }) == (if self.nearest(r, ray_t)
                is Some && self.nearest(r, ray_t)->0.t.lt(upper) {
                self.nearest(r, ray_t)
            } else {
                None
            }),
    ;
}

} // verus!
