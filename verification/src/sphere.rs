//! Spheres and their intersection with rays.
use vstd::prelude::*;
use crate::scalar::Scalar;
use crate::hittable::{HitRecord, Hittable};
use crate::material::{ConfigError, Material};
use crate::vector::{dot, Point3};
use crate::ray::Ray;
use crate::interval::Interval;
use crate::order::{
    lemma_root_sign, lemma_spread_quotients, lemma_squares_sign, lemma_quotient_of_nan,
};
use crate::exact::{
    lemma_root_of_zero, lemma_sum_zero, lemma_difference_zero, lemma_quotient_agrees,
};

verus! {

/// A sphere of one material.
#[derive(Clone, Copy, Debug)]
pub struct Sphere {
    pub center: Point3,
    pub radius: Scalar,
    pub mat: Material,
}

impl Sphere {
    /// The discriminant `h^2 - a * c` of the quadratic equation for the parameters at
    /// which `r` meets the sphere, with `oc = center - origin`, `a = |direction|^2`,
    /// `h = dot(direction, oc)` and `c = |oc|^2 - radius^2`.
    pub open spec fn discriminant(self, r: Ray) -> Scalar {
        let oc = self.center.minus(r.origin);
        let a = r.direction.norm_squared();
        let h = r.direction.dot_product(oc);
        let c = oc.norm_squared().difference(self.radius.product(self.radius));
        h.product(h).difference(a.product(c))
    }

    /// The two parameters `(h - sqrt(d)) / a` and `(h + sqrt(d)) / a` at which `r`
    /// meets the sphere, unless the discriminant `d` is negative.
    pub open spec fn roots(self, r: Ray) -> Option<(Scalar, Scalar)> {
        let oc = self.center.minus(r.origin);
        let a = r.direction.norm_squared();
        let h = r.direction.dot_product(oc);
        let d = self.discriminant(r);
        if d.lt(Scalar::of_bits(0)) {
            None
        } else {
            Some((h.difference(d.root()).quotient(a), h.sum(d.root()).quotient(a)))
        }
    }

    /// The tie-break between the two roots: the nearer one if the interval encloses
    /// it, else the farther one if the interval encloses that.
    pub open spec fn chosen_root(near: Scalar, far: Scalar, ray_t: Interval) -> Option<Scalar> {
        if ray_t.encloses(near) {
            Some(near)
        } else if ray_t.encloses(far) {
            Some(far)
        } else {
            None
        }
    }

    /// The record of the hit at parameter `t`: the outward normal is
    /// `(point - center) / radius`.
    pub open spec fn record_at(self, r: Ray, t: Scalar) -> HitRecord {
        let p = r.point_at(t);
        let outward_normal = p.minus(self.center).divided(self.radius);
        HitRecord {
            p,
            normal: HitRecord::against(r.direction, outward_normal),
            mat: Some(self.mat),
            t,
            front_face: HitRecord::faces(r.direction, outward_normal),
        }
    }

    /// A sphere, if the radius is a positive number.
    pub fn new(center: Point3, radius: Scalar, mat: Material) -> (res: Result<Sphere, ConfigError>)
        ensures
            res is Ok <==> Scalar::of_bits(0).lt(radius),
            res is Ok ==> res->Ok_0.center == center && res->Ok_0.radius == radius && res->Ok_0.mat
                == mat,
            res is Err ==> res->Err_0 == ConfigError::Radius,
    {
        if radius.greater(&Scalar::zero()) {
            Ok(Sphere { center, radius, mat })
        } else {
            Err(ConfigError::Radius)
        }
    }

    /// The two parameters at which `r` meets the sphere, the nearer one first.
    pub fn intersections(&self, r: &Ray) -> (res: Option<(Scalar, Scalar)>)
        ensures
            res == self.roots(*r),
    {
        let oc = self.center.sub(&r.origin());
        let a = r.direction().length_squared();
        let h = dot(&r.direction(), &oc);
        let c = oc.length_squared().sub(&self.radius.mul(&self.radius));
        let discriminant = h.mul(&h).sub(&a.mul(&c));
        if discriminant.less(&Scalar::zero()) {
            return None;
        }
        let sqrtd = discriminant.sqrt();
        Some((h.sub(&sqrtd).div(&a), h.add(&sqrtd).div(&a)))
    }

    /// The root at which the ray counts as hitting the sphere, if any.
    pub fn choose_root(near: Scalar, far: Scalar, ray_t: &Interval) -> (res: Option<Scalar>)
        ensures
            res == Sphere::chosen_root(near, far, *ray_t),
    {
        if ray_t.surrounds(near) {
            Some(near)
        } else if ray_t.surrounds(far) {
            Some(far)
        } else {
            None
        }
    }

    /// Where the discriminant is zero the ray touches the sphere: the two roots stand
    /// for one value.
    pub proof fn lemma_tangent_roots(self, r: Ray)
        requires
            self.discriminant(r).is_zero(),
        ensures
            self.roots(r) is Some,
            (self.roots(r)->0).0.agrees((self.roots(r)->0).1),
    {
        let oc = self.center.minus(r.origin);
        let a = r.direction.norm_squared();
        let h = r.direction.dot_product(oc);
        let d = self.discriminant(r);
        lemma_root_of_zero(d);
        lemma_sum_zero(h, d);
        lemma_difference_zero(h, d);
        if h.is_nan() {
            lemma_quotient_of_nan(h.difference(d), a);
            lemma_quotient_of_nan(h.sum(d), a);
        } else {
            assert(h.difference(d).agrees(h.sum(d)));
            lemma_quotient_agrees(h.difference(d), h.sum(d), a);
        }
    }

    /// Where the discriminant is negative the ray misses the sphere, whatever the
    /// interval.
    pub proof fn lemma_negative_discriminant_misses(self, r: Ray, ray_t: Interval)
        requires
            self.discriminant(r).lt(Scalar::of_bits(0)),
        ensures
            self.roots(r) is None,
            self.nearest(r, ray_t) is None,
    {
    }

    /// The farther root is never the smaller one.
    pub proof fn lemma_roots_ordered(self, r: Ray)
        ensures
            self.roots(r) is Some ==> !(self.roots(r)->0).1.lt((self.roots(r)->0).0),
    {
        if self.roots(r) is Some {
            let oc = self.center.minus(r.origin);
            let h = r.direction.dot_product(oc);
            let v = r.direction;
            lemma_squares_sign(v.x, v.y, v.z);
            lemma_root_sign(self.discriminant(r));
            lemma_spread_quotients(h, self.discriminant(r).root(), v.norm_squared());
        }
    }
}

impl Hittable for Sphere {
    open spec fn nearest(&self, r: Ray, ray_t: Interval) -> Option<HitRecord> {
        match self.roots(r) {
            None => None,
            Some((near, far)) => match Sphere::chosen_root(near, far, ray_t) {
                None => None,
                Some(t) => Some(self.record_at(r, t)),
            },
        }
    }

#[verifier::rlimit(40)]
    fn hit(&self, r: &Ray, ray_t: Interval) -> (res: Option<HitRecord>) {
        let (near, far) = match self.intersections(r) {
            None => {
                return None;
            },
            Some(pair) => pair,
        };
        match Sphere::choose_root(near, far, &ray_t) {
            None => None,
            Some(root) => {
                let mut rec = HitRecord::new();
                rec.t = root;
                rec.p = r.at(rec.t);
                let outward_normal = rec.p.sub(&self.center).div(self.radius);
                rec.set_face_normal(r, &outward_normal);
                rec.mat = Some(self.mat);
                Some(rec)
            },
        }
    }

    proof fn lemma_hit_enclosed(&self, r: Ray, ray_t: Interval) {
    }

#[verifier::rlimit(40)]
    proof fn lemma_hit_narrowed(&self, r: Ray, ray_t: Interval, upper: Scalar) {
        self.lemma_roots_ordered(r);
    }
}

} // verus!
