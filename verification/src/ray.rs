//! Rays: half-lines given by an origin and a direction.
use vstd::prelude::*;
use crate::scalar::Scalar;
use crate::vector::{Point3, Vec3};

verus! {

/// A ray: the points `origin + t * direction`.
#[derive(Clone, Copy, Debug)]
pub struct Ray {
    pub origin: Point3,
    pub direction: Vec3,
}

impl Ray {
    /// The point `origin + t * direction`.
    pub open spec fn point_at(self, t: Scalar) -> Point3 {
        self.origin.plus(self.direction.scaled(t))
    }

    /// The ray from `origin` in the direction `direction`.
    pub fn new(origin: Point3, direction: Vec3) -> (r: Ray)
        ensures
            r.origin == origin,
            r.direction == direction,
    {
        Ray { origin, direction }
    }

    /// The direction of the ray.
    pub fn direction(&self) -> (d: Vec3)
        ensures
            d == self.direction,
    {
        self.direction
    }

    /// The origin of the ray.
    pub fn origin(&self) -> (o: Point3)
        ensures
            o == self.origin,
    {
        self.origin
    }

    /// The point of the ray at parameter `t`.
    pub fn at(&self, t: Scalar) -> (p: Point3)
        ensures
            p == self.point_at(t),
    {
        self.origin.add(&self.direction.mul(t))
    }
}

} // verus!
