//! Ranges of numbers with closed and open membership tests.
use vstd::prelude::*;
use crate::scalar::{Scalar, INFINITY_BITS, SIGN_BIT};

verus! {

/// The numbers from `min` to `max`.
#[derive(Clone, Copy, Debug)]
pub struct Interval {
    pub min: Scalar,
    pub max: Scalar,
}

impl Interval {
    /// Closed membership: `min <= x <= max`.
    pub open spec fn holds(self, x: Scalar) -> bool {
        self.min.le(x) && x.le(self.max)
    }

    /// Open membership: `min < x < max`.
    pub open spec fn encloses(self, x: Scalar) -> bool {
        self.min.lt(x) && x.lt(self.max)
    }

    /// `x` moved to the nearer bound if it lies outside.
    pub open spec fn clamped(self, x: Scalar) -> Scalar {
        if x.lt(self.min) {
            self.min
        } else if self.max.lt(x) {
            self.max
        } else {
            x
        }
    }

    /// The interval from `min` to `max`.
    pub fn new(min: Scalar, max: Scalar) -> (r: Interval)
        ensures
            r.min == min,
            r.max == max,
    {
        Interval { min, max }
    }

    /// The interval that holds no number: from positive to negative infinity.
    pub fn empty() -> (r: Interval)
        ensures
            r.min.bits == INFINITY_BITS,
            r.max.bits == INFINITY_BITS + SIGN_BIT,
            forall|x: Scalar| !r.holds(x),
    {
        Interval { min: Scalar::infinity(), max: Scalar::neg_infinity() }
    }

    /// The interval that holds every number: from negative to positive infinity.
    pub fn universe() -> (r: Interval)
        ensures
            r.min.bits == INFINITY_BITS + SIGN_BIT,
            r.max.bits == INFINITY_BITS,
            forall|x: Scalar| !x.is_nan() ==> r.holds(x),
    {
        Interval { min: Scalar::neg_infinity(), max: Scalar::infinity() }
    }

    /// The length `max - min` of the interval.
    pub fn size(&self) -> (r: Scalar)
        ensures
            r == self.max.difference(self.min),
    {
        self.max.sub(&self.min)
    }

    /// Whether `min <= x <= max`.
    pub fn contains(&self, x: Scalar) -> (r: bool)
        ensures
            r == self.holds(x),
    {
        self.min.less_eq(&x) && x.less_eq(&self.max)
    }

    /// Whether `min < x < max`.
    pub fn surrounds(&self, x: Scalar) -> (r: bool)
        ensures
            r == self.encloses(x),
    {
        self.min.less(&x) && x.less(&self.max)
    }

    /// `x` moved to the nearer bound if it lies outside.
    pub fn clamp(&self, x: Scalar) -> (r: Scalar)
        ensures
            r == self.clamped(x),
    {
        if x.less(&self.min) {
            self.min
        } else if x.greater(&self.max) {
            self.max
        } else {
            x
        }
    }
}

/// The bounds of an interval are held by it, if it holds anything, and are never
/// enclosed by it.
pub proof fn lemma_interval_bounds(i: Interval)
    ensures
        !i.encloses(i.min),
        !i.encloses(i.max),
        i.min.le(i.max) ==> i.holds(i.min) && i.holds(i.max),
{
}

} // verus!
