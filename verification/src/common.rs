//! Constants, angles and the random source.
use vstd::prelude::*;
use crate::scalar::{Scalar, INFINITY_BITS, ONE_BITS};

verus! {

/// Encoding of the binary64 number nearest to pi.
pub const PI_BITS: u64 = 0x4009_21fb_5444_2d18;

/// Encoding of 180.
pub const HALF_TURN_BITS: u64 = 0x4066_8000_0000_0000;

/// Positive infinity.
pub fn infinity() -> (r: Scalar)
    ensures
        r.bits == INFINITY_BITS,
{
    Scalar::infinity()
}

/// The binary64 number nearest to pi.
pub fn pi() -> (r: Scalar)
    ensures
        r.bits == PI_BITS,
{
    Scalar::from_bits(PI_BITS)
}

/// An angle in degrees as radians: `degrees * pi / 180`.
pub open spec fn radians(degrees: Scalar) -> Scalar {
    degrees.product(Scalar::of_bits(PI_BITS)).quotient(Scalar::of_bits(HALF_TURN_BITS))
}

/// An angle in degrees as radians.
pub fn degrees_to_radians(degrees: Scalar) -> (r: Scalar)
    ensures
        r == radians(degrees),
{
    degrees.mul(&pi()).div(&Scalar::from_bits(HALF_TURN_BITS))
}

/// Whether `s` is a point of the grid of `2^53` equally spaced numbers in `[0, 1)`
/// from which uniform samples are drawn.
pub open spec fn is_unit_sample(s: Scalar) -> bool {
    exists|w: nat| w < 0x20_0000_0000_0000 && s == #[trigger] Scalar::of_fraction(w)
}

/// A uniformly distributed 64-bit word from `rand`'s thread-local generator
/// (`rand::random`). Nothing is claimed of its value.
#[verifier::external_body]
fn random_word() -> (w: u64)
{
    rand::random::<u64>()
}

/// The unit sample that a random word stands for: its upper 53 bits as a fraction of
/// `2^53`.
pub fn unit_sample(word: u64) -> (r: Scalar)
    ensures
        r == Scalar::of_fraction((word / 2048) as nat),
        is_unit_sample(r),
        !r.is_negative(),
        r.magnitude() < ONE_BITS,
{
    Scalar::from_fraction(word / 2048)
}

/// A uniform random number in `[0, 1)`.
pub fn random_f64() -> (r: Scalar)
    ensures
        is_unit_sample(r),
        !r.is_negative(),
        r.magnitude() < ONE_BITS,
{
    unit_sample(random_word())
}

/// The point of `[min, max)` that the unit sample `t` stands for:
/// `min + (max - min) * t`.
pub open spec fn ranged(min: Scalar, max: Scalar, t: Scalar) -> Scalar {
    min.sum(max.difference(min).product(t))
}

/// The point of `[min, max)` that the unit sample `t` stands for.
pub fn range_sample(min: Scalar, max: Scalar, t: Scalar) -> (r: Scalar)
    ensures
        r == ranged(min, max, t),
{
    min.add(&max.sub(&min).mul(&t))
}

/// A uniform random number in `[min, max)`.
pub fn random_range_f64(min: Scalar, max: Scalar) -> (r: Scalar)
    ensures
        exists|t: Scalar| is_unit_sample(t) && r == #[trigger] ranged(min, max, t),
{
    let t = random_f64();
    range_sample(min, max, t)
}

} // verus!
