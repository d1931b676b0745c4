//! Binary64 numbers held by their encoding.
//!
//! A [`Scalar`] is the 64-bit IEEE 754 encoding of a number: one sign bit, eleven bits of
//! biased exponent and fifty-two bits of fraction. Everything the library decides about
//! a number (its sign, its class, its place in the order of all numbers, its exact value)
//! is read from that encoding with integer arithmetic.
use vstd::prelude::*;

verus! {

/// Weight of the sign bit.
pub const SIGN_BIT: u64 = 0x8000_0000_0000_0000;

/// Encoding of positive infinity; every larger magnitude encodes a NaN.
pub const INFINITY_BITS: u64 = 0x7ff0_0000_0000_0000;

/// Weight of the lowest exponent bit, which is also the implicit leading mantissa bit.
pub const HIDDEN_BIT: u64 = 0x0010_0000_0000_0000;

/// Encoding of the NaN that arithmetic returns.
pub const NAN_BITS: u64 = 0x7ff8_0000_0000_0000;

/// Encoding of 1.
pub const ONE_BITS: u64 = 0x3ff0_0000_0000_0000;

/// Encoding of 2.
pub const TWO_BITS: u64 = 0x4000_0000_0000_0000;

/// Encoding of 1/2.
pub const HALF_BITS: u64 = 0x3fe0_0000_0000_0000;

/// A binary64 number, an infinity or a NaN, held by its encoding.
#[derive(Clone, Copy, Debug)]
pub struct Scalar {
    pub bits: u64,
}

impl Scalar {
    /// The number with the given encoding.
    pub open spec fn of_bits(bits: u64) -> Scalar {
        Scalar { bits }
    }

    /// The encoding without its sign bit.
    pub open spec fn magnitude(self) -> nat {
        (self.bits % SIGN_BIT) as nat
    }

    /// Whether the sign bit is set; true of the negative zero too.
    pub open spec fn is_negative(self) -> bool {
        self.bits >= SIGN_BIT
    }

    /// Whether the encoding is that of no number.
    pub open spec fn is_nan(self) -> bool {
        self.magnitude() > INFINITY_BITS
    }

    /// Whether the number is an infinity.
    pub open spec fn is_infinite(self) -> bool {
        self.magnitude() == INFINITY_BITS
    }

    /// Whether the number is neither an infinity nor a NaN.
    pub open spec fn is_finite(self) -> bool {
        self.magnitude() < INFINITY_BITS
    }

    /// Whether the number is one of the two zeros.
    pub open spec fn is_zero(self) -> bool {
        self.magnitude() == 0
    }

    /// The exponent field.
    pub open spec fn biased_exponent(self) -> nat {
        self.magnitude() / (HIDDEN_BIT as nat)
    }

    /// The integer `m` of a finite number `m * 2^exponent`.
    pub open spec fn mantissa(self) -> nat {
        if self.biased_exponent() == 0 {
            self.magnitude()
        } else {
            (HIDDEN_BIT + self.magnitude() % (HIDDEN_BIT as nat)) as nat
        }
    }

    /// The integer `e` of a finite number `mantissa * 2^e`.
    pub open spec fn exponent(self) -> int {
        if self.biased_exponent() == 0 {
            -1074
        } else {
            self.biased_exponent() - 1075
        }
    }

    /// The place of a number in the order of all numbers: larger numbers have larger
    /// keys, and the two zeros share key 0. Meaningless for a NaN.
    pub open spec fn key(self) -> int {
        if self.is_negative() {
            -(self.magnitude() as int)
        } else {
            self.magnitude() as int
        }
    }

    /// `self < other` as IEEE 754 defines it: false when either is a NaN.
    pub open spec fn lt(self, other: Scalar) -> bool {
        !self.is_nan() && !other.is_nan() && self.key() < other.key()
    }

    /// `self <= other` as IEEE 754 defines it: false when either is a NaN.
    pub open spec fn le(self, other: Scalar) -> bool {
        !self.is_nan() && !other.is_nan() && self.key() <= other.key()
    }

    /// `self == other` as IEEE 754 defines it: the zeros are equal, a NaN equals nothing.
    pub open spec fn same(self, other: Scalar) -> bool {
        !self.is_nan() && !other.is_nan() && self.key() == other.key()
    }

    /// Whether two results stand for the same value: both are NaNs, or they are equal
    /// numbers.
    pub open spec fn agrees(self, other: Scalar) -> bool {
        (self.is_nan() && other.is_nan()) || self.same(other)
    }

    /// Whether two results stand for opposite values: both are NaNs, or one is the other
    /// with the opposite sign.
    pub open spec fn mirrors(self, other: Scalar) -> bool {
        (self.is_nan() && other.is_nan()) || (!self.is_nan() && !other.is_nan() && self.key()
            == -other.key())
    }

    /// The number with the given encoding.
    pub fn from_bits(bits: u64) -> (s: Scalar)
        ensures
            s == Scalar::of_bits(bits),
    {
        Scalar { bits }
    }

    /// The encoding of the number.
    pub fn to_bits(&self) -> (bits: u64)
        ensures
            bits == self.bits,
    {
        self.bits
    }

    /// The number 0.
    pub fn zero() -> (s: Scalar)
        ensures
            s.bits == 0,
    {
        Scalar { bits: 0 }
    }

    /// The number 1.
    pub fn one() -> (s: Scalar)
        ensures
            s.bits == ONE_BITS,
    {
        Scalar { bits: ONE_BITS }
    }

    /// The number 2.
    pub fn two() -> (s: Scalar)
        ensures
            s.bits == TWO_BITS,
    {
        Scalar { bits: TWO_BITS }
    }

    /// The number 1/2.
    pub fn half() -> (s: Scalar)
        ensures
            s.bits == HALF_BITS,
    {
        Scalar { bits: HALF_BITS }
    }

    /// Positive infinity.
    pub fn infinity() -> (s: Scalar)
        ensures
            s.bits == INFINITY_BITS,
    {
        Scalar { bits: INFINITY_BITS }
    }

    /// Negative infinity.
    pub fn neg_infinity() -> (s: Scalar)
        ensures
            s.bits == INFINITY_BITS + SIGN_BIT,
    {
        Scalar { bits: INFINITY_BITS + SIGN_BIT }
    }

    /// The NaN that arithmetic returns.
    pub fn nan() -> (s: Scalar)
        ensures
            s.bits == NAN_BITS,
    {
        Scalar { bits: NAN_BITS }
    }

    /// The encoding without its sign bit.
    pub fn magnitude_bits(&self) -> (m: u64)
        ensures
            m == self.magnitude(),
    {
        self.bits % SIGN_BIT
    }

    /// Whether the sign bit is set.
    pub fn sign(&self) -> (negative: bool)
        ensures
            negative == self.is_negative(),
    {
        self.bits >= SIGN_BIT
    }

    /// Whether the encoding is that of no number.
    pub fn nan_test(&self) -> (r: bool)
        ensures
            r == self.is_nan(),
    {
        self.magnitude_bits() > INFINITY_BITS
    }

    /// Whether the number is neither an infinity nor a NaN.
    pub fn finite_test(&self) -> (r: bool)
        ensures
            r == self.is_finite(),
    {
        self.magnitude_bits() < INFINITY_BITS
    }

    /// The key as a machine integer.
    pub fn order_key(&self) -> (k: i64)
        ensures
            k == self.key(),
    {
        let m: i64 = self.magnitude_bits() as i64;
        if self.bits >= SIGN_BIT {
            -m
        } else {
            m
        }
    }

    /// Whether `self < other`.
    pub fn less(&self, other: &Scalar) -> (r: bool)
        ensures
            r == self.lt(*other),
    {
        !self.nan_test() && !other.nan_test() && self.order_key() < other.order_key()
    }

    /// Whether `self <= other`.
    pub fn less_eq(&self, other: &Scalar) -> (r: bool)
        ensures
            r == self.le(*other),
    {
        !self.nan_test() && !other.nan_test() && self.order_key() <= other.order_key()
    }

    /// Whether `self > other`.
    pub fn greater(&self, other: &Scalar) -> (r: bool)
        ensures
            r == other.lt(*self),
    {
        other.less(self)
    }

    /// Whether `self >= other`.
    pub fn greater_eq(&self, other: &Scalar) -> (r: bool)
        ensures
            r == other.le(*self),
    {
        other.less_eq(self)
    }

    /// Whether `self == other`.
    pub fn equals(&self, other: &Scalar) -> (r: bool)
        ensures
            r == self.same(*other),
    {
        !self.nan_test() && !other.nan_test() && self.order_key() == other.order_key()
    }

    /// The number with the opposite sign (of a NaN, the NaN with the opposite sign bit).
    pub fn neg(&self) -> (r: Scalar)
        ensures
            r.magnitude() == self.magnitude(),
            r.is_negative() == !self.is_negative(),
            r.bits == (if self.is_negative() {
                self.bits - SIGN_BIT
            } else {
                self.bits + SIGN_BIT
            }),
            !self.is_nan() ==> r.key() == -self.key(),
    {
        if self.bits >= SIGN_BIT {
            Scalar { bits: self.bits - SIGN_BIT }
        } else {
            Scalar { bits: self.bits + SIGN_BIT }
        }
    }

    /// The smaller of two numbers; the other one where one is a NaN.
    pub open spec fn lesser(self, other: Scalar) -> Scalar {
        if self.is_nan() {
            other
        } else if other.is_nan() {
            self
        } else if other.lt(self) {
            other
        } else {
            self
        }
    }

    /// The smaller of two numbers.
    pub fn min(&self, other: &Scalar) -> (r: Scalar)
        ensures
            r == self.lesser(*other),
    {
        if self.nan_test() {
            *other
        } else if other.nan_test() {
            *self
        } else if other.less(self) {
            *other
        } else {
            *self
        }
    }

    /// The number without its sign.
    pub open spec fn absolute(self) -> Scalar {
        Scalar::of_bits(self.magnitude() as u64)
    }

    /// The number without its sign.
    pub fn abs(&self) -> (r: Scalar)
        ensures
            r == self.absolute(),
    {
        Scalar { bits: self.magnitude_bits() }
    }
}

} // verus!
