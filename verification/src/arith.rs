//! Correctly rounded arithmetic on [`Scalar`]s.
//!
//! Each operation is specified by the exact result of the operation on the operands'
//! values, rounded once to the nearest binary64 number, ties to the even mantissa, as
//! IEEE 754 asks of addition, subtraction, multiplication, division and square root.
use vstd::prelude::*;
use vstd::arithmetic::power2::{
    pow2, lemma_pow2_pos, lemma_pow2_adds, lemma_pow2_strictly_increases,
};
use crate::scalar::{Scalar, SIGN_BIT, INFINITY_BITS, HIDDEN_BIT, NAN_BITS};
use crate::rounding::{
    round_magnitude, round_pack, bit_len, pow2_u128, lemma_pow2_values, lemma_round_with_tail,
    lemma_round_quotient, lemma_round_exponent_up, lemma_round_zero, lemma_bit_length_bounds,
};

verus! {

impl Scalar {
    /// The number with the given sign and magnitude encoding.
    pub open spec fn pack(negative: bool, magnitude: nat) -> Scalar {
        Scalar {
            bits: (magnitude + (if negative {
                SIGN_BIT
            } else {
                0
            })) as u64,
        }
    }

    /// The mantissa with the number's sign.
    pub open spec fn signed_mantissa(self) -> int {
        if self.is_negative() {
            -(self.mantissa() as int)
        } else {
            self.mantissa() as int
        }
    }

    /// The number with the given sign and magnitude encoding.
    pub fn packed(negative: bool, magnitude: u64) -> (r: Scalar)
        requires
            magnitude < SIGN_BIT,
        ensures
            r == Scalar::pack(negative, magnitude as nat),
            r.magnitude() == magnitude,
            r.is_negative() == negative,
    {
        if negative {
            Scalar { bits: magnitude + SIGN_BIT }
        } else {
            Scalar { bits: magnitude }
        }
    }

    /// Mantissa and exponent of a finite number.
    pub fn parts(&self) -> (r: (u64, i32))
        requires
            self.is_finite(),
        ensures
            r.0 == self.mantissa(),
            r.1 == self.exponent(),
            r.0 < 0x20_0000_0000_0000,
            -1074 <= r.1 <= 971,
            r.1 > -1074 ==> r.0 >= HIDDEN_BIT,
            (r.0 == 0) == self.is_zero(),
    {
        let mag = self.magnitude_bits();
        let biased = mag / HIDDEN_BIT;
        let fraction = mag % HIDDEN_BIT;
        if biased == 0 {
            (fraction, -1074)
        } else {
            (HIDDEN_BIT + fraction, (biased as i32) - 1075)
        }
    }

    /// The product of two numbers, rounded to nearest.
    #[verifier::opaque]
    pub open spec fn product(self, rhs: Scalar) -> Scalar {
        if self.is_nan() || rhs.is_nan() {
            Scalar { bits: NAN_BITS }
        } else if self.is_infinite() || rhs.is_infinite() {
            if self.is_zero() || rhs.is_zero() {
                Scalar { bits: NAN_BITS }
            } else {
                Scalar::pack(self.is_negative() != rhs.is_negative(), INFINITY_BITS as nat)
            }
        } else {
            Scalar::pack(
                self.is_negative() != rhs.is_negative(),
                round_magnitude(
                    self.mantissa() * rhs.mantissa(),
                    1,
                    self.exponent() + rhs.exponent(),
                ),
            )
        }
    }

    /// The product `self * rhs`.
    pub fn mul(&self, rhs: &Scalar) -> (r: Scalar)
        ensures
            r == self.product(*rhs),
    {
        reveal(Scalar::product);
        if self.nan_test() || rhs.nan_test() {
            return Scalar::nan();
        }
        let negative = self.sign() != rhs.sign();
        let a = self.magnitude_bits();
        let b = rhs.magnitude_bits();
        if a == INFINITY_BITS || b == INFINITY_BITS {
            if a == 0 || b == 0 {
                return Scalar::nan();
            }
            return Scalar::packed(negative, INFINITY_BITS);
        }
        let (ma, ea) = self.parts();
        let (mb, eb) = rhs.parts();
        assert(ma * mb < 0x8000_0000_0000_0000_0000_0000_0000_0000) by (nonlinear_arith)
            requires
                ma < 0x20_0000_0000_0000,
                mb < 0x20_0000_0000_0000,
        ;
        let p: u128 = (ma as u128) * (mb as u128);
        Scalar::packed(negative, round_pack(p, ea + eb))
    }

    /// The sum of two numbers, rounded to nearest. An exact zero is negative only when
    /// both numbers are.
    #[verifier::opaque]
    pub open spec fn sum(self, rhs: Scalar) -> Scalar {
        if self.is_nan() || rhs.is_nan() {
            Scalar { bits: NAN_BITS }
        } else if self.is_infinite() {
            if rhs.is_infinite() && self.is_negative() != rhs.is_negative() {
                Scalar { bits: NAN_BITS }
            } else {
                self
            }
        } else if rhs.is_infinite() {
            rhs
        } else {
            Scalar::signed_round(
                self.aligned_total(rhs),
                self.common_exponent(rhs),
                self.is_negative() && rhs.is_negative(),
            )
        }
    }

    /// The smaller of the exponents of two finite numbers.
    pub open spec fn common_exponent(self, rhs: Scalar) -> int {
        if self.exponent() <= rhs.exponent() {
            self.exponent()
        } else {
            rhs.exponent()
        }
    }

    /// The exact sum of two finite numbers as a multiple of 2 to their common exponent.
    pub open spec fn aligned_total(self, rhs: Scalar) -> int {
        self.signed_mantissa() * pow2((self.exponent() - self.common_exponent(rhs)) as nat)
            + rhs.signed_mantissa() * pow2((rhs.exponent() - self.common_exponent(rhs)) as nat)
    }

    /// The number nearest to `total * 2^e`; an exact zero gets the sign given.
    pub open spec fn signed_round(total: int, e: int, zero_negative: bool) -> Scalar {
        if total == 0 {
            Scalar::pack(zero_negative, 0)
        } else if total < 0 {
            Scalar::pack(true, round_magnitude((-total) as nat, 1, e))
        } else {
            Scalar::pack(false, round_magnitude(total as nat, 1, e))
        }
    }

    /// The difference of two numbers, rounded to nearest.
    pub open spec fn difference(self, rhs: Scalar) -> Scalar {
        self.sum(rhs.opposite())
    }

    /// The number with the other sign.
    pub open spec fn opposite(self) -> Scalar {
        Scalar::pack(!self.is_negative(), self.magnitude())
    }

    /// Sum of two finite numbers of which the first has the larger exponent.
#[verifier::rlimit(40)]
    fn add_ordered(&self, rhs: &Scalar) -> (r: Scalar)
        requires
            self.is_finite(),
            rhs.is_finite(),
            self.exponent() >= rhs.exponent(),
        ensures
            r == self.sum(*rhs),
    {
        reveal(Scalar::sum);
        let (ma, ea) = self.parts();
        let (mb, eb) = rhs.parts();
        let na = self.sign();
        let nb = rhs.sign();
        let d: i32 = ea - eb;
        let ghost total = self.signed_mantissa() * pow2(d as nat) + rhs.signed_mantissa();
        proof {
            lemma_pow2_values();
            lemma_pow2_pos(d as nat);
            assert(rhs.signed_mantissa() * pow2(0) == rhs.signed_mantissa()) by (nonlinear_arith)
                requires
                    pow2(0) == 1,
            ;
            assert((-(ma as int)) * pow2(d as nat) == -(ma * pow2(d as nat))) by (nonlinear_arith);
            assert(self.sum(*rhs) == Scalar::signed_round(total, eb as int, na && nb));
        }
        if d <= 64 {
            let w = pow2_u128(d as u32);
            proof {
                if d < 64 {
                    lemma_pow2_strictly_increases(d as nat, 64);
                }
                assert(ma * w < 0x20_0000_0000_0000 * 0x1_0000_0000_0000_0000) by (nonlinear_arith)
                    requires
                        ma < 0x20_0000_0000_0000,
                        0 < w <= 0x1_0000_0000_0000_0000,
                ;
            }
            let x: u128 = (ma as u128) * w;
            let y: u128 = mb as u128;
            if na == nb {
                if x + y == 0 {
                    assert(total == 0);
                    Scalar::packed(na, 0)
                } else {
                    assert(total == (if na { -(x + y) } else { x + y }));
                    Scalar::packed(na, round_pack(x + y, eb))
                }
            } else if x > y {
                assert(total == (if na { -(x - y) } else { x - y }));
                Scalar::packed(na, round_pack(x - y, eb))
            } else if x < y {
                assert(total == (if nb { -(y - x) } else { y - x }));
                Scalar::packed(nb, round_pack(y - x, eb))
            } else {
                assert(total == 0);
                Scalar::packed(false, 0)
            }
        } else if mb == 0 {
            proof {
                lemma_round_exponent_up(ma as nat, 1, eb as int, d as nat);
                assert(total == (if na { -(ma * pow2(d as nat)) } else { ma * pow2(d as nat) }));
                assert(ma * pow2(d as nat) > 0) by (nonlinear_arith)
                    requires
                        ma > 0,
                        pow2(d as nat) > 0,
                ;
            }
            Scalar::packed(na, round_pack(ma as u128, ea))
        } else {
            let head: u128 = if na == nb {
                8 * (ma as u128)
            } else {
                8 * (ma as u128) - 1
            };
            proof {
                let j = (d - 3) as nat;
                let tail: nat = if na == nb {
                    mb as nat
                } else {
                    (pow2(j) - mb) as nat
                };
                lemma_pow2_adds(3, j);
                vstd::arithmetic::power2::lemma2_to64();
                lemma_pow2_strictly_increases(53, j);
                assert(ma * pow2(d as nat) == (8 * ma) * pow2(j)) by (nonlinear_arith)
                    requires
                        pow2(d as nat) == 8 * pow2(j),
                ;
                assert((8 * ma - 1) * pow2(j) == (8 * ma) * pow2(j) - pow2(j)) by (nonlinear_arith);
                lemma_round_with_tail(head as nat, tail, j, eb as int);
                let n = head * pow2(j) + tail;
                assert(total == (if na { -n } else { n }));
                assert(n > 0);
            }
            Scalar::packed(na, round_pack(2 * head + 1, ea - 4))
        }
    }

    /// The sum `self + rhs`.
#[verifier::rlimit(40)]
    pub fn add(&self, rhs: &Scalar) -> (r: Scalar)
        ensures
            r == self.sum(*rhs),
    {
        reveal(Scalar::sum);
        if self.nan_test() || rhs.nan_test() {
            return Scalar::nan();
        }
        let a = self.magnitude_bits();
        let b = rhs.magnitude_bits();
        if a == INFINITY_BITS {
            if b == INFINITY_BITS && self.sign() != rhs.sign() {
                return Scalar::nan();
            }
            return *self;
        }
        if b == INFINITY_BITS {
            return *rhs;
        }
        if a / HIDDEN_BIT >= b / HIDDEN_BIT {
            self.add_ordered(rhs)
        } else {
            rhs.add_ordered(self)
        }
    }

    /// The difference `self - rhs`.
    pub fn sub(&self, rhs: &Scalar) -> (r: Scalar)
        ensures
            r == self.difference(*rhs),
    {
        let minus = rhs.neg();
        self.add(&minus)
    }

    /// The quotient of two numbers, rounded to nearest.
    #[verifier::opaque]
    pub open spec fn quotient(self, rhs: Scalar) -> Scalar {
        let negative = self.is_negative() != rhs.is_negative();
        if self.is_nan() || rhs.is_nan() {
            Scalar { bits: NAN_BITS }
        } else if self.is_infinite() {
            if rhs.is_infinite() {
                Scalar { bits: NAN_BITS }
            } else {
                Scalar::pack(negative, INFINITY_BITS as nat)
            }
        } else if rhs.is_infinite() {
            Scalar::pack(negative, 0)
        } else if rhs.is_zero() {
            if self.is_zero() {
                Scalar { bits: NAN_BITS }
            } else {
                Scalar::pack(negative, INFINITY_BITS as nat)
            }
        } else {
            Scalar::pack(
                negative,
                round_magnitude(self.mantissa(), rhs.mantissa(), self.exponent() - rhs.exponent()),
            )
        }
    }

    /// A nonzero mantissa moved up until it has 53 digits, and by how many digits.
    pub fn normalized(m: u64) -> (r: (u64, u32))
        requires
            0 < m < 0x20_0000_0000_0000,
        ensures
            r.1 <= 52,
            r.0 == m * pow2(r.1 as nat),
            HIDDEN_BIT <= r.0 < 0x20_0000_0000_0000,
    {
        let len = bit_len(m as u128);
        proof {
            lemma_pow2_values();
            lemma_bit_length_bounds(m as nat);
            if len > 53 {
                if len > 54 {
                    lemma_pow2_strictly_increases(53, (len - 1) as nat);
                }
            }
            assert(1 <= len <= 53);
            lemma_pow2_adds((len - 1) as nat, (53 - len) as nat);
            lemma_pow2_adds(len as nat, (53 - len) as nat);
            lemma_pow2_pos((53 - len) as nat);
            let w = pow2((53 - len) as nat);
            let lo = pow2((len - 1) as nat);
            let hi = pow2(len as nat);
            assert(lo * w <= m * w < hi * w) by (nonlinear_arith)
                requires
                    lo <= m < hi,
                    w > 0,
            ;
        }
        let shift: u32 = 53 - len;
        let w = pow2_u128(shift);
        (((m as u128) * w) as u64, shift)
    }

    /// The quotient `self / rhs`.
#[verifier::rlimit(40)]
    pub fn div(&self, rhs: &Scalar) -> (r: Scalar)
        ensures
            r == self.quotient(*rhs),
    {
        reveal(Scalar::quotient);
        if self.nan_test() || rhs.nan_test() {
            return Scalar::nan();
        }
        let negative = self.sign() != rhs.sign();
        let a = self.magnitude_bits();
        let b = rhs.magnitude_bits();
        if a == INFINITY_BITS {
            if b == INFINITY_BITS {
                return Scalar::nan();
            }
            return Scalar::packed(negative, INFINITY_BITS);
        }
        if b == INFINITY_BITS {
            return Scalar::packed(negative, 0);
        }
        if b == 0 {
            if a == 0 {
                return Scalar::nan();
            }
            return Scalar::packed(negative, INFINITY_BITS);
        }
        let (ma, ea) = self.parts();
        let (mb, eb) = rhs.parts();
        if ma == 0 {
            proof {
                lemma_round_zero(mb as nat, ea - eb);
            }
            return Scalar::packed(negative, 0);
        }
        let (top, shift) = Scalar::normalized(ma);
        proof {
            lemma_pow2_values();
        }
        let n: u128 = (top as u128) * 0x1_0000_0000_0000_0000u128;
        let q: u128 = n / (mb as u128);
        let rem: u128 = n % (mb as u128);
        let sticky: u128 = if rem == 0 {
            0
        } else {
            1
        };
        proof {
            let j = (shift + 64) as nat;
            lemma_pow2_adds(shift as nat, 64);
            assert(n == ma * pow2(j)) by (nonlinear_arith)
                requires
                    n == top * 0x1_0000_0000_0000_0000,
                    top == ma * pow2(shift as nat),
                    pow2(j) == pow2(shift as nat) * 0x1_0000_0000_0000_0000,
            ;
            lemma_round_exponent_up(ma as nat, mb as nat, ea - eb - j, j);
            vstd::arithmetic::div_mod::lemma_fundamental_div_mod(n as int, mb as int);
            assert(q >= 0x20_0000_0000_0000 && q <= n) by (nonlinear_arith)
                requires
                    n == mb * q + rem,
                    0 <= rem < mb,
                    0 < mb < 0x20_0000_0000_0000,
                    n >= 0x10_0000_0000_0000 * 0x1_0000_0000_0000_0000,
                    q >= 0,
            ;
            lemma_round_quotient(n as nat, mb as nat, ea - eb - j);
        }
        Scalar::packed(negative, round_pack(2 * q + sticky, ea - eb - (shift as i32) - 65))
    }
}

} // verus!
