//! Exact conversions between [`Scalar`]s and machine integers.
use vstd::prelude::*;
use vstd::arithmetic::power2::{
    pow2, lemma_pow2_pos, lemma_pow2_adds, lemma_pow2_strictly_increases,
};
use vstd::arithmetic::div_mod::{lemma_fundamental_div_mod, lemma_div_pos_is_pos};
use crate::scalar::{Scalar, HIDDEN_BIT, ONE_BITS};
use crate::rounding::{
    round_magnitude, bit_length, round_pack, pow2_u128, lemma_pow2_values, lemma_round_dyadic,
    lemma_round_zero, lemma_bit_length_bounds, lemma_scaled_bound,
};

verus! {

impl Scalar {
    /// The number nearest to the integer `n`: `n` itself when it has at most 53 digits.
    pub open spec fn of_integer(n: int) -> Scalar {
        Scalar::signed_round(n, 0, false)
    }

    /// The integer `n` as a number; every `i32` is represented exactly.
    pub fn from_i32(n: i32) -> (r: Scalar)
        ensures
            r == Scalar::of_integer(n as int),
    {
        if n == 0 {
            Scalar::packed(false, 0)
        } else if n < 0 {
            let mag: u128 = (-(n as i64)) as u128;
            Scalar::packed(true, round_pack(mag, 0))
        } else {
            Scalar::packed(false, round_pack(n as u128, 0))
        }
    }

    /// The number `w / 2^53` for a `w` of at most 53 digits: a point of the grid of
    /// `2^53` equally spaced numbers from 0 up to, not including, 1.
    pub open spec fn of_fraction(w: nat) -> Scalar {
        Scalar::pack(false, round_magnitude(w, 1, -53))
    }

    /// The number `w / 2^53`.
    pub fn from_fraction(w: u64) -> (r: Scalar)
        requires
            w < 0x20_0000_0000_0000,
        ensures
            r == Scalar::of_fraction(w as nat),
            !r.is_negative(),
            r.magnitude() < ONE_BITS,
    {
        proof {
            lemma_fraction_below_one(w as nat);
        }
        Scalar::packed(false, round_pack(w as u128, -53))
    }

    /// The integer part of a finite number's magnitude.
    pub open spec fn whole_part(self) -> nat {
        if self.exponent() >= 0 {
            self.mantissa() * pow2(self.exponent() as nat)
        } else {
            self.mantissa() / pow2((-self.exponent()) as nat)
        }
    }

    /// The number cut off towards zero and held to the range of a byte; 0 for a NaN.
    pub open spec fn truncated_u8(self) -> int {
        if self.is_nan() || self.is_negative() {
            0
        } else if self.is_infinite() || self.whole_part() > 255 {
            255
        } else {
            self.whole_part() as int
        }
    }

    /// The number as a byte, cut off towards zero, as a cast does.
#[verifier::rlimit(40)]
    pub fn to_u8(&self) -> (r: u8)
        ensures
            r == self.truncated_u8(),
    {
        if self.nan_test() || self.sign() {
            return 0;
        }
        if !self.finite_test() {
            return 255;
        }
        let (m, e) = self.parts();
        proof {
            lemma_pow2_values();
            vstd::arithmetic::power2::lemma2_to64();
            vstd::arithmetic::power2::lemma2_to64_rest();
        }
        if e >= -44 {
            proof {
                lemma_whole_part_large(m as nat, e as int, 44);
            }
            255
        } else if e <= -53 {
            proof {
                lemma_whole_part_small(m as nat, (-e) as nat);
            }
            0
        } else {
            let w = pow2_u128((-e) as u32);
            proof {
                if -e > 45 {
                    lemma_pow2_strictly_increases(45, (-e) as nat);
                }
                lemma_fundamental_div_mod(m as int, w as int);
                lemma_div_pos_is_pos(m as int, w as int);
                let q = (m as int) / (w as int);
                assert(q < 256) by (nonlinear_arith)
                    requires
                        m == w * q + (m as int) % (w as int),
                        0 <= (m as int) % (w as int),
                        m < 0x20_0000_0000_0000,
                        w >= 0x2000_0000_0000,
                        q >= 0,
                ;
            }
            ((m as u128) / w) as u8
        }
    }

    /// The magnitude rounded to the nearest integer, halves upwards.
    pub open spec fn nearest_whole(self) -> nat {
        if self.exponent() >= 0 {
            self.mantissa() * pow2(self.exponent() as nat)
        } else {
            (self.mantissa() / pow2((-self.exponent() - 1) as nat) + 1) / 2
        }
    }

    /// The number rounded to the nearest integer, halves away from zero, and held to
    /// the range of an `i32`; 0 for a NaN.
    pub open spec fn rounded_i32(self) -> int {
        if self.is_nan() {
            0
        } else if self.is_negative() {
            if self.is_infinite() || self.nearest_whole() > 0x8000_0000 {
                -0x8000_0000
            } else {
                -(self.nearest_whole() as int)
            }
        } else {
            if self.is_infinite() || self.nearest_whole() > 0x7fff_ffff {
                0x7fff_ffff
            } else {
                self.nearest_whole() as int
            }
        }
    }

    /// The nearest whole number, halves away from zero, held to the range of an `i32`.
#[verifier::rlimit(40)]
    pub fn round_to_i32(&self) -> (r: i32)
        ensures
            r == self.rounded_i32(),
    {
        if self.nan_test() {
            return 0;
        }
        let negative = self.sign();
        if !self.finite_test() {
            return if negative {
                -0x8000_0000
            } else {
                0x7fff_ffff
            };
        }
        let (m, e) = self.parts();
        proof {
            lemma_pow2_values();
            vstd::arithmetic::power2::lemma2_to64();
            vstd::arithmetic::power2::lemma2_to64_rest();
        }
        if e >= -20 {
            proof {
                lemma_whole_part_large(m as nat, e as int, 20);
                if e < 0 {
                    lemma_nearest_whole_large(m as nat, (-e) as nat);
                }
            }
            if negative {
                -0x8000_0000
            } else {
                0x7fff_ffff
            }
        } else if e <= -55 {
            proof {
                lemma_whole_part_small(m as nat, (-e - 1) as nat);
            }
            0
        } else {
            let w = pow2_u128((-e - 1) as u32);
            proof {
                if -e - 1 > 20 {
                    lemma_pow2_strictly_increases(20, (-e - 1) as nat);
                }
                lemma_fundamental_div_mod(m as int, w as int);
                lemma_div_pos_is_pos(m as int, w as int);
                let q = (m as int) / (w as int);
                assert(q < 0x2_0000_0000) by (nonlinear_arith)
                    requires
                        m == w * q + (m as int) % (w as int),
                        0 <= (m as int) % (w as int),
                        m < 0x20_0000_0000_0000,
                        w >= 0x10_0000,
                        q >= 0,
                ;
            }
            let half_units: u128 = (m as u128) / w;
            let whole: u128 = (half_units + 1) / 2;
            if negative {
                if whole > 0x8000_0000 {
                    -0x8000_0000
                } else {
                    (-(whole as i64)) as i32
                }
            } else {
                if whole > 0x7fff_ffff {
                    0x7fff_ffff
                } else {
                    whole as i32
                }
            }
        }
    }
}

/// A fraction of the 53-digit grid lies below 1.
pub proof fn lemma_fraction_below_one(w: nat)
    requires
        w < 0x20_0000_0000_0000,
    ensures
        round_magnitude(w, 1, -53) < ONE_BITS,
{
    lemma_pow2_values();
    if w == 0 {
        lemma_round_zero(1, -53);
    } else {
        lemma_round_dyadic(w, -53);
        lemma_bit_length_bounds(w);
        let len = bit_length(w);
        if len > 53 {
            if len > 54 {
                lemma_pow2_strictly_increases(53, (len - 1) as nat);
            }
        }
        assert(len <= 53);
        lemma_scaled_bound(w, len, (53 - len) as nat);
    }
}

/// A normal number with exponent at least `-k` has an integer part of at least
/// `2^(52 - k)`.
pub proof fn lemma_whole_part_large(m: nat, e: int, k: nat)
    requires
        HIDDEN_BIT <= m,
        e >= -k,
        k <= 52,
    ensures
        e >= 0 ==> m * pow2(e as nat) >= pow2((52 - k) as nat),
        e < 0 ==> m / pow2((-e) as nat) >= pow2((52 - k) as nat),
{
    lemma_pow2_values();
    if e >= 0 {
        lemma_pow2_pos(e as nat);
        if k > 0 {
            lemma_pow2_strictly_increases((52 - k) as nat, 52);
        }
        assert(m * pow2(e as nat) >= m) by (nonlinear_arith)
            requires
                pow2(e as nat) >= 1,
        ;
    } else {
        let j = (-e) as nat;
        let w = pow2(j);
        let lo = pow2((52 - k) as nat);
        lemma_pow2_pos(j);
        lemma_pow2_adds((52 - j) as nat, j);
        if j < k {
            lemma_pow2_strictly_increases((52 - k) as nat, (52 - j) as nat);
        }
        lemma_fundamental_div_mod(m as int, w as int);
        lemma_div_pos_is_pos(m as int, w as int);
        let q = (m as int) / (w as int);
        let top = pow2((52 - j) as nat);
        assert(q >= top) by (nonlinear_arith)
            requires
                m == w * q + (m as int) % (w as int),
                0 <= (m as int) % (w as int) < w,
                m >= top * w,
                w > 0,
        ;
    }
}

/// Half-up rounding does not fall below the integer part.
pub proof fn lemma_nearest_whole_large(m: nat, j: nat)
    requires
        j >= 1,
    ensures
        (m / pow2((j - 1) as nat) + 1) / 2 >= m / pow2(j),
{
    let h = pow2((j - 1) as nat);
    let w = pow2(j);
    vstd::arithmetic::power2::lemma_pow2_unfold(j);
    lemma_pow2_pos((j - 1) as nat);
    lemma_fundamental_div_mod(m as int, h as int);
    lemma_div_pos_is_pos(m as int, h as int);
    lemma_fundamental_div_mod(m as int, w as int);
    lemma_div_pos_is_pos(m as int, w as int);
    let a = (m as int) / (h as int);
    let b = (m as int) / (w as int);
    assert(a >= 2 * b) by (nonlinear_arith)
        requires
            m == h * a + (m as int) % (h as int),
            0 <= (m as int) % (h as int) < h,
            m == w * b + (m as int) % (w as int),
            0 <= (m as int) % (w as int) < w,
            w == 2 * h,
            h > 0,
    ;
}

/// A mantissa has no digit left after `j >= 53` places.
pub proof fn lemma_whole_part_small(m: nat, j: nat)
    requires
        m < 0x20_0000_0000_0000,
        j >= 53,
    ensures
        m / pow2(j) == 0,
{
    lemma_pow2_values();
    if j > 53 {
        lemma_pow2_strictly_increases(53, j);
    }
    vstd::arithmetic::div_mod::lemma_fundamental_div_mod_converse(m as int, pow2(j) as int, 0, m as int);
}

} // verus!
