//! Correctly rounded square roots.
use vstd::prelude::*;
use vstd::arithmetic::power2::{
    pow2, lemma_pow2_pos, lemma_pow2_adds, lemma_pow2_unfold, lemma_pow2_strictly_increases,
};
use vstd::arithmetic::div_mod::{
    lemma_fundamental_div_mod, lemma_fundamental_div_mod_converse, lemma_div_pos_is_pos,
};
use crate::scalar::{Scalar, INFINITY_BITS, HIDDEN_BIT, NAN_BITS};
use crate::rounding::{
    bit_length, round_half_even, round_magnitude, round_dyadic, positive_part, round_pack,
    pow2_u128, lemma_pow2_values, lemma_round_dyadic, lemma_bit_length_bounds,
    lemma_bit_length_within, lemma_bit_length_unique,
};

verus! {

/// The largest integer whose square is at most `n`.
pub open spec fn integer_sqrt(n: nat) -> nat
    decreases n,
{
    if n == 0 {
        0
    } else {
        let r = 2 * integer_sqrt(n / 4);
        if (r + 1) * (r + 1) <= n {
            r + 1
        } else {
            r
        }
    }
}

/// The square of the integer square root is at most `n`, and the square of the next
/// integer is more.
pub proof fn lemma_integer_sqrt(n: nat)
    ensures
        integer_sqrt(n) * integer_sqrt(n) <= n,
        n < (integer_sqrt(n) + 1) * (integer_sqrt(n) + 1),
    decreases n,
{
    if n > 0 {
        lemma_integer_sqrt(n / 4);
        let h = integer_sqrt(n / 4) as int;
        let m = (n / 4) as int;
        let r = 2 * h;
        let i = integer_sqrt(n) as int;
        let up = (r + 1) * (r + 1) <= n;
        assert(i == (if up { r + 1 } else { r }));
        assert(i * i <= n && n < (i + 1) * (i + 1)) by (nonlinear_arith)
            requires
                h * h <= m,
                m < (h + 1) * (h + 1),
                4 * m <= n < 4 * m + 4,
                r == 2 * h,
                up == ((r + 1) * (r + 1) <= n),
                i == (if up { r + 1 } else { r }),
        ;
        assert(integer_sqrt(n) * integer_sqrt(n) == i * i);
        assert((integer_sqrt(n) + 1) * (integer_sqrt(n) + 1) == (i + 1) * (i + 1));
    } else {
        let z = integer_sqrt(n);
        assert(z * z == 0 && (z + 1) * (z + 1) == 1) by (nonlinear_arith)
            requires
                z == 0,
        ;
    }
}

/// An integer whose square is at most `n`, while the square of the next is more, is
/// the integer square root.
pub proof fn lemma_integer_sqrt_unique(n: nat, s: nat)
    requires
        s * s <= n < (s + 1) * (s + 1),
    ensures
        integer_sqrt(n) == s,
{
    lemma_integer_sqrt(n);
    let i = integer_sqrt(n) as int;
    let si = s as int;
    assert(i == si) by (nonlinear_arith)
        requires
            i * i <= n < (i + 1) * (i + 1),
            si * si <= n < (si + 1) * (si + 1),
            i >= 0,
            si >= 0,
    ;
}

/// Encoding of the binary64 magnitude nearest to the square root of `u`, counted in
/// units of `2^-1074`, ties to the even mantissa.
///
/// The spacing of binary64 numbers near the root is `w = 2^k` units, where `k` is the
/// number of digits of its integer part in excess of 53. The root lies above the middle
/// `(q + 1/2) * w` of two neighbours exactly when `4 * u` exceeds `((2 * q + 1) * w)^2`.
pub open spec fn round_root(u: nat) -> nat {
    let k = positive_part(bit_length(integer_sqrt(u)) - 53);
    let w = pow2(k);
    let q = integer_sqrt(u) / w;
    let mid = (2 * q + 1) * w;
    let kept = if 4 * u > mid * mid || (4 * u == mid * mid && q % 2 == 1) {
        q + 1
    } else {
        q
    };
    let enc = (k * HIDDEN_BIT + kept) as nat;
    if enc >= INFINITY_BITS {
        INFINITY_BITS as nat
    } else {
        enc
    }
}

/// The root of `n * 4^g` has the root of `n` as its leading digits.
pub proof fn lemma_integer_sqrt_scaled(n: nat, g: nat)
    ensures
        integer_sqrt(n) * pow2(g) <= integer_sqrt(n * pow2(2 * g)) < (integer_sqrt(n) + 1) * pow2(g),
{
    let s = integer_sqrt(n) as int;
    let p = pow2(g) as int;
    let u = (n * pow2(2 * g)) as int;
    let i = integer_sqrt(n * pow2(2 * g)) as int;
    lemma_integer_sqrt(n);
    lemma_integer_sqrt(n * pow2(2 * g));
    lemma_pow2_adds(g, g);
    lemma_pow2_pos(g);
    assert((s * p) * (s * p) <= u && u < ((s + 1) * p) * ((s + 1) * p)) by (nonlinear_arith)
        requires
            s * s <= n < (s + 1) * (s + 1),
            u == n * (p * p),
            p > 0,
    ;
    assert(s * p <= i < (s + 1) * p) by (nonlinear_arith)
        requires
            i * i <= u < (i + 1) * (i + 1),
            (s * p) * (s * p) <= u,
            u < ((s + 1) * p) * ((s + 1) * p),
            i >= 0,
            s >= 0,
            p > 0,
    ;
}

/// The sticky-bit rule for roots: with `s` the integer root of `n`, of at least 54
/// digits, the root of `n * 4^g` rounds like `2 * s`, plus one if `n` is no square, at
/// half the scale.
#[verifier::rlimit(40)]
pub proof fn lemma_round_root_sticky(n: nat, g: nat)
    requires
        integer_sqrt(n) >= 0x20_0000_0000_0000,
        g >= 1,
    ensures
        round_root(n * pow2(2 * g)) == round_magnitude(
            2 * integer_sqrt(n) + (if integer_sqrt(n) * integer_sqrt(n) == n { 0nat } else { 1nat }),
            1,
            g - 1075,
        ),
{
    let s = integer_sqrt(n);
    let sticky: nat = if s * s == n { 0 } else { 1 };
    let m = 2 * s + sticky;
    let u = n * pow2(2 * g);
    let i = integer_sqrt(u);
    let p = pow2(g);
    lemma_pow2_values();
    lemma_pow2_pos(g);
    lemma_pow2_adds(g, g);
    lemma_integer_sqrt(n);
    lemma_integer_sqrt_scaled(n, g);
    lemma_bit_length_within(i, s, g);
    lemma_bit_length_bounds(s);
    let b = bit_length(s);
    if b < 53 {
        lemma_pow2_strictly_increases(b, 53);
    }
    assert(b >= 54);
    let k = (b + g - 53) as nat;
    assert(k == positive_part(bit_length(i) - 53));
    let c = pow2((b - 53) as nat);
    let h = pow2((b - 54) as nat);
    lemma_pow2_unfold((b - 53) as nat);
    lemma_pow2_pos((b - 54) as nat);
    lemma_pow2_adds((b - 53) as nat, g);
    let w = pow2(k);
    assert(w == c * p);
    // the quotient of the spec is the quotient of `s`
    let q = s / c;
    let t = s % c;
    lemma_fundamental_div_mod(s as int, c as int);
    lemma_div_pos_is_pos(s as int, c as int);
    let rest = (i - q * w) as int;
    assert(0 <= rest < w) by (nonlinear_arith)
        requires
            rest == i - q * w,
            w == c * p,
            s == c * q + t,
            0 <= t < c,
            s * p <= i < (s + 1) * p,
            p > 0,
    ;
    assert(i == q * w + rest);
    lemma_fundamental_div_mod_converse(i as int, w as int, q as int, rest);
    assert(i / w == q);
    // the comparison with the middle
    let mid = (2 * q + 1) * w;
    let big_t = q * c + h;
    assert(mid * mid == 4 * ((big_t * big_t) * (p * p)) && 4 * u == 4 * (n * (p * p)))
        by (nonlinear_arith)
        requires
            mid == (2 * q + 1) * w,
            w == c * p,
            c == 2 * h,
            big_t == q * c + h,
            u == n * (p * p),
    ;
    assert((4 * u > mid * mid) == (n > big_t * big_t) && (4 * u == mid * mid) == (n == big_t * big_t))
        by (nonlinear_arith)
        requires
            mid * mid == 4 * ((big_t * big_t) * (p * p)),
            4 * u == 4 * (n * (p * p)),
            p > 0,
    ;
    assert((n > big_t * big_t) == (t > h || (t == h && sticky == 1)) && (n == big_t * big_t) == (t
        == h && sticky == 0)) by (nonlinear_arith)
        requires
            s * s <= n < (s + 1) * (s + 1),
            sticky == (if s * s == n { 0nat } else { 1nat }),
            s == c * q + t,
            big_t == q * c + h,
            0 <= t,
            h >= 0,
            s >= 0,
    ;
    // the other side
    lemma_round_dyadic(m, g - 1075);
    assert(2 * pow2((b - 1) as nat) <= m < 2 * pow2(b));
    lemma_pow2_unfold(b);
    lemma_pow2_unfold(b + 1);
    lemma_bit_length_unique(m, b + 1);
    let drop = (b - 52) as nat;
    lemma_pow2_unfold(drop);
    assert(pow2(drop) == 2 * c);
    assert(m == q * (2 * c) + (2 * t + sticky) && 0 <= 2 * t + sticky < 2 * c) by (nonlinear_arith)
        requires
            m == 2 * s + sticky,
            s == c * q + t,
            0 <= t < c,
            0 <= sticky <= 1,
    ;
    lemma_fundamental_div_mod_converse(m as int, (2 * c) as int, q as int, (2 * t + sticky) as int);
    assert(c == 2 * h);
    assert(round_half_even(m, pow2(drop)) == (if t > h || (t == h && sticky == 1) || (t == h
        && sticky == 0 && q % 2 == 1) {
        q + 1
    } else {
        q
    }));
    assert(round_dyadic(m, g - 1075) == round_root(u));
}

/// The integer square root of a number below `2^112`.
pub fn isqrt(n: u128) -> (s: u128)
    requires
        n < 0x1_0000_0000_0000_0000_0000_0000_0000,
    ensures
        s == integer_sqrt(n as nat),
        s < 0x100_0000_0000_0000,
{
    let mut r: u128 = 0;
    let mut bit: u32 = 56;
    proof {
        lemma_pow2_values();
        lemma_pow2_adds(52, 4);
        vstd::arithmetic::power2::lemma2_to64();
        assert(pow2(56) == 0x100_0000_0000_0000);
    }
    while bit > 0
        invariant
            bit <= 56,
            r * r <= n,
            n < (r + pow2(bit as nat)) * (r + pow2(bit as nat)),
            r + pow2(bit as nat) <= 0x100_0000_0000_0000,
            n < 0x1_0000_0000_0000_0000_0000_0000_0000,
        decreases bit,
    {
        bit = bit - 1;
        let w = pow2_u128(bit);
        proof {
            lemma_pow2_unfold((bit + 1) as nat);
            lemma_pow2_pos(bit as nat);
        }
        let cand = r + w;
        assert(cand * cand <= 0x100_0000_0000_0000 * 0x100_0000_0000_0000) by (nonlinear_arith)
            requires
                0 <= cand <= 0x100_0000_0000_0000,
        ;
        if cand * cand <= n {
            r = cand;
        }
    }
    proof {
        lemma_integer_sqrt_unique(n as nat, r as nat);
    }
    r
}

impl Scalar {
    /// The square root of a number, rounded to nearest. A finite number `m * 2^e` is
    /// `m * 2^(e + 2148)` squared units of `2^-1074`, so its root is the root of that
    /// integer in units.
    #[verifier::opaque]
    pub open spec fn root(self) -> Scalar {
        if self.is_nan() {
            Scalar { bits: NAN_BITS }
        } else if self.is_zero() {
            self
        } else if self.is_negative() {
            Scalar { bits: NAN_BITS }
        } else if self.is_infinite() {
            self
        } else {
            Scalar::pack(
                false,
                round_root(self.mantissa() * pow2((self.exponent() + 2148) as nat)),
            )
        }
    }

    /// The square root of the number.
#[verifier::rlimit(40)]
    pub fn sqrt(&self) -> (r: Scalar)
        ensures
            r == self.root(),
    {
        reveal(Scalar::root);
        if self.nan_test() {
            return Scalar::nan();
        }
        let mag = self.magnitude_bits();
        if mag == 0 {
            return *self;
        }
        if self.sign() {
            return Scalar::nan();
        }
        if mag == INFINITY_BITS {
            return *self;
        }
        let (m, x) = self.parts();
        let (top, shift) = Scalar::normalized(m);
        let lifted: i32 = x - (shift as i32) + 1126;
        let odd: u32 = if lifted % 2 == 1 {
            1
        } else {
            0
        };
        let n0: u128 = if odd == 1 {
            2 * (top as u128)
        } else {
            top as u128
        };
        let n: u128 = n0 * 0x400_0000_0000_0000u128;
        let g: i32 = (lifted - (odd as i32)) / 2 + 482;
        let s = isqrt(n);
        assert(s * s < 0x100_0000_0000_0000 * 0x100_0000_0000_0000) by (nonlinear_arith)
            requires
                0 <= s < 0x100_0000_0000_0000,
        ;
        let sticky: u128 = if s * s == n {
            0
        } else {
            1
        };
        proof {
            lemma_pow2_values();
            vstd::arithmetic::power2::lemma2_to64();
            vstd::arithmetic::power2::lemma2_to64_rest();
            lemma_integer_sqrt(n as nat);
            assert(s >= 0x20_0000_0000_0000) by (nonlinear_arith)
                requires
                    n < (s + 1) * (s + 1),
                    n >= 0x10_0000_0000_0000 * 0x400_0000_0000_0000,
                    s >= 0,
            ;
            let j = (shift + odd + 58) as nat;
            lemma_pow2_adds(shift as nat, odd as nat);
            lemma_pow2_adds((shift + odd) as nat, 58);
            assert(n == m * pow2(j)) by (nonlinear_arith)
                requires
                    n == n0 * 0x400_0000_0000_0000,
                    n0 == top * pow2(odd as nat),
                    top == m * pow2(shift as nat),
                    pow2(j) == (pow2(shift as nat) * pow2(odd as nat)) * 0x400_0000_0000_0000,
            ;
            assert(2 * g + j == x + 2148);
            lemma_pow2_adds(j, (2 * g) as nat);
            assert(n * pow2((2 * g) as nat) == m * pow2((x + 2148) as nat)) by (nonlinear_arith)
                requires
                    n == m * pow2(j),
                    pow2((x + 2148) as nat) == pow2(j) * pow2((2 * g) as nat),
            ;
            lemma_round_root_sticky(n as nat, g as nat);
        }
        Scalar::packed(false, round_pack(2 * s + sticky, g - 1075))
    }
}

} // verus!
