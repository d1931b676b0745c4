//! Rounding to the nearest binary64 magnitude, ties to even.
//!
//! Every arithmetic operation of the library first finds its exact result as a ratio
//! `(n / d) * 2^e` of integers and then rounds it here, once.
use vstd::prelude::*;
use vstd::arithmetic::power2::{
    pow2, lemma_pow2_pos, lemma_pow2_adds, lemma_pow2_unfold, lemma_pow2_strictly_increases,
    lemma2_to64, lemma2_to64_rest,
};
use vstd::arithmetic::div_mod::{
    lemma_fundamental_div_mod, lemma_fundamental_div_mod_converse, lemma_div_pos_is_pos,
    lemma_div_denominator,
};
use crate::scalar::{HIDDEN_BIT, INFINITY_BITS};

verus! {

/// Number of binary digits of `n`; 0 for 0.
pub open spec fn bit_length(n: nat) -> nat
    decreases n,
{
    if n == 0 {
        0
    } else {
        1 + bit_length(n / 2)
    }
}

/// The integer nearest to `n / d`; of two equally near ones, the even one.
pub open spec fn round_half_even(n: nat, d: nat) -> nat {
    let q = n / d;
    let r = n % d;
    if 2 * r > d || (2 * r == d && q % 2 == 1) {
        q + 1
    } else {
        q
    }
}

/// `x` if it is positive, else 0.
pub open spec fn positive_part(x: int) -> nat {
    if x > 0 {
        x as nat
    } else {
        0
    }
}

/// Encoding of the binary64 magnitude nearest to `(n / d) * 2^e`, ties to the even
/// mantissa; a result beyond the largest finite magnitude is the encoding of infinity.
///
/// With the value counted in units of `2^-1074`, the spacing of binary64 numbers near it
/// is `2^k` units, where `k` is the number of digits of its integer part in excess of 53.
/// The value is rounded to a multiple of that spacing, and the encoding of `r * 2^k`
/// units is `k * 2^52 + r`.
pub open spec fn round_magnitude(n: nat, d: nat, e: int) -> nat {
    let num = n * pow2(positive_part(e + 1074));
    let den = d * pow2(positive_part(-(e + 1074)));
    let k = positive_part(bit_length(num / den) - 53);
    let enc = (k * HIDDEN_BIT + round_half_even(num, den * pow2(k))) as nat;
    if enc >= INFINITY_BITS {
        INFINITY_BITS as nat
    } else {
        enc
    }
}

/// A number of `b` digits lies from `2^(b-1)` up to, not including, `2^b`.
pub proof fn lemma_bit_length_bounds(n: nat)
    ensures
        n < pow2(bit_length(n)),
        n > 0 ==> bit_length(n) > 0 && pow2((bit_length(n) - 1) as nat) <= n,
    decreases n,
{
    lemma2_to64();
    if n > 0 {
        lemma_bit_length_bounds(n / 2);
        lemma_pow2_unfold(bit_length(n));
        if n / 2 > 0 {
            lemma_pow2_unfold((bit_length(n) - 1) as nat);
        }
    }
}

/// A number from `2^(j-1)` up to, not including, `2^j` has `j` digits.
pub proof fn lemma_bit_length_unique(n: nat, j: nat)
    requires
        j > 0,
        pow2((j - 1) as nat) <= n < pow2(j),
    ensures
        bit_length(n) == j,
{
    lemma_bit_length_bounds(n);
    lemma_pow2_pos((j - 1) as nat);
    let b = bit_length(n);
    if b < j {
        if b < j - 1 {
            lemma_pow2_strictly_increases(b, (j - 1) as nat);
        }
    } else if b > j {
        if j < b - 1 {
            lemma_pow2_strictly_increases(j, (b - 1) as nat);
        }
    }
}

/// Multiplying by `2^j` adds `j` digits.
pub proof fn lemma_bit_length_shift_up(n: nat, j: nat)
    requires
        n > 0,
    ensures
        bit_length(n * pow2(j)) == bit_length(n) + j,
{
    lemma_bit_length_bounds(n);
    let b = bit_length(n);
    lemma_pow2_adds((b - 1) as nat, j);
    lemma_pow2_adds(b, j);
    lemma_pow2_pos(j);
    let p = pow2(j);
    let lo = pow2((b - 1) as nat);
    let hi = pow2(b);
    assert(lo * p <= n * p < hi * p) by (nonlinear_arith)
        requires
            lo <= n < hi,
            p > 0,
    ;
    lemma_bit_length_unique(n * p, b + j);
}

/// Dividing by `2^j` takes `j` digits away.
pub proof fn lemma_bit_length_shift_down(n: nat, j: nat)
    ensures
        bit_length(n / pow2(j)) == positive_part(bit_length(n) - j),
{
    lemma_bit_length_bounds(n);
    lemma_pow2_pos(j);
    let b = bit_length(n);
    let p = pow2(j);
    let q = n / p;
    lemma_fundamental_div_mod(n as int, p as int);
    if b <= j {
        if b < j {
            lemma_pow2_strictly_increases(b, j);
        }
        assert(q == 0) by (nonlinear_arith)
            requires
                n == p * q + n % p,
                0 <= n % p,
                n < p,
                q >= 0,
        ;
    } else {
        lemma_pow2_adds((b - 1 - j) as nat, j);
        lemma_pow2_adds((b - j) as nat, j);
        let lo = pow2((b - 1 - j) as nat);
        let hi = pow2((b - j) as nat);
        assert(lo <= q < hi) by (nonlinear_arith)
            requires
                n == p * q + n % p,
                0 <= n % p < p,
                lo * p <= n < hi * p,
                p > 0,
        ;
        lemma_bit_length_unique(q, (b - j) as nat);
    }
}

/// The rounded quotient is an integer nearest to the ratio, and the even one where two
/// are equally near.
pub proof fn lemma_round_half_even_nearest(n: nat, d: nat)
    requires
        d > 0,
    ensures
        2 * (n - round_half_even(n, d) * d) <= d,
        2 * (round_half_even(n, d) * d - n) <= d,
        2 * (n - round_half_even(n, d) * d) == d || 2 * (round_half_even(n, d) * d - n) == d
            ==> round_half_even(n, d) % 2 == 0,
{
    let q = (n as int) / (d as int);
    let r = (n as int) % (d as int);
    let rounded = round_half_even(n, d) as int;
    lemma_fundamental_div_mod(n as int, d as int);
    lemma_div_pos_is_pos(n as int, d as int);
    assert(rounded * d - n == (rounded - q) * d - r) by (nonlinear_arith)
        requires
            n == d * q + r,
    ;
    if rounded == q {
        assert((rounded - q) * d == 0) by (nonlinear_arith)
            requires
                rounded == q,
        ;
    } else {
        assert((rounded - q) * d == d) by (nonlinear_arith)
            requires
                rounded == q + 1,
        ;
    }
}

/// Scaling numerator and denominator alike does not change the rounded quotient.
pub proof fn lemma_round_half_even_scale(n: nat, d: nat, c: nat)
    requires
        d > 0,
        c > 0,
    ensures
        round_half_even(n * c, d * c) == round_half_even(n, d),
{
    let q = n / d;
    let r = n % d;
    lemma_fundamental_div_mod(n as int, d as int);
    assert(n * c == q * (d * c) + r * c && 0 <= r * c < d * c) by (nonlinear_arith)
        requires
            n == d * q + r,
            0 <= r < d,
            c > 0,
    ;
    lemma_fundamental_div_mod_converse((n * c) as int, (d * c) as int, q as int, (r * c) as int);
    assert((2 * (r * c) > d * c) == (2 * r > d) && (2 * (r * c) == d * c) == (2 * r == d))
        by (nonlinear_arith)
        requires
            c > 0,
    ;
}

/// A multiple of the divisor rounds to itself.
pub proof fn lemma_round_half_even_exact(a: nat, c: nat)
    requires
        c > 0,
    ensures
        round_half_even(a * c, c) == a,
{
    lemma_fundamental_div_mod_converse((a * c) as int, c as int, a as int, 0);
}

/// What `round_magnitude` comes to for a whole number of `2^e`: the digits of `p` beyond
/// the fifty-third, or below `2^-1074`, are rounded away.
pub open spec fn round_dyadic(p: nat, e: int) -> nat {
    let drop = if -(e + 1074) > bit_length(p) - 53 {
        -(e + 1074)
    } else {
        bit_length(p) - 53
    };
    let kept = if drop <= 0 {
        p * pow2((-drop) as nat)
    } else {
        round_half_even(p, pow2(drop as nat))
    };
    let enc = ((drop + e + 1074) * HIDDEN_BIT + kept) as nat;
    if enc >= INFINITY_BITS {
        INFINITY_BITS as nat
    } else {
        enc
    }
}

/// A whole number of `2^e` rounds as `round_dyadic` says.
#[verifier::rlimit(40)]
pub proof fn lemma_round_dyadic(p: nat, e: int)
    requires
        p > 0,
    ensures
        round_magnitude(p, 1, e) == round_dyadic(p, e),
{
    let big_e = e + 1074;
    let len = bit_length(p);
    let up = positive_part(big_e);
    let down = positive_part(-big_e);
    let num = p * pow2(up);
    let den = 1 * pow2(down);
    let drop = if -big_e > len - 53 { -big_e } else { len - 53 };
    let k = positive_part(bit_length(num / den) - 53);
    lemma_pow2_pos(up);
    lemma_pow2_pos(down);
    lemma2_to64();
    if big_e >= 0 {
        assert(den == 1);
        assert(num / den == num) by (nonlinear_arith)
            requires
                den == 1,
        ;
        lemma_bit_length_shift_up(p, up);
        assert(k == drop + big_e);
        if drop >= 0 {
            lemma_pow2_adds(drop as nat, up);
            lemma_pow2_pos(drop as nat);
            assert(den * pow2(k) == pow2(k)) by (nonlinear_arith)
                requires
                    den == 1,
            ;
            assert(pow2(drop as nat) * pow2(up) == den * pow2(k));
            lemma_round_half_even_scale(p, pow2(drop as nat), pow2(up));
        } else {
            lemma_pow2_adds((-drop) as nat, k);
            lemma_pow2_pos(k);
            assert(num == (p * pow2((-drop) as nat)) * pow2(k)) by (nonlinear_arith)
                requires
                    num == p * pow2(up),
                    pow2(up) == pow2((-drop) as nat) * pow2(k),
            ;
            assert(den * pow2(k) == pow2(k)) by (nonlinear_arith)
                requires
                    den == 1,
            ;
            lemma_round_half_even_exact(p * pow2((-drop) as nat), pow2(k));
        }
    } else {
        assert(num == p) by (nonlinear_arith)
            requires
                num == p * pow2(up),
                pow2(up) == 1,
        ;
        lemma_bit_length_shift_down(p, down);
        assert(k == drop + big_e);
        lemma_pow2_adds(down, k);
        assert(den * pow2(k) == pow2(drop as nat));
    }
}

/// `2^k` as a machine integer.
pub fn pow2_u128(k: u32) -> (r: u128)
    requires
        k < 128,
    ensures
        r == pow2(k as nat),
{
    proof {
        lemma_one_shl(k);
    }
    1u128 << k
}

proof fn lemma_one_shl(k: u32)
    requires
        k < 128,
    ensures
        (1u128 << k) == pow2(k as nat),
    decreases k,
{
    lemma2_to64();
    if k == 0 {
        assert(1u128 << 0u32 == 1) by (bit_vector);
    } else {
        lemma_one_shl((k - 1) as u32);
        assert((1u128 << k) == 2 * (1u128 << ((k - 1) as u32))) by (bit_vector)
            requires
                0 < k < 128,
        ;
        lemma_pow2_unfold(k as nat);
    }
}

/// Number of binary digits of `p`, found by halving the range in which they end.
pub fn bit_len(p: u128) -> (len: u32)
    ensures
        len == bit_length(p as nat),
        len <= 128,
{
    let mut x: u128 = p;
    let mut len: u32 = 0;
    let mut step: u32 = 64;
    proof {
        lemma2_to64();
        lemma_pow2_adds(64, 64);
    }
    while step > 0
        invariant
            step == 64 || step == 32 || step == 16 || step == 8 || step == 4 || step == 2 || step
                == 1 || step == 0,
            bit_length(p as nat) == len + bit_length(x as nat),
            len + 2 * step <= 128,
            step > 0 ==> x < pow2((2 * step) as nat),
            step == 0 ==> x < 2 && len <= 127,
        decreases step,
    {
        let w = pow2_u128(step);
        if x >= w {
            proof {
                lemma_bit_length_shift_down(x as nat, step as nat);
                lemma_bit_length_bounds(x as nat);
                lemma_bit_length_bounds(x as nat / w as nat);
                if bit_length(x as nat) < step {
                    lemma_pow2_strictly_increases(bit_length(x as nat), step as nat);
                }
                lemma_pow2_adds(step as nat, step as nat);
                lemma_fundamental_div_mod(x as int, w as int);
                let q = (x as int) / (w as int);
                assert(q < w) by (nonlinear_arith)
                    requires
                        x == w * q + (x as int) % (w as int),
                        0 <= (x as int) % (w as int),
                        x < w * w,
                        w > 0,
                ;
            }
            x = x / w;
            len = len + step;
        }
        proof {
            lemma2_to64();
        }
        step = step / 2;
    }
    proof {
        assert(bit_length(0) == 0);
        assert(bit_length(1) == 1) by {
            assert(bit_length(1) == 1 + bit_length(0));
        }
    }
    len + (x as u32)
}

/// `p / 2^drop` rounded to the nearest integer, ties to even.
pub fn round_shift(p: u128, drop: u32) -> (r: u128)
    requires
        1 <= drop < 128,
    ensures
        r == round_half_even(p as nat, pow2(drop as nat)),
{
    let unit = pow2_u128(drop);
    let half = pow2_u128(drop - 1);
    proof {
        lemma_pow2_unfold(drop as nat);
        lemma_pow2_pos((drop - 1) as nat);
        lemma_fundamental_div_mod(p as int, unit as int);
        assert(p / unit <= p) by (nonlinear_arith)
            requires
                unit > 0,
                p >= 0,
        ;
        assert(p / unit < p || p == 0) by (nonlinear_arith)
            requires
                unit >= 2,
                p >= 0,
        ;
    }
    let q = p / unit;
    let rem = p % unit;
    if rem > half || (rem == half && q % 2 == 1) {
        q + 1
    } else {
        q
    }
}

/// Encoding of the binary64 magnitude nearest to `p * 2^e`.
#[verifier::rlimit(40)]
pub fn round_pack(p: u128, e: i32) -> (r: u64)
    requires
        p < 0x8000_0000_0000_0000_0000_0000_0000_0000,
        -8192 <= e <= 8192,
    ensures
        r == round_magnitude(p as nat, 1, e as int),
        r <= INFINITY_BITS,
{
    if p == 0 {
        proof {
            lemma_round_zero(1, e as int);
        }
        return 0;
    }
    let len: i32 = bit_len(p) as i32;
    let big_e: i32 = e + 1074;
    let drop: i32 = if -big_e > len - 53 {
        -big_e
    } else {
        len - 53
    };
    let k: i32 = drop + big_e;
    proof {
        lemma_round_dyadic(p as nat, e as int);
        lemma_bit_length_bounds(p as nat);
        lemma_pow2_values();
        if len > 128 {
            lemma_pow2_strictly_increases(127, (len - 1) as nat);
        }
        assert(len <= 127);
    }
    if k >= 2047 {
        return INFINITY_BITS;
    }
    let kept: u128 = if drop <= 0 {
        let scale = pow2_u128((-drop) as u32);
        proof {
            lemma_scaled_bound(p as nat, len as nat, (-drop) as nat);
        }
        p * scale
    } else if drop > len {
        proof {
            lemma_round_small(p as nat, len as nat, drop as nat);
        }
        0
    } else {
        proof {
            lemma_rounded_bound(p as nat, drop as nat);
        }
        round_shift(p, drop as u32)
    };
    let enc: u64 = (k as u64) * HIDDEN_BIT + (kept as u64);
    if enc >= INFINITY_BITS {
        INFINITY_BITS
    } else {
        enc
    }
}

/// The powers of two that the encoding is made of.
pub proof fn lemma_pow2_values()
    ensures
        pow2(0) == 1,
        pow2(1) == 2,
        pow2(52) == HIDDEN_BIT,
        pow2(53) == 0x20_0000_0000_0000,
        pow2(63) == 0x8000_0000_0000_0000,
        pow2(64) == 0x1_0000_0000_0000_0000,
        pow2(127) == 0x8000_0000_0000_0000_0000_0000_0000_0000,
{
    lemma2_to64();
    lemma2_to64_rest();
    lemma_pow2_adds(64, 63);
}

/// A number of `len` digits moved up by `up` digits has `len + up` digits.
pub proof fn lemma_scaled_bound(p: nat, len: nat, up: nat)
    requires
        p < pow2(len),
        len + up <= 53,
    ensures
        p * pow2(up) < 0x20_0000_0000_0000,
{
    lemma_pow2_values();
    lemma_pow2_pos(up);
    lemma_pow2_adds(len, up);
    if len + up < 53 {
        lemma_pow2_strictly_increases(len + up, 53);
    }
    assert(p * pow2(up) < pow2(len) * pow2(up)) by (nonlinear_arith)
        requires
            p < pow2(len),
            pow2(up) > 0,
    ;
}

/// Rounding away all but 53 digits leaves at most `2^53`.
pub proof fn lemma_rounded_bound(p: nat, drop: nat)
    requires
        bit_length(p) - drop <= 53,
    ensures
        round_half_even(p, pow2(drop)) <= 0x20_0000_0000_0000,
{
    lemma_pow2_values();
    let q = p / pow2(drop);
    lemma_bit_length_shift_down(p, drop);
    lemma_bit_length_bounds(q);
    if bit_length(q) < 53 {
        lemma_pow2_strictly_increases(bit_length(q), 53);
    }
    lemma_pow2_pos(drop);
    lemma_div_pos_is_pos(p as int, pow2(drop) as int);
}

/// Zero rounds to zero.
pub proof fn lemma_round_zero(d: nat, e: int)
    requires
        d > 0,
    ensures
        round_magnitude(0, d, e) == 0,
{
    let up = pow2(positive_part(e + 1074));
    let den = d * pow2(positive_part(-(e + 1074)));
    lemma_pow2_pos(positive_part(-(e + 1074)));
    lemma2_to64();
    assert(0 * up == 0);
    assert(den > 0) by (nonlinear_arith)
        requires
            den == d * pow2(positive_part(-(e + 1074))),
            d > 0,
            pow2(positive_part(-(e + 1074))) > 0,
    ;
    lemma_fundamental_div_mod_converse(0, den as int, 0, 0);
    assert(den * pow2(0) == den) by (nonlinear_arith)
        requires
            pow2(0) == 1,
    ;
}

/// A number below half the divisor rounds to zero.
pub proof fn lemma_round_small(p: nat, len: nat, drop: nat)
    requires
        p < pow2(len),
        drop > len,
    ensures
        round_half_even(p, pow2(drop)) == 0,
{
    lemma_pow2_unfold(drop);
    if len < drop - 1 {
        lemma_pow2_strictly_increases(len, (drop - 1) as nat);
    }
    lemma_fundamental_div_mod_converse(p as int, pow2(drop) as int, 0, p as int);
}

/// Rounding `n / (d * c)` needs no more of `n / d` than its integer part and whether
/// anything is left over, as long as `c` is even.
#[verifier::rlimit(40)]
pub proof fn lemma_round_half_even_sticky(n: nat, d: nat, c: nat)
    requires
        d > 0,
        c > 0,
        c % 2 == 0,
    ensures
        round_half_even(n, d * c) == round_half_even(
            2 * (n / d) + (if n % d == 0 { 0nat } else { 1nat }),
            2 * c,
        ),
{
    let q = (n / d) as int;
    let r = (n % d) as int;
    let big_q = q / (c as int);
    let t = q % (c as int);
    let h = (c / 2) as int;
    let s: int = if r == 0 { 0 } else { 1 };
    let di = d as int;
    let ci = c as int;
    lemma_fundamental_div_mod(n as int, di);
    lemma_div_pos_is_pos(n as int, di);
    lemma_fundamental_div_mod(q, ci);
    lemma_div_pos_is_pos(q, ci);
    assert(ci == 2 * h);
    assert(n == big_q * (di * ci) + (t * di + r) && 0 <= t * di + r < di * ci) by (nonlinear_arith)
        requires
            n == di * q + r,
            q == ci * big_q + t,
            0 <= r < di,
            0 <= t < ci,
    ;
    lemma_fundamental_div_mod_converse(n as int, di * ci, big_q, t * di + r);
    assert(2 * q + s == big_q * (2 * ci) + (2 * t + s) && 0 <= 2 * t + s < 2 * ci) by (nonlinear_arith)
        requires
            q == ci * big_q + t,
            0 <= t < ci,
            0 <= s <= 1,
    ;
    lemma_fundamental_div_mod_converse(2 * q + s, 2 * ci, big_q, 2 * t + s);
    assert((2 * (t * di + r) > di * ci) == (2 * (2 * t + s) > 2 * ci) && (2 * (t * di + r) == di
        * ci) == (2 * (2 * t + s) == 2 * ci)) by (nonlinear_arith)
        requires
            ci == 2 * h,
            0 <= r < di,
            0 <= t < ci,
            s == (if r == 0 { 0int } else { 1int }),
    ;
    assert(big_q >= 0) by (nonlinear_arith)
        requires
            q == ci * big_q + t,
            0 <= t < ci,
            q >= 0,
    ;
}

/// The (numerator, denominator) pair of `(n / d) * 2^e` counted in units of `2^-1074`.
pub open spec fn units_num(n: nat, e: int) -> nat {
    n * pow2(positive_part(e + 1074))
}

/// The denominator that goes with `units_num`.
pub open spec fn units_den(d: nat, e: int) -> nat {
    d * pow2(positive_part(-(e + 1074)))
}

/// Two ratios of equal value round alike.
pub proof fn lemma_round_proportional(n1: nat, d1: nat, e1: int, n2: nat, d2: nat, e2: int)
    requires
        d1 > 0,
        d2 > 0,
        units_num(n1, e1) * units_den(d2, e2) == units_num(n2, e2) * units_den(d1, e1),
    ensures
        round_magnitude(n1, d1, e1) == round_magnitude(n2, d2, e2),
{
    let a1 = units_num(n1, e1);
    let b1 = units_den(d1, e1);
    let a2 = units_num(n2, e2);
    let b2 = units_den(d2, e2);
    lemma_units_den_pos(d1, e1);
    lemma_units_den_pos(d2, e2);
    lemma_ratio_floor(a1, b1, a2, b2);
    let k = positive_part(bit_length(a1 / b1) - 53);
    let w = pow2(k);
    lemma_pow2_pos(k);
    assert(b1 * w > 0 && b2 * w > 0 && a1 * (b2 * w) == a2 * (b1 * w)) by (nonlinear_arith)
        requires
            b1 > 0,
            b2 > 0,
            w > 0,
            a1 * b2 == a2 * b1,
    ;
    lemma_ratio_round(a1, b1 * w, a2, b2 * w);
}

/// The denominator of a ratio in units is positive.
pub proof fn lemma_units_den_pos(d: nat, e: int)
    requires
        d > 0,
    ensures
        units_den(d, e) > 0,
{
    let w = pow2(positive_part(-(e + 1074)));
    lemma_pow2_pos(positive_part(-(e + 1074)));
    assert(d * w > 0) by (nonlinear_arith)
        requires
            d > 0,
            w > 0,
    ;
}

/// Equal ratios have equal integer parts.
pub proof fn lemma_ratio_floor(a1: nat, b1: nat, a2: nat, b2: nat)
    requires
        b1 > 0,
        b2 > 0,
        a1 * b2 == a2 * b1,
    ensures
        a1 / b1 == a2 / b2,
{
    let q = (a1 / b1) as int;
    let r = (a1 % b1) as int;
    lemma_fundamental_div_mod(a1 as int, b1 as int);
    lemma_div_pos_is_pos(a1 as int, b1 as int);
    let q2 = (a2 / b2) as int;
    let r2 = (a2 % b2) as int;
    lemma_fundamental_div_mod(a2 as int, b2 as int);
    lemma_div_pos_is_pos(a2 as int, b2 as int);
    assert(q == q2) by (nonlinear_arith)
        requires
            a1 == b1 * q + r,
            0 <= r < b1,
            a2 == b2 * q2 + r2,
            0 <= r2 < b2,
            a1 * b2 == a2 * b1,
            b1 > 0,
            b2 > 0,
            q >= 0,
            q2 >= 0,
    ;
}

/// Equal ratios round to equal integers.
pub proof fn lemma_ratio_round(a1: nat, b1: nat, a2: nat, b2: nat)
    requires
        b1 > 0,
        b2 > 0,
        a1 * b2 == a2 * b1,
    ensures
        round_half_even(a1, b1) == round_half_even(a2, b2),
{
    lemma_round_half_even_scale(a1, b1, b2);
    lemma_round_half_even_scale(a2, b2, b1);
    assert(b1 * b2 == b2 * b1) by (nonlinear_arith);
}

/// A factor `2^j` of the numerator can be moved into the exponent.
pub proof fn lemma_round_exponent_up(n: nat, d: nat, e: int, j: nat)
    requires
        d > 0,
    ensures
        round_magnitude(n * pow2(j), d, e) == round_magnitude(n, d, e + j),
{
    let big_e = e + 1074;
    let u1 = positive_part(big_e);
    let v1 = positive_part(-big_e);
    let u2 = positive_part(big_e + j);
    let v2 = positive_part(-(big_e + j));
    lemma_pow2_adds(j, u1);
    lemma_pow2_adds(j + u1, v2);
    lemma_pow2_adds(u2, v1);
    let pj = pow2(j);
    let pu1 = pow2(u1);
    let pv1 = pow2(v1);
    let pu2 = pow2(u2);
    let pv2 = pow2(v2);
    assert(((n * pj) * pu1) * (d * pv2) == (n * pu2) * (d * pv1)) by (nonlinear_arith)
        requires
            (pj * pu1) * pv2 == pu2 * pv1,
    ;
    lemma_round_proportional((n * pj) as nat, d, e, n, d, e + j);
}

/// A factor `2^j` of the denominator can be moved into the exponent.
pub proof fn lemma_round_exponent_down(n: nat, d: nat, e: int, j: nat)
    requires
        d > 0,
    ensures
        round_magnitude(n, d * pow2(j), e) == round_magnitude(n, d, e - j),
{
    let big_e = e + 1074;
    let u1 = positive_part(big_e);
    let v1 = positive_part(-big_e);
    let u2 = positive_part(big_e - j);
    let v2 = positive_part(-(big_e - j));
    lemma_pow2_adds(j, v1);
    lemma_pow2_adds(j + v1, u2);
    lemma_pow2_adds(u1, v2);
    lemma_pow2_pos(j);
    let pj = pow2(j);
    let pu1 = pow2(u1);
    let pv1 = pow2(v1);
    let pu2 = pow2(u2);
    let pv2 = pow2(v2);
    assert((n * pu1) * (d * pv2) == (n * pu2) * ((d * pj) * pv1) && d * pj > 0) by (nonlinear_arith)
        requires
            (pj * pv1) * pu2 == pu1 * pv2,
            d > 0,
            pj > 0,
    ;
    lemma_round_proportional(n, (d * pj) as nat, e, n, d, e - j);
}

/// Every number from `q * 2^j` up to, but not including, `(q + 1) * 2^j` has `j` digits
/// more than `q`.
pub proof fn lemma_bit_length_within(x: nat, q: nat, j: nat)
    requires
        q > 0,
        q * pow2(j) <= x < (q + 1) * pow2(j),
    ensures
        bit_length(x) == bit_length(q) + j,
{
    lemma_bit_length_bounds(q);
    let b = bit_length(q);
    lemma_pow2_adds((b - 1) as nat, j);
    lemma_pow2_adds(b, j);
    lemma_pow2_pos(j);
    let w = pow2(j);
    let lo = pow2((b - 1) as nat);
    let hi = pow2(b);
    assert(lo * w <= q * w && (q + 1) * w <= hi * w) by (nonlinear_arith)
        requires
            lo <= q,
            q + 1 <= hi,
            w > 0,
    ;
    lemma_bit_length_unique(x, b + j);
}

/// The sticky-bit rule: a ratio whose integer part `q` has at least 54 digits rounds
/// like `q` itself, if nothing is left over, and like `q + 1/2` otherwise.
#[verifier::rlimit(40)]
pub proof fn lemma_round_sticky(n: nat, d: nat, e: int)
    requires
        d > 0,
        n / d >= 0x20_0000_0000_0000,
    ensures
        round_magnitude(n, d, e) == round_magnitude(
            2 * (n / d) + (if n % d == 0 { 0nat } else { 1nat }),
            2,
            e,
        ),
{
    let q = n / d;
    let r = n % d;
    let s: nat = if r == 0 { 0 } else { 1 };
    let m = 2 * q + s;
    let big_e = e + 1074;
    let up = positive_part(big_e);
    let down = positive_part(-big_e);
    let pu = pow2(up);
    let pv = pow2(down);
    lemma_pow2_pos(up);
    lemma_pow2_pos(down);
    lemma_pow2_values();
    lemma_fundamental_div_mod(n as int, d as int);
    lemma_div_pos_is_pos(n as int, d as int);
    let num1 = n * pu;
    let den1 = d * pv;
    let num2 = m * pu;
    let den2 = 2 * pv;
    lemma_units_den_pos(d, e);
    lemma_units_den_pos(2, e);
    if big_e >= 0 {
        assert(pv == 1);
        assert(den1 == d && den2 == 2) by (nonlinear_arith)
            requires
                den1 == d * pv,
                den2 == 2 * pv,
                pv == 1,
        ;
        let i1 = num1 / den1;
        let i2 = num2 / den2;
        lemma_fundamental_div_mod(num1 as int, den1 as int);
        lemma_div_pos_is_pos(num1 as int, den1 as int);
        lemma_fundamental_div_mod(num2 as int, den2 as int);
        lemma_div_pos_is_pos(num2 as int, den2 as int);
        assert(q * pu <= i1 < (q + 1) * pu) by (nonlinear_arith)
            requires
                num1 == n * pu,
                n == d * q + r,
                0 <= r < d,
                num1 == d * i1 + num1 % d,
                0 <= num1 % d < d,
                pu > 0,
                i1 >= 0,
        ;
        assert(q * pu <= i2 < (q + 1) * pu) by (nonlinear_arith)
            requires
                num2 == m * pu,
                m == 2 * q + s,
                0 <= s <= 1,
                num2 == 2 * i2 + num2 % 2,
                0 <= num2 % 2 < 2,
                pu > 0,
                i2 >= 0,
        ;
        lemma_bit_length_within(i1, q, up);
        lemma_bit_length_within(i2, q, up);
        lemma_bit_length_bounds(q);
        if bit_length(q) < 53 {
            lemma_pow2_strictly_increases(bit_length(q), 53);
        }
        assert(bit_length(q) >= 54);
        let k = positive_part(bit_length(i1) - 53);
        let c = pow2((k - up) as nat);
        lemma_pow2_adds((k - up) as nat, up);
        lemma_pow2_unfold((k - up) as nat);
        lemma_pow2_pos((k - up - 1) as nat);
        assert(c % 2 == 0);
        assert(den1 * pow2(k) == (d * c) * pu && den2 * pow2(k) == (2 * c) * pu) by (nonlinear_arith)
            requires
                den1 == d,
                den2 == 2,
                pow2(k) == c * pu,
        ;
        assert(d * c > 0) by (nonlinear_arith)
            requires
                d > 0,
                c > 0,
        ;
        lemma_round_half_even_scale(n, d * c, pu);
        lemma_round_half_even_scale(m, 2 * c, pu);
        lemma_round_half_even_sticky(n, d, c);
    } else {
        assert(pu == 1);
        assert(num1 == n && num2 == m) by (nonlinear_arith)
            requires
                num1 == n * pu,
                num2 == m * pu,
                pu == 1,
        ;
        lemma_div_denominator(n as int, d as int, pv as int);
        lemma_div_denominator(m as int, 2, pv as int);
        assert(m / 2 == q);
        assert(num1 / den1 == num2 / den2);
        let k = positive_part(bit_length(num1 / den1) - 53);
        let c = pv * pow2(k);
        lemma_pow2_adds(down, k);
        lemma_pow2_unfold(down + k);
        lemma_pow2_pos((down + k - 1) as nat);
        assert(c % 2 == 0);
        assert(den1 * pow2(k) == d * c && den2 * pow2(k) == 2 * c) by (nonlinear_arith)
            requires
                den1 == d * pv,
                den2 == 2 * pv,
                c == pv * pow2(k),
        ;
        lemma_round_half_even_sticky(n, d, c);
    }
}

/// A ratio whose integer part has at least 54 digits rounds like twice that integer
/// part, plus one if anything is left over, at half the scale.
pub proof fn lemma_round_quotient(n: nat, d: nat, e: int)
    requires
        d > 0,
        n / d >= 0x20_0000_0000_0000,
    ensures
        round_magnitude(n, d, e) == round_magnitude(
            2 * (n / d) + (if n % d == 0 { 0nat } else { 1nat }),
            1,
            e - 1,
        ),
{
    let m = 2 * (n / d) + (if n % d == 0 { 0nat } else { 1nat });
    lemma_round_sticky(n, d, e);
    lemma_pow2_values();
    lemma_round_exponent_down(m, 1, e, 1);
    assert(1 * pow2(1) == 2);
}

/// A long number with a nonzero tail below `2^j` rounds like its head with a sticky
/// digit.
pub proof fn lemma_round_with_tail(q: nat, tail: nat, j: nat, e: int)
    requires
        q >= 0x20_0000_0000_0000,
        0 < tail < pow2(j),
    ensures
        round_magnitude(q * pow2(j) + tail, 1, e) == round_magnitude(2 * q + 1, 1, e + j - 1),
{
    let n = q * pow2(j) + tail;
    let w = pow2(j);
    lemma_round_exponent_down(n, 1, e + j, j);
    assert(1 * w == w);
    assert(q * w == w * q) by (nonlinear_arith);
    lemma_fundamental_div_mod_converse(n as int, w as int, q as int, tail as int);
    lemma_round_quotient(n, w, e + j);
}

} // verus!
