//! Rounding keeps the order of numbers.
use vstd::prelude::*;
use vstd::arithmetic::power2::{
    pow2, lemma_pow2_pos, lemma_pow2_adds, lemma_pow2_strictly_increases,
};
use vstd::arithmetic::div_mod::{lemma_fundamental_div_mod, lemma_div_pos_is_pos};
use crate::scalar::{Scalar, HIDDEN_BIT, INFINITY_BITS, ONE_BITS};
use crate::rounding::{
    bit_length, round_half_even, round_magnitude, positive_part, units_num, units_den,
    lemma_units_den_pos, lemma_bit_length_bounds, lemma_pow2_values,
};

verus! {

/// Of two ratios, the smaller has the smaller integer part.
pub proof fn lemma_floor_monotone(a1: nat, b1: nat, a2: nat, b2: nat)
    requires
        b1 > 0,
        b2 > 0,
        a1 * b2 <= a2 * b1,
    ensures
        a1 / b1 <= a2 / b2,
{
    let q1 = (a1 as int) / (b1 as int);
    let r1 = (a1 as int) % (b1 as int);
    let q2 = (a2 as int) / (b2 as int);
    let r2 = (a2 as int) % (b2 as int);
    lemma_fundamental_div_mod(a1 as int, b1 as int);
    lemma_fundamental_div_mod(a2 as int, b2 as int);
    lemma_div_pos_is_pos(a1 as int, b1 as int);
    lemma_div_pos_is_pos(a2 as int, b2 as int);
    assert(q1 <= q2) by (nonlinear_arith)
        requires
            a1 == b1 * q1 + r1,
            0 <= r1 < b1,
            a2 == b2 * q2 + r2,
            0 <= r2 < b2,
            a1 * b2 <= a2 * b1,
            b1 > 0,
            b2 > 0,
            q1 >= 0,
            q2 >= 0,
    ;
}

/// Of two ratios, the smaller rounds to the smaller integer.
pub proof fn lemma_round_half_even_monotone(a1: nat, b1: nat, a2: nat, b2: nat)
    requires
        b1 > 0,
        b2 > 0,
        a1 * b2 <= a2 * b1,
    ensures
        round_half_even(a1, b1) <= round_half_even(a2, b2),
{
    let q1 = (a1 as int) / (b1 as int);
    let r1 = (a1 as int) % (b1 as int);
    let q2 = (a2 as int) / (b2 as int);
    let r2 = (a2 as int) % (b2 as int);
    lemma_fundamental_div_mod(a1 as int, b1 as int);
    lemma_fundamental_div_mod(a2 as int, b2 as int);
    lemma_div_pos_is_pos(a1 as int, b1 as int);
    lemma_div_pos_is_pos(a2 as int, b2 as int);
    lemma_floor_monotone(a1, b1, a2, b2);
    if q1 == q2 {
        assert(r1 * b2 <= r2 * b1) by (nonlinear_arith)
            requires
                a1 == b1 * q1 + r1,
                a2 == b2 * q2 + r2,
                q1 == q2,
                a1 * b2 <= a2 * b1,
        ;
        assert((2 * r1 > b1 ==> 2 * r2 > b2) && (2 * r1 == b1 ==> 2 * r2 >= b2)) by (nonlinear_arith)
            requires
                r1 * b2 <= r2 * b1,
                b1 > 0,
                b2 > 0,
                r1 >= 0,
                r2 >= 0,
        ;
    }
}

/// The smaller of two numbers has no more digits.
pub proof fn lemma_bit_length_monotone(a: nat, b: nat)
    requires
        a <= b,
    ensures
        bit_length(a) <= bit_length(b),
{
    lemma_bit_length_bounds(a);
    lemma_bit_length_bounds(b);
    if bit_length(a) > bit_length(b) {
        if bit_length(a) - 1 > bit_length(b) {
            lemma_pow2_strictly_increases(bit_length(b), (bit_length(a) - 1) as nat);
        }
    }
}

/// Of two ratios, the smaller rounds to the binary64 magnitude with the smaller
/// encoding.
#[verifier::rlimit(40)]
pub proof fn lemma_round_monotone(n1: nat, d1: nat, e1: int, n2: nat, d2: nat, e2: int)
    requires
        d1 > 0,
        d2 > 0,
        units_num(n1, e1) * units_den(d2, e2) <= units_num(n2, e2) * units_den(d1, e1),
    ensures
        round_magnitude(n1, d1, e1) <= round_magnitude(n2, d2, e2),
{
    let a1 = units_num(n1, e1);
    let b1 = units_den(d1, e1);
    let a2 = units_num(n2, e2);
    let b2 = units_den(d2, e2);
    lemma_units_den_pos(d1, e1);
    lemma_units_den_pos(d2, e2);
    lemma_pow2_values();
    lemma_floor_monotone(a1, b1, a2, b2);
    let i1 = a1 / b1;
    let i2 = a2 / b2;
    lemma_bit_length_monotone(i1, i2);
    let k1 = positive_part(bit_length(i1) - 53);
    let k2 = positive_part(bit_length(i2) - 53);
    let w1 = pow2(k1);
    let w2 = pow2(k2);
    lemma_pow2_pos(k1);
    lemma_pow2_pos(k2);
    assert(b1 * w1 > 0 && b2 * w2 > 0) by (nonlinear_arith)
        requires
            b1 > 0,
            b2 > 0,
            w1 > 0,
            w2 > 0,
    ;
    if k1 == k2 {
        assert(a1 * (b2 * w2) <= a2 * (b1 * w1)) by (nonlinear_arith)
            requires
                a1 * b2 <= a2 * b1,
                w1 == w2,
                w1 > 0,
        ;
        lemma_round_half_even_monotone(a1, b1 * w1, a2, b2 * w2);
    } else {
        lemma_rounded_at_most(a1, b1);
        lemma_rounded_at_least(a2, b2);
    }
}

/// The rounded mantissa is at most `2^53`.
pub proof fn lemma_rounded_at_most(a: nat, b: nat)
    requires
        b > 0,
    ensures
        round_half_even(a, b * pow2(positive_part(bit_length(a / b) - 53))) <= 0x20_0000_0000_0000,
{
    let i = a / b;
    let k = positive_part(bit_length(i) - 53);
    let w = pow2(k);
    lemma_pow2_values();
    lemma_pow2_pos(k);
    lemma_bit_length_bounds(i);
    lemma_pow2_adds(53, k);
    if bit_length(i) < 53 + k {
        lemma_pow2_strictly_increases(bit_length(i), 53 + k);
    }
    assert(i < 0x20_0000_0000_0000 * w);
    lemma_fundamental_div_mod(a as int, b as int);
    lemma_div_pos_is_pos(a as int, b as int);
    assert(b * w > 0) by (nonlinear_arith)
        requires
            b > 0,
            w > 0,
    ;
    let q = (a as int) / ((b * w) as int);
    lemma_fundamental_div_mod(a as int, (b * w) as int);
    lemma_div_pos_is_pos(a as int, (b * w) as int);
    assert(q < 0x20_0000_0000_0000) by (nonlinear_arith)
        requires
            a == (b * w) * q + (a as int) % ((b * w) as int),
            0 <= (a as int) % ((b * w) as int),
            a == b * i + (a as int) % (b as int),
            (a as int) % (b as int) < b,
            i < 0x20_0000_0000_0000 * w,
            b > 0,
            w > 0,
            q >= 0,
    ;
}

/// Where digits are rounded away, the rounded mantissa is at least `2^52`.
pub proof fn lemma_rounded_at_least(a: nat, b: nat)
    requires
        b > 0,
        bit_length(a / b) > 53,
    ensures
        round_half_even(a, b * pow2(positive_part(bit_length(a / b) - 53))) >= HIDDEN_BIT,
{
    let i = a / b;
    let k = positive_part(bit_length(i) - 53);
    let w = pow2(k);
    lemma_pow2_values();
    lemma_pow2_pos(k);
    lemma_bit_length_bounds(i);
    lemma_pow2_adds(52, k);
    assert(i >= 0x10_0000_0000_0000 * w);
    lemma_fundamental_div_mod(a as int, b as int);
    lemma_div_pos_is_pos(a as int, b as int);
    assert(b * w > 0) by (nonlinear_arith)
        requires
            b > 0,
            w > 0,
    ;
    let q = (a as int) / ((b * w) as int);
    lemma_fundamental_div_mod(a as int, (b * w) as int);
    lemma_div_pos_is_pos(a as int, (b * w) as int);
    assert(q >= 0x10_0000_0000_0000) by (nonlinear_arith)
        requires
            a == (b * w) * q + (a as int) % ((b * w) as int),
            (a as int) % ((b * w) as int) < b * w,
            a == b * i + (a as int) % (b as int),
            0 <= (a as int) % (b as int),
            i >= 0x10_0000_0000_0000 * w,
            b > 0,
            w > 0,
    ;
}

/// Two inequalities between multiples of powers of two are equivalent if their
/// exponents differ by the same amount.
pub proof fn lemma_pow2_order_shift(m1: nat, a: nat, m2: nat, b: nat, l: nat, r: nat)
    requires
        l - r == a - b,
        m1 * pow2(a) <= m2 * pow2(b),
    ensures
        m1 * pow2(l) <= m2 * pow2(r),
{
    lemma_pow2_pos(a);
    lemma_pow2_pos(b);
    lemma_pow2_pos(l);
    lemma_pow2_pos(r);
    if a >= b {
        let delta = (a - b) as nat;
        lemma_pow2_adds(delta, b);
        lemma_pow2_adds(delta, r);
        lemma_pow2_pos(delta);
        assert(m1 * pow2(l) <= m2 * pow2(r)) by (nonlinear_arith)
            requires
                m1 * pow2(a) <= m2 * pow2(b),
                pow2(a) == pow2(delta) * pow2(b),
                pow2(l) == pow2(delta) * pow2(r),
                pow2(b) > 0,
                pow2(r) > 0,
                pow2(delta) > 0,
        ;
    } else {
        let delta = (b - a) as nat;
        lemma_pow2_adds(delta, a);
        lemma_pow2_adds(delta, l);
        lemma_pow2_pos(delta);
        assert(m1 * pow2(l) <= m2 * pow2(r)) by (nonlinear_arith)
            requires
                m1 * pow2(a) <= m2 * pow2(b),
                pow2(b) == pow2(delta) * pow2(a),
                pow2(r) == pow2(delta) * pow2(l),
                pow2(a) > 0,
                pow2(l) > 0,
                pow2(delta) > 0,
        ;
    }
}

/// Of two finite numbers, the one with the smaller encoded magnitude has the smaller
/// magnitude.
pub proof fn lemma_magnitude_order(x: Scalar, y: Scalar)
    requires
        x.is_finite(),
        y.is_finite(),
        x.magnitude() <= y.magnitude(),
    ensures
        x.mantissa() * pow2((x.exponent() + 1074) as nat) <= y.mantissa() * pow2(
            (y.exponent() + 1074) as nat,
        ),
{
    let ex = (x.exponent() + 1074) as nat;
    let ey = (y.exponent() + 1074) as nat;
    let mx = x.mantissa();
    let my = y.mantissa();
    lemma_pow2_values();
    lemma_pow2_pos(ex);
    lemma_pow2_pos(ey);
    assert(x.biased_exponent() <= y.biased_exponent());
    if ex == ey {
        assert(mx <= my);
        assert(mx * pow2(ex) <= my * pow2(ey)) by (nonlinear_arith)
            requires
                mx <= my,
                ex == ey,
        ;
    } else {
        assert(ex < ey);
        assert(my >= HIDDEN_BIT);
        assert(mx < 2 * HIDDEN_BIT);
        lemma_pow2_adds(1, ex);
        if ex + 1 < ey {
            lemma_pow2_strictly_increases(ex + 1, ey);
        }
        assert(mx * pow2(ex) <= my * pow2(ey)) by (nonlinear_arith)
            requires
                mx < 2 * HIDDEN_BIT,
                my >= HIDDEN_BIT,
                2 * pow2(ex) <= pow2(ey),
                pow2(ex) > 0,
        ;
    }
}

/// Dividing by a number that is not negative keeps the order: of two numbers, the
/// smaller does not give the larger quotient.
#[verifier::rlimit(40)]
pub proof fn lemma_quotient_monotone(x: Scalar, y: Scalar, a: Scalar)
    requires
        x.le(y),
        !a.is_negative(),
    ensures
        !y.quotient(a).lt(x.quotient(a)),
{
    reveal(Scalar::quotient);
    lemma_pow2_values();
    if !a.is_nan() && a.is_finite() && !a.is_zero() && x.is_finite() && y.is_finite() {
        let c = a.exponent();
        let d = a.mantissa();
        assert(d > 0);
        let rx = round_magnitude(x.mantissa(), d, x.exponent() - c);
        let ry = round_magnitude(y.mantissa(), d, y.exponent() - c);
        if x.is_negative() == y.is_negative() {
            if x.is_negative() {
                lemma_magnitude_order(y, x);
                lemma_shifted_order(y.mantissa(), y.exponent(), x.mantissa(), x.exponent(), d, c);
                lemma_round_monotone(
                    y.mantissa(),
                    d,
                    y.exponent() - c,
                    x.mantissa(),
                    d,
                    x.exponent() - c,
                );
            } else {
                lemma_magnitude_order(x, y);
                lemma_shifted_order(x.mantissa(), x.exponent(), y.mantissa(), y.exponent(), d, c);
                lemma_round_monotone(
                    x.mantissa(),
                    d,
                    x.exponent() - c,
                    y.mantissa(),
                    d,
                    y.exponent() - c,
                );
            }
        } else if !x.is_negative() {
            assert(x.is_zero() && y.is_zero());
            crate::rounding::lemma_round_zero(d, x.exponent() - c);
            crate::rounding::lemma_round_zero(d, y.exponent() - c);
        }
    }
}

/// The order of two magnitudes is the order of their ratios to a third.
pub proof fn lemma_shifted_order(m1: nat, e1: int, m2: nat, e2: int, d: nat, c: int)
    requires
        e1 >= -1074,
        e2 >= -1074,
        d > 0,
        m1 * pow2((e1 + 1074) as nat) <= m2 * pow2((e2 + 1074) as nat),
    ensures
        units_num(m1, e1 - c) * units_den(d, e2 - c) <= units_num(m2, e2 - c) * units_den(d, e1 - c),
{
    let big1 = e1 - c + 1074;
    let big2 = e2 - c + 1074;
    let u1 = positive_part(big1);
    let v1 = positive_part(-big1);
    let u2 = positive_part(big2);
    let v2 = positive_part(-big2);
    lemma_pow2_order_shift(m1, (e1 + 1074) as nat, m2, (e2 + 1074) as nat, u1 + v2, u2 + v1);
    lemma_pow2_adds(u1, v2);
    lemma_pow2_adds(u2, v1);
    let p1 = pow2(u1);
    let q1 = pow2(v1);
    let p2 = pow2(u2);
    let q2 = pow2(v2);
    assert((m1 * p1) * (d * q2) <= (m2 * p2) * (d * q1)) by (nonlinear_arith)
        requires
            m1 * (p1 * q2) <= m2 * (p2 * q1),
            d > 0,
    ;
}

/// Of two multiples of `2^e`, the smaller does not round to the larger number.
pub proof fn lemma_signed_round_monotone(t1: int, t2: int, e: int, z1: bool, z2: bool)
    requires
        t1 <= t2,
    ensures
        !Scalar::signed_round(t2, e, z2).lt(Scalar::signed_round(t1, e, z1)),
{
    lemma_pow2_values();
    let up = pow2(positive_part(e + 1074));
    let down = pow2(positive_part(-(e + 1074)));
    if t1 > 0 {
        assert((t1 * up) * (1 * down) <= (t2 * up) * (1 * down)) by (nonlinear_arith)
            requires
                0 < t1 <= t2,
                up >= 0,
                down >= 0,
        ;
        lemma_round_monotone(t1 as nat, 1, e, t2 as nat, 1, e);
    } else if t2 < 0 {
        assert(((-t2) * up) * (1 * down) <= ((-t1) * up) * (1 * down)) by (nonlinear_arith)
            requires
                t1 <= t2 < 0,
                up >= 0,
                down >= 0,
        ;
        lemma_round_monotone((-t2) as nat, 1, e, (-t1) as nat, 1, e);
    }
}

/// Adding a number that is not negative gives no less than subtracting it.
#[verifier::rlimit(40)]
pub proof fn lemma_sum_spread(h: Scalar, s: Scalar)
    requires
        !s.is_nan(),
        s.key() >= 0,
    ensures
        !h.sum(s).lt(h.difference(s)),
{
    reveal(Scalar::sum);
    lemma_pow2_values();
    let o = s.opposite();
    assert(o.magnitude() == s.magnitude());
    assert(o.mantissa() == s.mantissa() && o.exponent() == s.exponent());
    if !h.is_nan() && h.is_finite() && s.is_finite() {
        let e = if h.exponent() <= s.exponent() {
            h.exponent()
        } else {
            s.exponent()
        };
        let ph = pow2((h.exponent() - e) as nat);
        let ps = pow2((s.exponent() - e) as nat);
        lemma_pow2_pos((s.exponent() - e) as nat);
        let hm = h.signed_mantissa();
        let sm = s.signed_mantissa();
        let om = o.signed_mantissa();
        assert(sm >= 0);
        assert(om == -sm);
        assert(hm * ph + om * ps <= hm * ph + sm * ps) by (nonlinear_arith)
            requires
                sm >= 0,
                om == -sm,
                ps > 0,
        ;
        lemma_signed_round_monotone(
            hm * ph + om * ps,
            hm * ph + sm * ps,
            e,
            h.is_negative() && o.is_negative(),
            h.is_negative() && s.is_negative(),
        );
    }
}

/// A square root is a NaN or not negative.
pub proof fn lemma_root_sign(x: Scalar)
    ensures
        x.root().is_nan() || x.root().key() >= 0,
{
    reveal(Scalar::root);
}

/// A sum of two numbers whose sign bits are clear has its sign bit clear.
pub proof fn lemma_sum_sign(x: Scalar, y: Scalar)
    requires
        !x.is_negative(),
        !y.is_negative(),
    ensures
        !x.sum(y).is_negative(),
{
    reveal(Scalar::sum);
    if !x.is_nan() && !y.is_nan() && x.is_finite() && y.is_finite() {
        let e = if x.exponent() <= y.exponent() {
            x.exponent()
        } else {
            y.exponent()
        };
        let px = pow2((x.exponent() - e) as nat);
        let py = pow2((y.exponent() - e) as nat);
        assert(x.signed_mantissa() * px + y.signed_mantissa() * py >= 0) by (nonlinear_arith)
            requires
                x.signed_mantissa() >= 0,
                y.signed_mantissa() >= 0,
                px >= 0,
                py >= 0,
        ;
        assert(round_magnitude(
            (x.signed_mantissa() * px + y.signed_mantissa() * py) as nat,
            1,
            e,
        ) <= INFINITY_BITS);
    }
}

/// A square has its sign bit clear.
pub proof fn lemma_square_sign(x: Scalar)
    ensures
        !x.product(x).is_negative(),
{
    reveal(Scalar::product);
}

/// The quotient of a NaN is a NaN.
pub proof fn lemma_quotient_of_nan(x: Scalar, a: Scalar)
    requires
        x.is_nan(),
    ensures
        x.quotient(a).is_nan(),
{
    reveal(Scalar::quotient);
}

/// A sum or difference with a NaN is a NaN.
pub proof fn lemma_sum_with_nan(h: Scalar, s: Scalar)
    requires
        s.is_nan(),
    ensures
        h.sum(s).is_nan(),
        h.difference(s).is_nan(),
{
    reveal(Scalar::sum);
    assert(s.opposite().magnitude() == s.magnitude());
}

/// With `s` a NaN or not negative and `a` not negative, `(h + s) / a` is not below
/// `(h - s) / a`.
pub proof fn lemma_spread_quotients(h: Scalar, s: Scalar, a: Scalar)
    requires
        s.is_nan() || s.key() >= 0,
        !a.is_negative(),
    ensures
        !h.sum(s).quotient(a).lt(h.difference(s).quotient(a)),
{
    let low = h.difference(s);
    let high = h.sum(s);
    if s.is_nan() {
        lemma_sum_with_nan(h, s);
        lemma_quotient_of_nan(low, a);
    } else {
        lemma_sum_spread(h, s);
        if low.is_nan() {
            lemma_quotient_of_nan(low, a);
        } else if high.is_nan() {
            lemma_quotient_of_nan(high, a);
        } else {
            lemma_quotient_monotone(low, high, a);
        }
    }
}

/// A sum of three squares has its sign bit clear.
pub proof fn lemma_squares_sign(x: Scalar, y: Scalar, z: Scalar)
    ensures
        !x.product(x).sum(y.product(y)).sum(z.product(z)).is_negative(),
{
    lemma_square_sign(x);
    lemma_square_sign(y);
    lemma_square_sign(z);
    lemma_sum_sign(x.product(x), y.product(y));
    lemma_sum_sign(x.product(x).sum(y.product(y)), z.product(z));
}

/// 1 less a number that is not negative is not above 1.
#[verifier::rlimit(40)]
pub proof fn lemma_difference_below_one(q: Scalar)
    requires
        !q.is_negative(),
    ensures
        !Scalar::of_bits(ONE_BITS).lt(Scalar::of_bits(ONE_BITS).difference(q)),
{
    reveal(Scalar::sum);
    lemma_pow2_values();
    let one = Scalar::of_bits(ONE_BITS);
    let o = q.opposite();
    assert(o.magnitude() == q.magnitude() && o.is_negative());
    assert(one.mantissa() == HIDDEN_BIT && one.exponent() == -52 && !one.is_negative()
        && one.is_finite() && one.magnitude() == ONE_BITS);
    if !q.is_nan() && q.is_finite() {
        let e = if one.exponent() <= o.exponent() {
            one.exponent()
        } else {
            o.exponent()
        };
        let j = (one.exponent() - e) as nat;
        let t1 = one.mantissa() * pow2(j);
        let sub = o.mantissa() * pow2((o.exponent() - e) as nat);
        let total = one.signed_mantissa() * pow2(j) + o.signed_mantissa() * pow2(
            (o.exponent() - e) as nat,
        );
        assert(total == t1 - sub && sub >= 0) by (nonlinear_arith)
            requires
                total == one.signed_mantissa() * pow2(j) + o.signed_mantissa() * pow2(
                    (o.exponent() - e) as nat,
                ),
                one.signed_mantissa() == one.mantissa(),
                o.signed_mantissa() == -(o.mantissa() as int),
                t1 == one.mantissa() * pow2(j),
                sub == o.mantissa() * pow2((o.exponent() - e) as nat),
                pow2((o.exponent() - e) as nat) >= 0,
        ;
        if total > 0 {
            let up = pow2(positive_part(e + 1074));
            let down = pow2(positive_part(-(e + 1074)));
            assert((total * up) * (1 * down) <= (t1 * up) * (1 * down)) by (nonlinear_arith)
                requires
                    0 < total <= t1,
                    up >= 0,
                    down >= 0,
            ;
            lemma_round_monotone(total as nat, 1, e, t1 as nat, 1, e);
            crate::exact::lemma_round_shifted_identity(one, j);
        }
    }
}

/// The square root of a number that is not above 1 is not above 1.
#[verifier::rlimit(40)]
pub proof fn lemma_root_below_one(g: Scalar)
    requires
        !Scalar::of_bits(ONE_BITS).lt(g),
    ensures
        !Scalar::of_bits(ONE_BITS).lt(g.root()),
{
    reveal(Scalar::root);
    lemma_pow2_values();
    let one = Scalar::of_bits(ONE_BITS);
    assert(one.mantissa() == HIDDEN_BIT && one.exponent() == -52 && !one.is_negative()
        && one.is_finite() && one.magnitude() == ONE_BITS);
    if !g.is_nan() && !g.is_zero() && !g.is_negative() {
        assert(g.magnitude() <= ONE_BITS);
        lemma_magnitude_order(g, one);
        let m = g.mantissa();
        let a = pow2((g.exponent() + 1074) as nat);
        let unit = pow2(1074);
        lemma_pow2_adds(52, 1022);
        lemma_pow2_adds((g.exponent() + 1074) as nat, 1074);
        lemma_pow2_adds(1074, 1074);
        let u = m * pow2((g.exponent() + 2148) as nat);
        assert(u == (m * a) * unit && (m * a) * unit <= unit * unit) by (nonlinear_arith)
            requires
                u == m * pow2((g.exponent() + 2148) as nat),
                pow2((g.exponent() + 2148) as nat) == a * unit,
                m * a <= HIDDEN_BIT * pow2(1022),
                HIDDEN_BIT * pow2(1022) == unit,
                unit >= 0,
        ;
        crate::root::lemma_integer_sqrt(u);
        let i = crate::root::integer_sqrt(u);
        assert(i <= unit) by (nonlinear_arith)
            requires
                i * i <= u,
                u <= unit * unit,
                i >= 0,
                unit >= 0,
        ;
        lemma_bit_length_bounds(i);
        let b = bit_length(i);
        let k = positive_part(b - 53);
        let w = pow2(k);
        lemma_pow2_pos(k);
        let q = i / w;
        lemma_fundamental_div_mod(i as int, w as int);
        lemma_div_pos_is_pos(i as int, w as int);
        if i == unit {
            lemma_pow2_strictly_increases(1074, 1075);
            crate::rounding::lemma_bit_length_unique(i, 1075);
            assert(u == unit * unit);
            lemma_pow2_adds(52, 1022);
            assert(k == 1022);
            vstd::arithmetic::div_mod::lemma_fundamental_div_mod_converse(
                i as int,
                w as int,
                HIDDEN_BIT as int,
                0,
            );
            let mid = (2 * q + 1) * w;
            assert(4 * u < mid * mid) by (nonlinear_arith)
                requires
                    u == unit * unit,
                    unit == q * w,
                    mid == (2 * q + 1) * w,
                    w > 0,
                    q > 0,
            ;
        } else {
            if b > 1074 {
                if b > 1075 {
                    lemma_pow2_strictly_increases(1074, (b - 1) as nat);
                }
            }
            assert(b <= 1074);
            lemma_pow2_adds(53, k);
            if b < 53 + k {
                lemma_pow2_strictly_increases(b, 53 + k);
            }
            assert(q < 0x20_0000_0000_0000) by (nonlinear_arith)
                requires
                    i == w * q + (i as int) % (w as int),
                    0 <= (i as int) % (w as int),
                    i < 0x20_0000_0000_0000 * w,
                    w > 0,
                    q >= 0,
            ;
        }
    }
}

/// The square root of 1 is 1.
pub proof fn lemma_root_of_one()
    ensures
        Scalar::of_bits(ONE_BITS).root() == Scalar::of_bits(ONE_BITS),
{
    reveal(Scalar::root);
    lemma_pow2_values();
    let one = Scalar::of_bits(ONE_BITS);
    assert(one.mantissa() == HIDDEN_BIT && one.exponent() == -52 && !one.is_negative()
        && one.is_finite() && one.magnitude() == ONE_BITS);
    let unit = pow2(1074);
    let w = pow2(1022);
    lemma_pow2_adds(52, 2096);
    lemma_pow2_adds(1074, 1074);
    lemma_pow2_adds(52, 1022);
    lemma_pow2_pos(1022);
    lemma_pow2_strictly_increases(1074, 1075);
    let u = one.mantissa() * pow2(2096);
    assert(u == unit * unit);
    assert(unit * unit <= u && u < (unit + 1) * (unit + 1)) by (nonlinear_arith)
        requires
            u == unit * unit,
            unit >= 0,
    ;
    crate::root::lemma_integer_sqrt_unique(u, unit);
    crate::rounding::lemma_bit_length_unique(unit, 1075);
    vstd::arithmetic::div_mod::lemma_fundamental_div_mod_converse(
        unit as int,
        w as int,
        HIDDEN_BIT as int,
        0,
    );
    let q = unit / w;
    let mid = (2 * q + 1) * w;
    assert(4 * u < mid * mid) by (nonlinear_arith)
        requires
            u == unit * unit,
            unit == q * w,
            mid == (2 * q + 1) * w,
            w > 0,
            q > 0,
    ;
}

impl Scalar {
    /// The value of a finite number, counted in units of `2^-1074`: every finite
    /// binary64 number is a whole number of these.
    pub open spec fn units(self) -> int {
        self.signed_mantissa() * pow2((self.exponent() + 1074) as nat)
    }
}

/// Of two finite numbers, the one with the strictly smaller encoded magnitude has the
/// strictly smaller magnitude.
pub proof fn lemma_magnitude_order_strict(x: Scalar, y: Scalar)
    requires
        x.is_finite(),
        y.is_finite(),
        x.magnitude() < y.magnitude(),
    ensures
        x.mantissa() * pow2((x.exponent() + 1074) as nat) < y.mantissa() * pow2(
            (y.exponent() + 1074) as nat,
        ),
{
    let ex = (x.exponent() + 1074) as nat;
    let ey = (y.exponent() + 1074) as nat;
    let mx = x.mantissa();
    let my = y.mantissa();
    lemma_pow2_values();
    lemma_pow2_pos(ex);
    lemma_pow2_pos(ey);
    assert(x.biased_exponent() <= y.biased_exponent());
    if ex == ey {
        assert(mx < my);
        assert(mx * pow2(ex) < my * pow2(ey)) by (nonlinear_arith)
            requires
                mx < my,
                ex == ey,
                pow2(ex) > 0,
        ;
    } else {
        assert(ex < ey);
        lemma_pow2_adds(1, ex);
        if ex + 1 < ey {
            lemma_pow2_strictly_increases(ex + 1, ey);
        }
        assert(mx * pow2(ex) < my * pow2(ey)) by (nonlinear_arith)
            requires
                mx < 2 * HIDDEN_BIT,
                my >= HIDDEN_BIT,
                2 * pow2(ex) <= pow2(ey),
                pow2(ex) > 0,
        ;
    }
}

/// The order of the encodings is the order of the values: one finite number is less
/// than another exactly when its value is, and equal to it exactly when their values
/// are equal.
#[verifier::rlimit(40)]
pub proof fn lemma_order_is_value_order(x: Scalar, y: Scalar)
    requires
        x.is_finite(),
        y.is_finite(),
    ensures
        x.lt(y) <==> x.units() < y.units(),
        x.le(y) <==> x.units() <= y.units(),
        x.same(y) <==> x.units() == y.units(),
{
    let vx: int = (x.mantissa() * pow2((x.exponent() + 1074) as nat)) as int;
    let vy: int = (y.mantissa() * pow2((y.exponent() + 1074) as nat)) as int;
    lemma_pow2_pos((x.exponent() + 1074) as nat);
    lemma_pow2_pos((y.exponent() + 1074) as nat);
    if x.magnitude() < y.magnitude() {
        lemma_magnitude_order_strict(x, y);
    } else if y.magnitude() < x.magnitude() {
        lemma_magnitude_order_strict(y, x);
    } else {
        assert(x.mantissa() == y.mantissa() && x.exponent() == y.exponent());
    }
    assert(x.units() == (if x.is_negative() { -vx } else { vx })) by (nonlinear_arith)
        requires
            x.units() == x.signed_mantissa() * pow2((x.exponent() + 1074) as nat),
            vx == x.mantissa() * pow2((x.exponent() + 1074) as nat),
            x.signed_mantissa() == (if x.is_negative() {
                -(x.mantissa() as int)
            } else {
                x.mantissa() as int
            }),
    ;
    assert(y.units() == (if y.is_negative() { -vy } else { vy })) by (nonlinear_arith)
        requires
            y.units() == y.signed_mantissa() * pow2((y.exponent() + 1074) as nat),
            vy == y.mantissa() * pow2((y.exponent() + 1074) as nat),
            y.signed_mantissa() == (if y.is_negative() {
                -(y.mantissa() as int)
            } else {
                y.mantissa() as int
            }),
    ;
    assert(vx >= 0 && vy >= 0) by (nonlinear_arith)
        requires
            vx == x.mantissa() * pow2((x.exponent() + 1074) as nat),
            vy == y.mantissa() * pow2((y.exponent() + 1074) as nat),
            pow2((x.exponent() + 1074) as nat) > 0,
            pow2((y.exponent() + 1074) as nat) > 0,
    ;
    assert((x.magnitude() == 0) == (vx == 0)) by (nonlinear_arith)
        requires
            vx == x.mantissa() * pow2((x.exponent() + 1074) as nat),
            pow2((x.exponent() + 1074) as nat) > 0,
            (x.magnitude() == 0) == (x.mantissa() == 0),
    ;
    assert((y.magnitude() == 0) == (vy == 0)) by (nonlinear_arith)
        requires
            vy == y.mantissa() * pow2((y.exponent() + 1074) as nat),
            pow2((y.exponent() + 1074) as nat) > 0,
            (y.magnitude() == 0) == (y.mantissa() == 0),
    ;
}

} // verus!
