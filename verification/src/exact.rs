//! Operations whose result needs no rounding.
use vstd::prelude::*;
use vstd::arithmetic::power2::{
    pow2, lemma_pow2_pos, lemma_pow2_adds, lemma_pow2_strictly_increases,
};
use crate::scalar::{Scalar, HIDDEN_BIT, INFINITY_BITS, ONE_BITS, TWO_BITS, SIGN_BIT};
use crate::rounding::{
    bit_length, round_magnitude, lemma_round_dyadic, lemma_round_zero, lemma_round_exponent_up,
    lemma_bit_length_unique, lemma_pow2_values, lemma_round_proportional, units_num, units_den,
};

verus! {

/// A finite number is the rounding of its own value.
pub proof fn lemma_round_identity(x: Scalar)
    requires
        x.is_finite(),
    ensures
        round_magnitude(x.mantissa(), 1, x.exponent()) == x.magnitude(),
{
    let m = x.mantissa();
    let e = x.exponent();
    lemma_pow2_values();
    if m == 0 {
        lemma_round_zero(1, e);
    } else {
        lemma_round_dyadic(m, e);
        if x.biased_exponent() == 0 {
            crate::rounding::lemma_bit_length_bounds(m);
            if bit_length(m) > 52 {
                if bit_length(m) > 53 {
                    lemma_pow2_strictly_increases(52, (bit_length(m) - 1) as nat);
                }
            }
            assert(bit_length(m) <= 52);
            assert(m * pow2(0) == m) by (nonlinear_arith)
                requires
                    pow2(0) == 1,
            ;
        } else {
            lemma_bit_length_unique(m, 53);
            assert(m * pow2(0) == m) by (nonlinear_arith)
                requires
                    pow2(0) == 1,
            ;
        }
    }
}

/// A multiple `m * 2^j` of a power of two, taken at an exponent lowered by `j`,
/// rounds like `m` itself.
pub proof fn lemma_round_shifted_identity(x: Scalar, j: nat)
    requires
        x.is_finite(),
    ensures
        round_magnitude(x.mantissa() * pow2(j), 1, x.exponent() - j) == x.magnitude(),
{
    lemma_round_exponent_up(x.mantissa(), 1, x.exponent() - j, j);
    lemma_round_identity(x);
}

/// The product of a finite number and a zero is a zero.
pub proof fn lemma_product_zero(x: Scalar, z: Scalar)
    requires
        x.is_finite(),
        z.is_zero(),
    ensures
        x.product(z).is_zero(),
        z.product(x).is_zero(),
{
    reveal(Scalar::product);
    assert(x.mantissa() * z.mantissa() == 0 && z.mantissa() * x.mantissa() == 0) by (nonlinear_arith)
        requires
            z.mantissa() == 0,
    ;
    lemma_round_zero(1, x.exponent() + z.exponent());
    lemma_round_zero(1, z.exponent() + x.exponent());
}

/// Adding a zero changes no value; a number that is not zero is not changed at all.
#[verifier::rlimit(40)]
pub proof fn lemma_sum_zero(y: Scalar, z: Scalar)
    requires
        z.is_zero(),
    ensures
        y.sum(z).agrees(y),
        z.sum(y).agrees(y),
        !y.is_nan() && !y.is_zero() ==> y.sum(z) == y && z.sum(y) == y,
{
    reveal(Scalar::sum);
    lemma_pow2_values();
    if !y.is_nan() && y.is_finite() {
        let e = z.exponent();
        assert(e == -1074);
        let j = (y.exponent() - e) as nat;
        let p = pow2(j);
        lemma_pow2_pos(j);
        let m = y.mantissa();
        assert(z.signed_mantissa() * pow2(0) == 0) by (nonlinear_arith)
            requires
                z.signed_mantissa() == 0,
        ;
        assert((-(m as int)) * p == -(m * p)) by (nonlinear_arith);
        if m > 0 {
            assert(m * p > 0) by (nonlinear_arith)
                requires
                    m > 0,
                    p > 0,
            ;
            lemma_round_shifted_identity(y, j);
            assert(y.exponent() - j == e);
        } else {
            assert(m * p == 0) by (nonlinear_arith)
                requires
                    m == 0,
            ;
        }
    }
}

/// Subtracting a zero changes no value; a number that is not zero is not changed at
/// all.
pub proof fn lemma_difference_zero(y: Scalar, z: Scalar)
    requires
        z.is_zero(),
    ensures
        y.difference(z).agrees(y),
        !y.is_nan() && !y.is_zero() ==> y.difference(z) == y,
{
    lemma_sum_zero(y, z.opposite());
}

/// A finite number less itself is the positive zero.
pub proof fn lemma_difference_self(x: Scalar)
    requires
        x.is_finite(),
    ensures
        x.difference(x) == Scalar::of_bits(0),
        x.sum(x.opposite()) == Scalar::of_bits(0),
        x.opposite().sum(x) == Scalar::of_bits(0),
{
    reveal(Scalar::sum);
    let o = x.opposite();
    assert(o.magnitude() == x.magnitude());
    let p = pow2(0);
    assert(x.signed_mantissa() * p + o.signed_mantissa() * p == 0 && o.signed_mantissa() * p
        + x.signed_mantissa() * p == 0) by (nonlinear_arith)
        requires
            o.signed_mantissa() == -x.signed_mantissa(),
    ;
}

/// Multiplying by 1 changes no value; a number is not changed at all.
#[verifier::rlimit(40)]
pub proof fn lemma_product_one(x: Scalar)
    ensures
        Scalar::of_bits(ONE_BITS).product(x).agrees(x),
        x.product(Scalar::of_bits(ONE_BITS)).agrees(x),
        !x.is_nan() ==> Scalar::of_bits(ONE_BITS).product(x) == x && x.product(
            Scalar::of_bits(ONE_BITS),
        ) == x,
{
    reveal(Scalar::product);
    lemma_pow2_values();
    let one = Scalar::of_bits(ONE_BITS);
    assert(one.mantissa() == HIDDEN_BIT && one.exponent() == -52 && !one.is_negative()
        && one.is_finite());
    if !x.is_nan() && x.is_finite() {
        lemma_round_shifted_identity(x, 52);
        assert(one.mantissa() * x.mantissa() == x.mantissa() * pow2(52) && x.mantissa()
            * one.mantissa() == x.mantissa() * pow2(52)) by (nonlinear_arith)
            requires
                one.mantissa() == pow2(52),
        ;
    }
}

/// Multiplying by -1 changes the sign and nothing else.
pub proof fn lemma_product_minus_one(x: Scalar)
    requires
        !x.is_nan(),
    ensures
        x.product(Scalar::of_bits(ONE_BITS).opposite()) == x.opposite(),
{
    reveal(Scalar::product);
    lemma_pow2_values();
    let minus = Scalar::of_bits(ONE_BITS).opposite();
    assert(minus.bits == ONE_BITS + SIGN_BIT);
    assert(minus.mantissa() == HIDDEN_BIT && minus.exponent() == -52 && minus.is_negative()
        && minus.is_finite());
    if x.is_finite() {
        lemma_round_shifted_identity(x, 52);
        assert(x.mantissa() * minus.mantissa() == x.mantissa() * pow2(52)) by (nonlinear_arith)
            requires
                minus.mantissa() == pow2(52),
        ;
    }
}

/// A positive zero over a number that is neither zero nor a NaN is a zero.
pub proof fn lemma_quotient_of_zero(z: Scalar, d: Scalar)
    requires
        z.is_zero(),
        !d.is_nan(),
        !d.is_zero(),
    ensures
        z.quotient(d).is_zero(),
{
    reveal(Scalar::quotient);
    if d.is_finite() {
        lemma_round_zero(d.mantissa(), z.exponent() - d.exponent());
    }
}

/// 1 + 1 = 2.
pub proof fn lemma_one_plus_one()
    ensures
        Scalar::of_bits(ONE_BITS).sum(Scalar::of_bits(ONE_BITS)) == Scalar::of_bits(TWO_BITS),
{
    reveal(Scalar::sum);
    lemma_pow2_values();
    let one = Scalar::of_bits(ONE_BITS);
    let two = Scalar::of_bits(TWO_BITS);
    assert(one.mantissa() == HIDDEN_BIT && one.exponent() == -52 && !one.is_negative()
        && one.is_finite());
    assert(two.mantissa() == HIDDEN_BIT && two.exponent() == -51 && two.is_finite());
    let total = one.signed_mantissa() * pow2(0) + one.signed_mantissa() * pow2(0);
    assert(total == two.mantissa() * pow2(1)) by (nonlinear_arith)
        requires
            total == one.signed_mantissa() * pow2(0) + one.signed_mantissa() * pow2(0),
            pow2(0) == 1,
            pow2(1) == 2,
            one.signed_mantissa() == two.mantissa(),
    ;
    lemma_round_shifted_identity(two, 1);
}

/// 1 / 1 = 1.
#[verifier::rlimit(40)]
pub proof fn lemma_one_over_one()
    ensures
        Scalar::of_bits(ONE_BITS).quotient(Scalar::of_bits(ONE_BITS)) == Scalar::of_bits(ONE_BITS),
{
    reveal(Scalar::quotient);
    lemma_pow2_values();
    let one = Scalar::of_bits(ONE_BITS);
    assert(one.mantissa() == HIDDEN_BIT && one.exponent() == -52 && !one.is_negative()
        && one.is_finite() && !one.is_zero());
    let m = one.mantissa();
    lemma_pow2_adds(1022, 52);
    let a = pow2(1074);
    let b = pow2(1022);
    assert((m * a) * (1 * 1) == (m * b) * (m * 1)) by (nonlinear_arith)
        requires
            a == b * m,
    ;
    assert(units_num(m, 0) == m * a);
    assert(units_den(1, -52) == 1 * pow2(0));
    assert(units_num(m, -52) == m * b);
    assert(units_den(m, 0) == m * pow2(0));
    assert(units_num(m, 0) * units_den(1, -52) == units_num(m, -52) * units_den(m, 0))
        by (nonlinear_arith)
        requires
            units_num(m, 0) == m * a,
            units_den(1, -52) == 1 * pow2(0),
            units_num(m, -52) == m * b,
            units_den(m, 0) == m * pow2(0),
            pow2(0) == 1,
            (m * a) * (1 * 1) == (m * b) * (m * 1),
    ;
    lemma_round_proportional(m, m, 0, m, 1, -52);
    lemma_round_identity(one);
}

/// Numbers that stand for the same value have quotients by a third that stand for the
/// same value.
pub proof fn lemma_quotient_agrees(x: Scalar, y: Scalar, d: Scalar)
    requires
        x.agrees(y),
    ensures
        x.quotient(d).agrees(y.quotient(d)),
{
    reveal(Scalar::quotient);
    if !x.is_nan() && !y.is_nan() && x.is_zero() && !d.is_nan() && d.is_finite() && !d.is_zero() {
        lemma_round_zero(d.mantissa(), x.exponent() - d.exponent());
        lemma_round_zero(d.mantissa(), y.exponent() - d.exponent());
    }
}

/// The square root of a zero is that zero.
pub proof fn lemma_root_of_zero(z: Scalar)
    requires
        z.is_zero(),
    ensures
        z.root() == z,
{
    reveal(Scalar::root);
}

/// A number and its opposite stand for opposite values.
pub proof fn lemma_opposite_mirrors(x: Scalar)
    ensures
        x.opposite().mirrors(x),
{
    assert(x.opposite().magnitude() == x.magnitude());
}

/// The product with the opposite of a number is the opposite of the product.
#[verifier::rlimit(40)]
pub proof fn lemma_product_mirrors(x: Scalar, y: Scalar, y2: Scalar)
    requires
        y2.mirrors(y),
    ensures
        x.product(y2).mirrors(x.product(y)),
        y2.product(x).mirrors(y.product(x)),
{
    reveal(Scalar::product);
    lemma_pow2_values();
    if !x.is_nan() && !y.is_nan() {
        assert(y2.magnitude() == y.magnitude());
        assert(y2.mantissa() == y.mantissa() && y2.exponent() == y.exponent());
        if x.is_finite() && y.is_finite() {
            let m = round_magnitude(x.mantissa() * y.mantissa(), 1, x.exponent() + y.exponent());
            let m2 = round_magnitude(y.mantissa() * x.mantissa(), 1, y.exponent() + x.exponent());
            assert(m <= INFINITY_BITS && m2 <= INFINITY_BITS);
            if y.is_zero() {
                assert(x.mantissa() * y.mantissa() == 0 && y.mantissa() * x.mantissa() == 0)
                    by (nonlinear_arith)
                    requires
                        y.mantissa() == 0,
                ;
                lemma_round_zero(1, x.exponent() + y.exponent());
                lemma_round_zero(1, y.exponent() + x.exponent());
            }
        }
    }
}

/// Opposite multiples of `2^e` round to opposite numbers.
pub proof fn lemma_signed_round_mirrors(total: int, e: int, z1: bool, z2: bool)
    ensures
        Scalar::signed_round(-total, e, z2).mirrors(Scalar::signed_round(total, e, z1)),
{
    if total > 0 {
        assert(round_magnitude(total as nat, 1, e) <= INFINITY_BITS);
    } else if total < 0 {
        assert(round_magnitude((-total) as nat, 1, e) <= INFINITY_BITS);
    }
}

/// The sum of the opposites of two numbers is the opposite of their sum.
#[verifier::rlimit(40)]
pub proof fn lemma_sum_mirrors(a: Scalar, a2: Scalar, b: Scalar, b2: Scalar)
    requires
        a2.mirrors(a),
        b2.mirrors(b),
    ensures
        a2.sum(b2).mirrors(a.sum(b)),
{
    reveal(Scalar::sum);
    if !a.is_nan() && !b.is_nan() && a.is_finite() && b.is_finite() {
        assert(a2.magnitude() == a.magnitude() && b2.magnitude() == b.magnitude());
        let e = a.common_exponent(b);
        let pa = pow2((a.exponent() - e) as nat);
        let pb = pow2((b.exponent() - e) as nat);
        assert(a2.aligned_total(b2) == -a.aligned_total(b)) by (nonlinear_arith)
            requires
                a.aligned_total(b) == a.signed_mantissa() * pa + b.signed_mantissa() * pb,
                a2.aligned_total(b2) == a2.signed_mantissa() * pa + b2.signed_mantissa() * pb,
                a2.signed_mantissa() == -a.signed_mantissa(),
                b2.signed_mantissa() == -b.signed_mantissa(),
        ;
        lemma_signed_round_mirrors(
            a.aligned_total(b),
            e,
            a.is_negative() && b.is_negative(),
            a2.is_negative() && b2.is_negative(),
        );
    }
}

} // verus!
