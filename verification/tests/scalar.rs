use raytracer::common::{degrees_to_radians, infinity, pi, random_f64, random_range_f64, range_sample, unit_sample};
use rand::rngs::StdRng;
use rand::{Rng, SeedableRng};
use raytracer::scalar::Scalar;

fn s(x: f64) -> Scalar {
    Scalar::from_bits(x.to_bits())
}

fn f(x: Scalar) -> f64 {
    f64::from_bits(x.to_bits())
}

fn samples() -> Vec<f64> {
    let mut v = vec![
        0.0,
        -0.0,
        1.0,
        -1.0,
        0.5,
        2.0,
        0.001,
        0.999,
        255.0,
        255.999,
        256.0,
        -3.25,
        2147483646.5,
        2147483647.5,
        -2147483648.5,
        1.0e10,
        -1.0e10,
        f64::MAX,
        f64::MIN_POSITIVE,
        f64::from_bits(1),
        f64::INFINITY,
        f64::NEG_INFINITY,
        f64::NAN,
    ];
    let mut state: u64 = 99;
    for _ in 0..2000 {
        state = state.wrapping_mul(6364136223846793005).wrapping_add(1442695040888963407);
        let a = (state >> 11) as f64 / 9007199254740992.0;
        state = state.wrapping_mul(6364136223846793005).wrapping_add(1442695040888963407);
        let scale = [1.0, 10.0, 300.0, 1.0e5, 5.0e9, 1.0e-3][(state >> 40) as usize % 6];
        v.push((a - 0.5) * scale);
    }
    v
}

#[test]
fn constants_have_the_encodings_of_their_values() {
    assert_eq!(f(Scalar::zero()), 0.0);
    assert_eq!(f(Scalar::one()), 1.0);
    assert_eq!(f(Scalar::two()), 2.0);
    assert_eq!(f(Scalar::half()), 0.5);
    assert_eq!(f(Scalar::infinity()), f64::INFINITY);
    assert_eq!(f(Scalar::neg_infinity()), f64::NEG_INFINITY);
    assert!(f(Scalar::nan()).is_nan());
    assert_eq!(f(infinity()), f64::INFINITY);
    assert_eq!(f(pi()), 3.1415926535897932385);
    assert_eq!(raytracer::common::HALF_TURN_BITS, 180.0f64.to_bits());
    assert_eq!(raytracer::vector::TINY_BITS, 1e-8f64.to_bits());
    assert_eq!(raytracer::vector::BRIGHTEST_BITS, 0.999f64.to_bits());
    assert_eq!(raytracer::vector::LEVELS_BITS, 256.0f64.to_bits());
    assert_eq!(raytracer::camera::NEAREST_BITS, 0.001f64.to_bits());
    assert_eq!(raytracer::camera::SKY_GREEN_BITS, 0.7f64.to_bits());
}

#[test]
fn classification_matches_hardware() {
    for &a in samples().iter() {
        assert_eq!(s(a).nan_test(), a.is_nan());
        assert_eq!(s(a).finite_test(), a.is_finite());
        assert_eq!(s(a).sign(), a.is_sign_negative());
    }
}

#[test]
fn comparisons_match_hardware() {
    let v = samples();
    for &a in v.iter().take(200) {
        for &b in v.iter().take(200) {
            assert_eq!(s(a).less(&s(b)), a < b, "{} < {}", a, b);
            assert_eq!(s(a).less_eq(&s(b)), a <= b, "{} <= {}", a, b);
            assert_eq!(s(a).greater(&s(b)), a > b, "{} > {}", a, b);
            assert_eq!(s(a).greater_eq(&s(b)), a >= b, "{} >= {}", a, b);
            assert_eq!(s(a).equals(&s(b)), a == b, "{} == {}", a, b);
        }
    }
}

#[test]
fn the_two_zeros_are_equal_and_a_nan_equals_nothing() {
    assert!(s(0.0).equals(&s(-0.0)));
    assert!(!s(0.0).less(&s(-0.0)));
    assert!(!s(f64::NAN).equals(&s(f64::NAN)));
    assert!(!s(f64::NAN).less_eq(&s(1.0)));
    assert!(!s(1.0).less_eq(&s(f64::NAN)));
}

#[test]
fn negation_and_absolute_value_match_hardware() {
    for &a in samples().iter() {
        assert_eq!(s(a).neg().to_bits(), (-a).to_bits());
        assert_eq!(s(a).abs().to_bits(), a.abs().to_bits());
    }
}

#[test]
fn minimum_matches_hardware() {
    let v = samples();
    for &a in v.iter().take(150) {
        for &b in v.iter().take(150) {
            let want = a.min(b);
            let got = f(s(a).min(&s(b)));
            assert!((want.is_nan() && got.is_nan()) || want == got, "min({}, {})", a, b);
        }
    }
    assert_eq!(f(s(f64::NAN).min(&s(2.0))), 2.0);
    assert_eq!(f(s(2.0).min(&s(f64::NAN))), 2.0);
    assert_eq!(f(s(1.5).min(&s(1.0))), 1.0);
}

#[test]
fn integers_convert_exactly() {
    for &n in [0, 1, -1, 2, 7, 255, 256, 399, 400, 1200, 65535, -65536, 16777217, i32::MAX, i32::MIN].iter() {
        assert_eq!(Scalar::from_i32(n).to_bits(), (n as f64).to_bits(), "{}", n);
    }
    let mut state: u64 = 5;
    for _ in 0..5000 {
        state = state.wrapping_mul(6364136223846793005).wrapping_add(1442695040888963407);
        let n = (state >> 32) as u32 as i32;
        assert_eq!(Scalar::from_i32(n).to_bits(), (n as f64).to_bits(), "{}", n);
    }
}

#[test]
fn bytes_are_cut_off_as_hardware_casts_do() {
    for &a in samples().iter() {
        assert_eq!(s(a).to_u8(), a as u8, "{}", a);
    }
    assert_eq!(s(255.999).to_u8(), 255);
    assert_eq!(s(255.744).to_u8(), 255);
    assert_eq!(s(0.999).to_u8(), 0);
    assert_eq!(s(128.5).to_u8(), 128);
    assert_eq!(s(-5.0).to_u8(), 0);
    assert_eq!(s(1000.0).to_u8(), 255);
    assert_eq!(s(f64::NAN).to_u8(), 0);
}

#[test]
fn rounding_to_whole_numbers_matches_hardware() {
    for &a in samples().iter() {
        assert_eq!(s(a).round_to_i32(), a.round() as i32, "{}", a);
    }
    assert_eq!(s(0.5).round_to_i32(), 1);
    assert_eq!(s(-0.5).round_to_i32(), -1);
    assert_eq!(s(0.49999999999999994).round_to_i32(), 0);
    assert_eq!(s(1.5).round_to_i32(), 2);
    assert_eq!(s(2.5).round_to_i32(), 3);
    assert_eq!(s(224.99999).round_to_i32(), 225);
    assert_eq!(s(3.0e9).round_to_i32(), i32::MAX);
    assert_eq!(s(-3.0e9).round_to_i32(), i32::MIN);
    assert_eq!(s(f64::NAN).round_to_i32(), 0);
}

#[test]
fn fractions_of_the_grid_are_exact() {
    for &w in [0u64, 1, 2, 3, 1 << 52, (1 << 53) - 1, 123456789, 4503599627370497].iter() {
        let want = (w as f64) * (1.0 / 9007199254740992.0);
        assert_eq!(Scalar::from_fraction(w).to_bits(), want.to_bits(), "{}", w);
    }
}

#[test]
fn a_random_word_gives_the_sample_of_its_upper_bits() {
    for &word in [0u64, 1, 2047, 2048, u64::MAX, 0x8000_0000_0000_0000, 0x0123_4567_89ab_cdef].iter() {
        let want = ((word >> 11) as f64) * (1.0 / 9007199254740992.0);
        assert_eq!(unit_sample(word).to_bits(), want.to_bits(), "{}", word);
        assert!(want >= 0.0 && want < 1.0);
    }
    assert_eq!(f(unit_sample(u64::MAX)), 1.0 - f64::EPSILON / 2.0);
    assert_eq!(f(unit_sample(1 << 63)), 0.5);
}

#[test]
fn random_numbers_lie_in_the_unit_interval_and_vary() {
    let first = f(random_f64());
    let mut differs = false;
    for _ in 0..2000 {
        let x = f(random_f64());
        assert!(x >= 0.0 && x < 1.0);
        if x != first {
            differs = true;
        }
    }
    assert!(differs);
}

#[test]
fn ranged_samples_follow_the_formula() {
    assert_eq!(f(range_sample(s(-1.0), s(1.0), s(0.25))), -0.5);
    assert_eq!(f(range_sample(s(2.0), s(6.0), s(0.5))), 4.0);
    assert_eq!(f(range_sample(s(0.5), s(1.0), s(0.0))), 0.5);
    let t = 0.337;
    assert_eq!(f(range_sample(s(0.1), s(0.7), s(t))), 0.1 + (0.7 - 0.1) * t);
    for _ in 0..1000 {
        let x = f(random_range_f64(s(-1.0), s(1.0)));
        assert!(x >= -1.0 && x < 1.0);
    }
}

#[test]
fn degrees_become_radians() {
    for &d in [0.0, 20.0, 45.0, 90.0, 180.0, 0.6, 0.3, 10.0].iter() {
        assert_eq!(f(degrees_to_radians(s(d))), d * 3.1415926535897932385 / 180.0);
    }
}

#[test]
fn unit_samples_are_the_numbers_the_generator_makes_of_its_words() {
    let mut words = StdRng::seed_from_u64(2024);
    let mut numbers = StdRng::seed_from_u64(2024);
    for _ in 0..10000 {
        let word: u64 = words.gen();
        let number: f64 = numbers.gen();
        assert_eq!(unit_sample(word).to_bits(), number.to_bits());
    }
}
