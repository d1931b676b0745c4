use raytracer::interval::Interval;
use raytracer::ray::Ray;
use raytracer::scalar::Scalar;
use raytracer::vector::{
    cross, dot, encode_channel, inside_unit, linear_to_gamma, random_in_unit_disk,
    random_in_unit_sphere, random_on_hemisphere, random_unit_vector, reflect, refract, toward,
    unit_vector, Vec3,
};

fn s(x: f64) -> Scalar {
    Scalar::from_bits(x.to_bits())
}

fn f(x: Scalar) -> f64 {
    f64::from_bits(x.to_bits())
}

fn v(x: f64, y: f64, z: f64) -> Vec3 {
    Vec3::new(s(x), s(y), s(z))
}

fn a(w: Vec3) -> [f64; 3] {
    [f(w.x()), f(w.y()), f(w.z())]
}

fn rdot(u: [f64; 3], w: [f64; 3]) -> f64 {
    u[0] * w[0] + u[1] * w[1] + u[2] * w[2]
}

fn rscale(u: [f64; 3], t: f64) -> [f64; 3] {
    [u[0] * t, u[1] * t, u[2] * t]
}

fn radd(u: [f64; 3], w: [f64; 3]) -> [f64; 3] {
    [u[0] + w[0], u[1] + w[1], u[2] + w[2]]
}

fn rsub(u: [f64; 3], w: [f64; 3]) -> [f64; 3] {
    [u[0] - w[0], u[1] - w[1], u[2] - w[2]]
}

fn runit(u: [f64; 3]) -> [f64; 3] {
    rscale(u, 1.0 / rdot(u, u).sqrt())
}

fn triples() -> Vec<[f64; 3]> {
    let mut out = vec![
        [0.0, 0.0, 0.0],
        [1.0, 0.0, 0.0],
        [0.0, 1.0, 0.0],
        [0.0, 0.0, -1.0],
        [1.0, 2.0, 3.0],
        [-4.0, 5.5, 0.25],
        [0.1, 0.2, 0.3],
        [13.0, 2.0, 3.0],
        [1.0e-9, -1.0e-9, 1.0e-9],
    ];
    let mut state: u64 = 77;
    for _ in 0..300 {
        let mut t = [0.0; 3];
        for c in t.iter_mut() {
            state = state.wrapping_mul(6364136223846793005).wrapping_add(1442695040888963407);
            *c = ((state >> 11) as f64 / 9007199254740992.0 - 0.5) * 20.0;
        }
        out.push(t);
    }
    out
}

#[test]
fn components_are_kept() {
    let w = v(1.0, -2.0, 3.5);
    assert_eq!(a(w), [1.0, -2.0, 3.5]);
    assert_eq!(a(Vec3::zero()), [0.0, 0.0, 0.0]);
}

#[test]
fn sums_differences_and_multiples_work_by_component() {
    let t = triples();
    for i in 0..t.len() - 1 {
        let (p, q) = (t[i], t[i + 1]);
        let (vp, vq) = (v(p[0], p[1], p[2]), v(q[0], q[1], q[2]));
        assert_eq!(a(vp.add(&vq)), radd(p, q));
        assert_eq!(a(vp.sub(&vq)), rsub(p, q));
        assert_eq!(a(vp.neg()), [-p[0], -p[1], -p[2]]);
        assert_eq!(a(vp.mul(s(q[0]))), rscale(p, q[0]));
        assert_eq!(a(vp.mul_vec(&vq)), [p[0] * q[0], p[1] * q[1], p[2] * q[2]]);
        let by = a(vp.div(s(q[1])));
        let want = rscale(p, 1.0 / q[1]);
        for k in 0..3 {
            assert!(by[k] == want[k] || (by[k].is_nan() && want[k].is_nan()));
        }
    }
}

#[test]
fn dot_and_cross_products_follow_their_formulas() {
    let t = triples();
    for i in 0..t.len() - 1 {
        let (p, q) = (t[i], t[i + 1]);
        let (vp, vq) = (v(p[0], p[1], p[2]), v(q[0], q[1], q[2]));
        assert_eq!(f(dot(&vp, &vq)), rdot(p, q));
        assert_eq!(
            a(cross(&vp, &vq)),
            [p[1] * q[2] - p[2] * q[1], p[2] * q[0] - p[0] * q[2], p[0] * q[1] - p[1] * q[0]]
        );
    }
    assert_eq!(f(dot(&v(1.0, 2.0, 3.0), &v(4.0, -5.0, 6.0))), 12.0);
    assert_eq!(a(cross(&v(1.0, 0.0, 0.0), &v(0.0, 1.0, 0.0))), [0.0, 0.0, 1.0]);
}

#[test]
fn lengths_follow_their_formulas() {
    for p in triples() {
        let vp = v(p[0], p[1], p[2]);
        assert_eq!(f(vp.length_squared()), rdot(p, p));
        assert_eq!(f(vp.length()), rdot(p, p).sqrt());
    }
    assert_eq!(f(v(3.0, 4.0, 0.0).length()), 5.0);
    assert_eq!(f(v(1.0, 2.0, 2.0).length_squared()), 9.0);
}

#[test]
fn unit_vectors_are_the_vector_over_its_length() {
    for p in triples().into_iter().skip(1) {
        assert_eq!(a(unit_vector(v(p[0], p[1], p[2]))), runit(p));
    }
    assert_eq!(a(unit_vector(v(0.0, 3.0, 4.0))), [0.0, 3.0 * (1.0 / 5.0), 4.0 * (1.0 / 5.0)]);
    assert_eq!(a(unit_vector(v(0.0, 0.0, -2.0))), [-0.0, -0.0, -1.0]);
}

#[test]
fn the_unit_vector_of_zero_is_no_number() {
    let u = a(unit_vector(Vec3::zero()));
    assert!(u[0].is_nan() && u[1].is_nan() && u[2].is_nan());
}

#[test]
fn near_zero_needs_every_component_below_the_bound() {
    assert!(v(0.0, 0.0, 0.0).near_zero());
    assert!(v(9.9e-9, -9.9e-9, 0.0).near_zero());
    assert!(!v(1.0e-8, 0.0, 0.0).near_zero());
    assert!(!v(0.0, -1.0e-8, 0.0).near_zero());
    assert!(!v(0.0, 0.0, 1.0).near_zero());
    assert!(!v(f64::NAN, 0.0, 0.0).near_zero());
}

#[test]
fn reflection_mirrors_at_the_normal() {
    assert_eq!(a(reflect(v(1.0, -1.0, 0.0), v(0.0, 1.0, 0.0))), [1.0, 1.0, 0.0]);
    assert_eq!(a(reflect(v(0.0, 0.0, -1.0), v(0.0, 0.0, 1.0))), [0.0, 0.0, 1.0]);
    let t = triples();
    for i in 1..t.len() - 1 {
        let (p, n) = (t[i], runit(t[i + 1]));
        let want = rsub(p, rscale(n, 2.0 * rdot(p, n)));
        assert_eq!(a(reflect(v(p[0], p[1], p[2]), v(n[0], n[1], n[2]))), want);
    }
}

#[test]
fn refraction_follows_snells_law() {
    let t = triples();
    for i in 1..t.len() - 1 {
        let (uv, n) = (runit(t[i]), runit(t[i + 1]));
        for &eta in [1.0, 1.5, 1.0 / 1.5, 0.3].iter() {
            let cos_theta = rdot([-uv[0], -uv[1], -uv[2]], n).min(1.0);
            let perp = rscale(radd(uv, rscale(n, cos_theta)), eta);
            let parallel = rscale(n, -((1.0 - rdot(perp, perp)).abs().sqrt()));
            let want = radd(perp, parallel);
            assert_eq!(a(refract(v(uv[0], uv[1], uv[2]), v(n[0], n[1], n[2]), s(eta))), want);
        }
    }
    let straight = a(refract(v(0.0, 0.0, -1.0), v(0.0, 0.0, 1.0), s(1.5)));
    assert_eq!(straight, [0.0, 0.0, -1.0]);
}

#[test]
fn gamma_is_the_square_root_of_a_positive_intensity() {
    assert_eq!(f(linear_to_gamma(s(0.25))), 0.5);
    assert_eq!(f(linear_to_gamma(s(2.0))), 2.0f64.sqrt());
    assert_eq!(f(linear_to_gamma(s(0.0))), 0.0);
    assert_eq!(f(linear_to_gamma(s(-4.0))), 0.0);
    assert_eq!(f(linear_to_gamma(s(f64::NAN))), 0.0);
}

#[test]
fn channels_are_quantized_to_bytes() {
    assert_eq!(encode_channel(s(0.0)), 0);
    assert_eq!(encode_channel(s(1.0)), 255);
    assert_eq!(encode_channel(s(0.25)), 128);
    assert_eq!(encode_channel(s(0.5)), 181);
    assert_eq!(encode_channel(s(4.0)), 255);
    assert_eq!(encode_channel(s(-1.0)), 0);
    let intensity = Interval::new(s(0.0), s(0.999));
    let mut x: f64 = 0.0;
    while x < 1.2 {
        let want = (256.0 * f(intensity.clamp(s(if x > 0.0 { x.sqrt() } else { 0.0 })))) as u8;
        assert_eq!(encode_channel(s(x)), want, "{}", x);
        x += 0.00137;
    }
}

#[test]
fn writing_a_colour_appends_three_bytes() {
    let mut out: Vec<u8> = vec![7];
    v(1.0, 0.25, 0.0).write(&mut out);
    assert_eq!(out, vec![7, 255, 128, 0]);
    v(0.5, 0.7, 1.0).write(&mut out);
    assert_eq!(out.len(), 7);
    assert_eq!(out[4], (256.0 * 0.5f64.sqrt()) as u8);
    assert_eq!(out[5], (256.0 * 0.7f64.sqrt()) as u8);
    assert_eq!(out[6], 255);
}

#[test]
fn random_vectors_have_components_in_their_range() {
    for _ in 0..500 {
        let r = a(Vec3::random());
        assert!(r.iter().all(|c| *c >= 0.0 && *c < 1.0));
        let q = a(Vec3::random_range(s(0.5), s(1.0)));
        assert!(q.iter().all(|c| *c >= 0.5 && *c < 1.0));
    }
}

#[test]
fn random_points_lie_inside_the_unit_sphere() {
    for _ in 0..500 {
        let p = random_in_unit_sphere();
        assert!(inside_unit(&p));
        assert!(f(p.length_squared()) < 1.0);
        let d = random_in_unit_disk();
        assert!(f(d.length_squared()) < 1.0);
        assert_eq!(f(d.z()), 0.0);
    }
}

#[test]
fn random_unit_vectors_have_length_one() {
    for _ in 0..500 {
        let u = random_unit_vector();
        assert!((f(u.length()) - 1.0).abs() < 1.0e-12);
    }
}

#[test]
fn hemisphere_vectors_point_to_the_side_of_the_normal() {
    let n = v(0.0, 1.0, 0.0);
    for _ in 0..500 {
        let u = random_on_hemisphere(n);
        assert!(f(dot(&u, &n)) >= 0.0);
    }
    assert_eq!(a(toward(v(1.0, 2.0, 0.0), n)), [1.0, 2.0, 0.0]);
    assert_eq!(a(toward(v(1.0, -2.0, 0.0), n)), [-1.0, 2.0, -0.0]);
}

#[test]
fn a_ray_reaches_origin_plus_multiples_of_its_direction() {
    let r = Ray::new(v(1.0, 2.0, 3.0), v(0.5, -1.0, 2.0));
    assert_eq!(a(r.origin()), [1.0, 2.0, 3.0]);
    assert_eq!(a(r.direction()), [0.5, -1.0, 2.0]);
    assert_eq!(a(r.at(s(0.0))), [1.0, 2.0, 3.0]);
    assert_eq!(a(r.at(s(2.0))), [2.0, 0.0, 7.0]);
    assert_eq!(a(r.at(s(-1.0))), [0.5, 3.0, 1.0]);
    let t = 0.3;
    assert_eq!(a(r.at(s(t))), [1.0 + 0.5 * t, 2.0 + -1.0 * t, 3.0 + 2.0 * t]);
}
