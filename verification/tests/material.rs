use raytracer::hittable::HitRecord;
use raytracer::material::{ConfigError, Dielectric, Lambertian, Material, Metal};
use raytracer::ray::Ray;
use raytracer::scalar::Scalar;
use raytracer::vector::{reflect, refract, unit_vector, Vec3};

fn s(x: f64) -> Scalar {
    Scalar::from_bits(x.to_bits())
}

fn f(x: Scalar) -> f64 {
    f64::from_bits(x.to_bits())
}

fn v(x: f64, y: f64, z: f64) -> Vec3 {
    Vec3::new(s(x), s(y), s(z))
}

fn a(w: Vec3) -> [f64; 3] {
    [f(w.x()), f(w.y()), f(w.z())]
}

fn record(p: Vec3, normal: Vec3, front_face: bool) -> HitRecord {
    let mut rec = HitRecord::new();
    rec.p = p;
    rec.normal = normal;
    rec.t = s(1.0);
    rec.front_face = front_face;
    rec
}

fn directions() -> Vec<Vec3> {
    vec![
        v(0.0, -1.0, 0.0),
        v(1.0, -1.0, 0.0),
        v(0.3, -0.2, 0.7),
        v(-2.0, -0.1, 0.5),
        v(0.0, -3.0, 4.0),
        v(1.0e-3, -1.0, 1.0e-3),
    ]
}

#[test]
fn a_diffuse_surface_attenuates_by_its_albedo() {
    let albedo = v(0.4, 0.2, 0.1);
    let m = Lambertian::new(albedo);
    let rec = record(v(1.0, 2.0, 3.0), v(0.0, 1.0, 0.0), true);
    let r_in = Ray::new(v(0.0, 5.0, 0.0), v(0.0, -1.0, 0.0));
    for _ in 0..200 {
        let (attenuation, scattered) = m.scatter(r_in, &rec).unwrap();
        assert_eq!(a(attenuation), [0.4, 0.2, 0.1]);
        assert!(a(attenuation).iter().all(|c| *c >= 0.0 && *c <= 1.0));
        assert_eq!(a(scattered.origin()), [1.0, 2.0, 3.0]);
        let d = a(scattered.direction());
        assert!(d[1] >= 0.0);
        assert!(d.iter().any(|c| c.abs() >= 1.0e-8));
    }
    let (attenuation, _) = Material::Lambertian(m).scatter(r_in, &rec).unwrap();
    assert_eq!(a(attenuation), [0.4, 0.2, 0.1]);
}

#[test]
fn a_diffuse_surface_scatters_along_normal_plus_unit_vector() {
    let m = Lambertian::new(v(0.5, 0.5, 0.5));
    let rec = record(v(1.0, 2.0, 3.0), v(0.0, 1.0, 0.0), true);
    let (_, scattered) = m.scatter_with(&rec, v(0.6, 0.0, 0.8));
    assert_eq!(a(scattered.direction()), [0.6, 1.0, 0.8]);
    assert_eq!(a(scattered.origin()), [1.0, 2.0, 3.0]);
}

#[test]
fn a_diffuse_surface_falls_back_to_the_normal_where_the_sum_cancels() {
    let m = Lambertian::new(v(0.5, 0.5, 0.5));
    let rec = record(v(1.0, 2.0, 3.0), v(0.0, 1.0, 0.0), true);
    let (_, scattered) = m.scatter_with(&rec, v(0.0, -1.0, 0.0));
    assert_eq!(a(scattered.direction()), [0.0, 1.0, 0.0]);
    let (_, nearly) = m.scatter_with(&rec, v(1.0e-9, -1.0, -1.0e-9));
    assert_eq!(a(nearly.direction()), [0.0, 1.0, 0.0]);
    let (_, kept) = m.scatter_with(&rec, v(1.0e-7, -1.0, 0.0));
    assert_eq!(a(kept.direction()), [1.0e-7, 0.0, 0.0]);
}

#[test]
fn a_mirror_reflects_exactly() {
    let m = Metal::new(v(0.7, 0.6, 0.5), s(0.0)).unwrap();
    let normal = v(0.0, 1.0, 0.0);
    let rec = record(v(1.0, 2.0, 3.0), normal, true);
    for d in directions() {
        let r_in = Ray::new(v(0.0, 5.0, 0.0), d);
        let want = a(unit_vector(reflect(d, normal)));
        for _ in 0..20 {
            let (attenuation, scattered) = m.scatter(r_in, &rec).unwrap();
            assert_eq!(a(attenuation), [0.7, 0.6, 0.5]);
            assert_eq!(a(scattered.direction()), want);
            assert_eq!(a(scattered.origin()), [1.0, 2.0, 3.0]);
        }
        let (_, fixed) = m.scatter_with(r_in, &rec, v(0.6, 0.0, -0.8)).unwrap();
        assert_eq!(a(fixed.direction()), want);
    }
    let r_in = Ray::new(v(0.0, 5.0, 0.0), v(1.0, -1.0, 0.0));
    let (_, scattered) = m.scatter_with(r_in, &rec, v(1.0, 0.0, 0.0)).unwrap();
    let h = 1.0 / 2.0f64.sqrt();
    assert_eq!(a(scattered.direction()), [h, h, 0.0]);
}

#[test]
fn a_fuzzy_metal_perturbs_the_reflection() {
    let m = Metal::new(v(0.8, 0.8, 0.8), s(0.5)).unwrap();
    let rec = record(v(0.0, 0.0, 0.0), v(0.0, 1.0, 0.0), true);
    let r_in = Ray::new(v(0.0, 5.0, 0.0), v(0.0, -2.0, 0.0));
    let (_, scattered) = m.scatter_with(r_in, &rec, v(1.0, 0.0, 0.0)).unwrap();
    assert_eq!(a(scattered.direction()), [0.5, 1.0, 0.0]);
}

#[test]
fn a_metal_absorbs_what_would_enter_the_surface() {
    let m = Metal::new(v(0.8, 0.8, 0.8), s(1.0)).unwrap();
    let rec = record(v(0.0, 0.0, 0.0), v(0.0, 1.0, 0.0), true);
    let grazing = Ray::new(v(0.0, 5.0, 0.0), v(1.0, -0.125, 0.0));
    assert!(m.scatter_with(grazing, &rec, v(0.0, -1.0, 0.0)).is_none());
    assert!(m.scatter_with(grazing, &rec, v(0.0, 1.0, 0.0)).is_some());
    let along = Ray::new(v(0.0, 5.0, 0.0), v(1.0, 0.0, 0.0));
    let mirror = Metal::new(v(0.8, 0.8, 0.8), s(0.0)).unwrap();
    assert!(mirror.scatter_with(along, &rec, v(0.0, 1.0, 0.0)).is_none());
    assert!(Material::Metal(mirror).scatter(along, &rec).is_none());
}

#[test]
fn a_metal_needs_a_fuzz_from_zero_to_one() {
    for &fuzz in [0.0, -0.0, 0.3, 1.0].iter() {
        let m = Metal::new(v(0.1, 0.2, 0.3), s(fuzz)).unwrap();
        assert_eq!(f(m.fuzz), fuzz);
        assert_eq!(a(m.albedo), [0.1, 0.2, 0.3]);
    }
    for &fuzz in [-0.1, 1.0000000000000002, 5.0, f64::NAN, f64::INFINITY].iter() {
        match Metal::new(v(0.1, 0.2, 0.3), s(fuzz)) {
            Err(e) => assert_eq!(e, ConfigError::Fuzz),
            Ok(_) => panic!("fuzz {} accepted", fuzz),
        }
    }
}

#[test]
fn a_dielectric_needs_a_positive_refraction_index() {
    assert_eq!(f(Dielectric::new(s(1.5)).unwrap().refraction_index), 1.5);
    for &index in [0.0, -1.5, f64::NAN].iter() {
        match Dielectric::new(s(index)) {
            Err(e) => assert_eq!(e, ConfigError::RefractionIndex),
            Ok(_) => panic!("index {} accepted", index),
        }
    }
}

#[test]
fn reflectance_follows_schlicks_formula() {
    for &(cosine, ratio) in [(1.0, 1.5), (0.5, 1.5), (0.0, 1.5), (0.3, 1.0 / 1.5), (0.9, 2.4)].iter() {
        let b: f64 = (1.0 - ratio) / (1.0 + ratio);
        let r0 = b * b;
        let x: f64 = 1.0 - cosine;
        let x2 = x * x;
        let want = r0 + (1.0 - r0) * (x2 * x2 * x);
        assert_eq!(f(Dielectric::reflectance(s(cosine), s(ratio))), want);
        let close = r0 + (1.0 - r0) * x.powi(5);
        assert!((want - close).abs() < 1.0e-15);
    }
    assert_eq!(f(Dielectric::reflectance(s(1.0), s(1.5))), 0.04000000000000001);
    assert_eq!(f(Dielectric::reflectance(s(0.0), s(1.5))), 1.0);
}

#[test]
fn an_index_of_one_has_no_reflectance_at_normal_incidence_and_bends_nothing() {
    let m = Dielectric::new(s(1.0)).unwrap();
    for &cosine in [1.0, 0.7, 0.2, 0.0].iter() {
        let x: f64 = 1.0 - cosine;
        assert_eq!(f(Dielectric::reflectance(s(cosine), s(1.0))), (x * x) * (x * x) * x);
    }
    assert_eq!(f(Dielectric::reflectance(s(1.0), s(1.0))), 0.0);
    let normal = v(0.0, 1.0, 0.0);
    for &front in [true, false].iter() {
        let rec = record(v(1.0, 2.0, 3.0), normal, front);
        let r_in = Ray::new(v(1.0, 5.0, 3.0), v(0.0, -3.0, 0.0));
        for _ in 0..100 {
            let (attenuation, scattered) = m.scatter(r_in, &rec).unwrap();
            assert_eq!(a(attenuation), [1.0, 1.0, 1.0]);
            assert_eq!(a(scattered.direction()), [0.0, -1.0, 0.0]);
            assert_eq!(a(scattered.origin()), [1.0, 2.0, 3.0]);
        }
        for d in directions() {
            let r = Ray::new(v(0.0, 5.0, 0.0), d);
            let (_, out) = m.scatter_with(r, &rec, s(0.999999));
            let want = a(unit_vector(d));
            let got = a(out.direction());
            for k in 0..3 {
                assert!((got[k] - want[k]).abs() < 1.0e-12, "{:?} {:?}", got, want);
            }
        }
    }
}

#[test]
fn a_dielectric_reflects_or_refracts_by_the_draw() {
    let m = Dielectric::new(s(1.5)).unwrap();
    let normal = v(0.0, 1.0, 0.0);
    let rec = record(v(0.0, 0.0, 0.0), normal, true);
    let d = v(1.0, -1.0, 0.0);
    let r_in = Ray::new(v(0.0, 5.0, 0.0), d);
    let ud = unit_vector(d);
    let (white, low) = m.scatter_with(r_in, &rec, s(0.0));
    assert_eq!(a(white), [1.0, 1.0, 1.0]);
    assert_eq!(a(low.direction()), a(reflect(ud, normal)));
    let (_, high) = m.scatter_with(r_in, &rec, s(0.99));
    assert_eq!(a(high.direction()), a(refract(ud, normal, s(1.0 / 1.5))));
    assert!(a(high.direction())[1] < 0.0);
}

#[test]
fn a_dielectric_reflects_totally_beyond_the_critical_angle() {
    let m = Dielectric::new(s(1.5)).unwrap();
    let normal = v(0.0, 1.0, 0.0);
    let inside = record(v(0.0, 0.0, 0.0), normal, false);
    let d = v(1.0, -0.2, 0.0);
    let r_in = Ray::new(v(0.0, 5.0, 0.0), d);
    let (_, out) = m.scatter_with(r_in, &inside, s(0.999999));
    assert_eq!(a(out.direction()), a(reflect(unit_vector(d), normal)));
    assert!(a(out.direction())[1] > 0.0);
    let (white, again) = Material::Dielectric(m).scatter(r_in, &inside).unwrap();
    assert_eq!(a(white), [1.0, 1.0, 1.0]);
    assert_eq!(a(again.direction()), a(reflect(unit_vector(d), normal)));
}
