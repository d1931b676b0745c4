use raytracer::camera::{ppm_header, sky_color, write_decimal, Camera};
use raytracer::hittable::Hittable;
use raytracer::hittable_list::HittableList;
use raytracer::interval::Interval;
use raytracer::material::{ConfigError, Dielectric, Lambertian, Material, Metal};
use raytracer::ray::Ray;
use raytracer::scalar::Scalar;
use raytracer::sphere::Sphere;
use raytracer::vector::Vec3;

fn s(x: f64) -> Scalar {
    Scalar::from_bits(x.to_bits())
}

fn f(x: Scalar) -> f64 {
    f64::from_bits(x.to_bits())
}

fn v(x: f64, y: f64, z: f64) -> Vec3 {
    Vec3::new(s(x), s(y), s(z))
}

fn a(w: Vec3) -> [f64; 3] {
    [f(w.x()), f(w.y()), f(w.z())]
}

fn grey() -> Material {
    Material::Lambertian(Lambertian::new(v(0.5, 0.5, 0.5)))
}

fn plain(width: i32, aspect: f64, samples: i32, depth: i32) -> Camera {
    Camera::new(
        s(aspect),
        width,
        samples,
        depth,
        s(90.0),
        v(0.0, 0.0, 0.0),
        v(0.0, 0.0, -1.0),
        v(0.0, 1.0, 0.0),
        s(0.0),
        s(1.0),
    )
    .unwrap()
}

fn tangents(camera: &Camera) -> (Scalar, Scalar) {
    (s(f(camera.half_view_angle()).tan()), s(f(camera.half_defocus_angle()).tan()))
}

fn two_spheres() -> HittableList<Sphere> {
    let mut world: HittableList<Sphere> = HittableList::new();
    world.add(Sphere::new(v(0.0, 0.0, -1.0), s(0.5), grey()).unwrap());
    world.add(Sphere::new(v(0.0, -100.5, -1.0), s(100.0), grey()).unwrap());
    world
}

fn rsky(d: [f64; 3]) -> [f64; 3] {
    let inv = 1.0 / (d[0] * d[0] + d[1] * d[1] + d[2] * d[2]).sqrt();
    let t = 0.5 * (d[1] * inv + 1.0);
    [1.0 * (1.0 - t) + 0.5 * t, 1.0 * (1.0 - t) + 0.7 * t, 1.0 * (1.0 - t) + 1.0 * t]
}

fn fault(
    aspect: f64,
    width: i32,
    samples: i32,
    depth: i32,
    vfov: f64,
    up: [f64; 3],
    defocus: f64,
    focus: f64,
) -> Option<ConfigError> {
    match Camera::new(
        s(aspect),
        width,
        samples,
        depth,
        s(vfov),
        v(13.0, 2.0, 3.0),
        v(0.0, 0.0, 0.0),
        v(up[0], up[1], up[2]),
        s(defocus),
        s(focus),
    ) {
        Ok(_) => None,
        Err(e) => Some(e),
    }
}

#[test]
fn a_sound_configuration_is_accepted() {
    let up = [0.0, 1.0, 0.0];
    assert_eq!(fault(16.0 / 9.0, 1200, 500, 50, 20.0, up, 0.6, 10.0), None);
    assert_eq!(fault(1.0, 1, 1, 0, 179.0, up, 0.0, 0.1), None);
    let camera = plain(400, 16.0 / 9.0, 7, 3);
    assert_eq!(camera.image_width, 400);
    assert_eq!(camera.samples_per_pixel, 7);
    assert_eq!(camera.max_depth, 3);
    assert_eq!(f(camera.aspect_ratio), 16.0 / 9.0);
    assert_eq!(f(camera.pixel_samples_scale), 1.0 / 7.0);
    assert_eq!(camera.image_height, 0);
}

#[test]
fn each_fault_of_a_configuration_is_named() {
    let up = [0.0, 1.0, 0.0];
    assert_eq!(fault(0.0, 400, 10, 5, 20.0, up, 0.6, 10.0), Some(ConfigError::AspectRatio));
    assert_eq!(fault(-1.0, 400, 10, 5, 20.0, up, 0.6, 10.0), Some(ConfigError::AspectRatio));
    assert_eq!(fault(f64::NAN, 400, 10, 5, 20.0, up, 0.6, 10.0), Some(ConfigError::AspectRatio));
    assert_eq!(fault(1.5, 0, 10, 5, 20.0, up, 0.6, 10.0), Some(ConfigError::ImageWidth));
    assert_eq!(fault(1.5, -3, 10, 5, 20.0, up, 0.6, 10.0), Some(ConfigError::ImageWidth));
    assert_eq!(fault(1.5, 400, 0, 5, 20.0, up, 0.6, 10.0), Some(ConfigError::SamplesPerPixel));
    assert_eq!(fault(1.5, 400, -1, 5, 20.0, up, 0.6, 10.0), Some(ConfigError::SamplesPerPixel));
    assert_eq!(fault(1.5, 400, 10, -1, 20.0, up, 0.6, 10.0), Some(ConfigError::MaxDepth));
    assert_eq!(fault(1.5, 400, 10, 5, 0.0, up, 0.6, 10.0), Some(ConfigError::FieldOfView));
    assert_eq!(fault(1.5, 400, 10, 5, 180.0, up, 0.6, 10.0), Some(ConfigError::FieldOfView));
    assert_eq!(fault(1.5, 400, 10, 5, f64::NAN, up, 0.6, 10.0), Some(ConfigError::FieldOfView));
    assert_eq!(
        fault(1.5, 400, 10, 5, 20.0, [13.0, 2.0, 3.0], 0.6, 10.0),
        Some(ConfigError::UpDirection)
    );
    assert_eq!(
        fault(1.5, 400, 10, 5, 20.0, [-26.0, -4.0, -6.0], 0.6, 10.0),
        Some(ConfigError::UpDirection)
    );
    assert_eq!(fault(1.5, 400, 10, 5, 20.0, [0.0, 0.0, 0.0], 0.6, 10.0), Some(ConfigError::UpDirection));
    assert_eq!(fault(1.5, 400, 10, 5, 20.0, up, -0.1, 10.0), Some(ConfigError::DefocusAngle));
    assert_eq!(fault(1.5, 400, 10, 5, 20.0, up, f64::NAN, 10.0), Some(ConfigError::DefocusAngle));
    assert_eq!(fault(1.5, 400, 10, 5, 20.0, up, 0.6, 0.0), Some(ConfigError::FocusDistance));
    assert_eq!(fault(1.5, 400, 10, 5, 20.0, up, 0.6, -2.0), Some(ConfigError::FocusDistance));
    assert_eq!(fault(0.0, 0, 0, -1, 0.0, up, -1.0, 0.0), Some(ConfigError::AspectRatio));
    assert_eq!(fault(1.5, 0, 0, -1, 0.0, up, -1.0, 0.0), Some(ConfigError::ImageWidth));
}

#[test]
fn the_height_is_the_rounded_quotient_and_at_least_one() {
    assert_eq!(plain(400, 16.0 / 9.0, 1, 1).image_rows(), 225);
    assert_eq!(plain(1200, 16.0 / 9.0, 1, 1).image_rows(), 675);
    assert_eq!(plain(100, 1.0, 1, 1).image_rows(), 100);
    assert_eq!(plain(10, 4.0, 1, 1).image_rows(), 3);
    assert_eq!(plain(9, 6.0, 1, 1).image_rows(), 2);
    assert_eq!(plain(7, 3.0, 1, 1).image_rows(), 2);
    assert_eq!(plain(100, 300.0, 1, 1).image_rows(), 1);
    assert_eq!(plain(1, 1000.0, 1, 1).image_rows(), 1);
    assert_eq!(plain(3, f64::INFINITY, 1, 1).image_rows(), 1);
    for &(w, r) in [(400, 1.7), (333, 2.39), (17, 0.37), (1200, 1.85)].iter() {
        let want = ((w as f64) / r).round() as i32;
        assert_eq!(plain(w, r, 1, 1).image_rows(), if want < 1 { 1 } else { want });
    }
}

#[test]
fn the_derived_state_follows_the_formulas() {
    let (from, at, up) = ([13.0, 2.0, 3.0], [0.0, 0.0, 0.0], [0.0, 1.0, 0.0]);
    let (width, aspect, vfov, defocus, focus) = (120, 16.0 / 9.0, 20.0, 0.6, 10.0);
    let mut camera = Camera::new(
        s(aspect),
        width,
        10,
        5,
        s(vfov),
        v(from[0], from[1], from[2]),
        v(at[0], at[1], at[2]),
        v(up[0], up[1], up[2]),
        s(defocus),
        s(focus),
    )
    .unwrap();
    let pi = 3.1415926535897932385;
    assert_eq!(f(camera.half_view_angle()), (vfov * pi / 180.0) / 2.0);
    assert_eq!(f(camera.half_defocus_angle()), (defocus / 2.0) * pi / 180.0);
    let (tv, td) = tangents(&camera);
    camera.initialize(tv, td);

    let height = ((width as f64) / aspect).round() as i32;
    let h = ((vfov * pi / 180.0) / 2.0).tan();
    let vh = 2.0 * h * focus;
    let vw = vh * ((width as f64) / (height as f64));
    let unit = |p: [f64; 3]| {
        let inv = 1.0 / (p[0] * p[0] + p[1] * p[1] + p[2] * p[2]).sqrt();
        [p[0] * inv, p[1] * inv, p[2] * inv]
    };
    let cross = |p: [f64; 3], q: [f64; 3]| {
        [p[1] * q[2] - p[2] * q[1], p[2] * q[0] - p[0] * q[2], p[0] * q[1] - p[1] * q[0]]
    };
    let scale = |p: [f64; 3], t: f64| [p[0] * t, p[1] * t, p[2] * t];
    let sub = |p: [f64; 3], q: [f64; 3]| [p[0] - q[0], p[1] - q[1], p[2] - q[2]];
    let add = |p: [f64; 3], q: [f64; 3]| [p[0] + q[0], p[1] + q[1], p[2] + q[2]];
    let w = unit(sub(from, at));
    let u = unit(cross(up, w));
    let vv = cross(w, u);
    let vu = scale(u, vw);
    let vd = scale([-vv[0], -vv[1], -vv[2]], vh);
    let du = scale(vu, 1.0 / (width as f64));
    let dv = scale(vd, 1.0 / (height as f64));
    let upper_left = sub(sub(sub(from, scale(w, focus)), scale(vu, 1.0 / 2.0)), scale(vd, 1.0 / 2.0));
    let p00 = add(upper_left, scale(add(du, dv), 0.5));
    let radius = focus * ((defocus / 2.0) * pi / 180.0).tan();

    assert_eq!(camera.image_height, height);
    assert_eq!(f(camera.pixel_samples_scale), 1.0 / 10.0);
    assert_eq!(a(camera.center), from);
    assert_eq!(a(camera.pixel_delta_u), du);
    assert_eq!(a(camera.pixel_delta_v), dv);
    assert_eq!(a(camera.pixel00_loc), p00);
    assert_eq!(a(camera.defocus_disk_u), scale(u, radius));
    assert_eq!(a(camera.defocus_disk_v), scale(vv, radius));

    let offset = [0.25, -0.5, 0.0];
    let lens = [0.3, -0.4, 0.0];
    let r = camera.get_ray_with(7, 11, v(offset[0], offset[1], 0.0), v(lens[0], lens[1], 0.0));
    let sample = add(add(p00, scale(du, 7.0 + offset[0])), scale(dv, 11.0 + offset[1]));
    let origin = add(add(from, scale(scale(u, radius), lens[0])), scale(scale(vv, radius), lens[1]));
    assert_eq!(a(r.origin()), origin);
    assert_eq!(a(r.direction()), sub(sample, origin));
}

#[test]
fn without_defocus_rays_start_at_the_centre() {
    let mut camera = plain(400, 16.0 / 9.0, 1, 1);
    let (tv, td) = tangents(&camera);
    assert_eq!(f(td), 0.0);
    camera.initialize(tv, td);
    assert_eq!(camera.image_height, 225);
    let r = camera.get_ray_with(3, 4, v(0.0, 0.0, 0.0), v(0.9, 0.1, 0.0));
    assert_eq!(a(r.origin()), [0.0, 0.0, 0.0]);
    for _ in 0..200 {
        let r = camera.get_ray(200, 112);
        assert_eq!(a(r.origin()), [0.0, 0.0, 0.0]);
        let d = a(r.direction());
        let c = a(camera.get_ray_with(200, 112, v(0.0, 0.0, 0.0), v(0.0, 0.0, 0.0)).direction());
        let (du, dv) = (a(camera.pixel_delta_u), a(camera.pixel_delta_v));
        assert!((d[0] - c[0]).abs() <= 0.5 * du[0].abs() + 1.0e-12);
        assert!((d[1] - c[1]).abs() <= 0.5 * dv[1].abs() + 1.0e-12);
    }
    for _ in 0..200 {
        let o = a(Camera::sample_square());
        assert!(o[0] >= -0.5 && o[0] < 0.5 && o[1] >= -0.5 && o[1] < 0.5 && o[2] == 0.0);
    }
}

#[test]
fn with_defocus_rays_start_on_the_lens() {
    let mut camera = Camera::new(
        s(1.0),
        50,
        1,
        1,
        s(40.0),
        v(0.0, 0.0, 0.0),
        v(0.0, 0.0, -1.0),
        v(0.0, 1.0, 0.0),
        s(10.0),
        s(3.0),
    )
    .unwrap();
    let (tv, td) = tangents(&camera);
    camera.initialize(tv, td);
    let radius = 3.0 * f(td);
    let mut moved = false;
    for _ in 0..200 {
        let o = a(camera.get_ray(10, 10).origin());
        assert!(o[0] * o[0] + o[1] * o[1] < radius * radius * 1.000001);
        assert_eq!(o[2], 0.0);
        if o[0] != 0.0 || o[1] != 0.0 {
            moved = true;
        }
    }
    assert!(moved);
}

#[test]
fn with_no_depth_left_every_ray_is_black() {
    let world = two_spheres();
    let empty: HittableList<Sphere> = HittableList::new();
    let rays = [
        Ray::new(v(0.0, 0.0, 0.0), v(0.0, 0.0, -1.0)),
        Ray::new(v(0.0, 0.0, 0.0), v(0.0, 1.0, 0.0)),
        Ray::new(v(1.0, 2.0, 3.0), v(-0.3, 0.2, 0.9)),
    ];
    for r in rays.iter() {
        for &depth in [0, -1, i32::MIN].iter() {
            assert_eq!(a(Camera::ray_color(*r, &world, depth)), [0.0, 0.0, 0.0]);
            assert_eq!(a(Camera::ray_color(*r, &empty, depth)), [0.0, 0.0, 0.0]);
        }
    }
}

#[test]
fn in_an_empty_scene_every_ray_shows_the_sky() {
    let empty: HittableList<Sphere> = HittableList::new();
    let directions = [
        [0.0, 0.0, -1.0],
        [0.0, 1.0, 0.0],
        [0.0, -1.0, 0.0],
        [0.3, 0.4, -1.2],
        [-2.0, 0.1, 0.5],
        [1.0e-3, -7.0, 2.0],
    ];
    for d in directions.iter() {
        for &depth in [1, 2, 50].iter() {
            for origin in [[0.0, 0.0, 0.0], [5.0, -3.0, 2.0]].iter() {
                let r = Ray::new(v(origin[0], origin[1], origin[2]), v(d[0], d[1], d[2]));
                assert_eq!(a(Camera::ray_color(r, &empty, depth)), rsky(*d));
                assert_eq!(a(sky_color(&r)), rsky(*d));
            }
        }
    }
    let up = Ray::new(v(0.0, 0.0, 0.0), v(0.0, 2.0, 0.0));
    assert_eq!(a(Camera::ray_color(up, &empty, 1)), [0.5, 0.7, 1.0]);
    let down = Ray::new(v(0.0, 0.0, 0.0), v(0.0, -2.0, 0.0));
    assert_eq!(a(Camera::ray_color(down, &empty, 1)), [1.0, 1.0, 1.0]);
    let level = Ray::new(v(0.0, 0.0, 0.0), v(1.0, 0.0, 0.0));
    assert_eq!(a(Camera::ray_color(level, &empty, 1)), [0.75, 0.85, 1.0]);
}

#[test]
fn a_ray_that_misses_the_spheres_shows_the_sky() {
    let world = two_spheres();
    let r = Ray::new(v(0.0, 0.0, 0.0), v(0.0, 1.0, -0.2));
    assert_eq!(a(Camera::ray_color(r, &world, 5)), rsky([0.0, 1.0, -0.2]));
}

#[test]
fn with_depth_one_a_hit_surface_stays_dark() {
    let world = two_spheres();
    let r = Ray::new(v(0.0, 0.0, 0.0), v(0.0, 0.0, -1.0));
    assert_eq!(a(Camera::ray_color(r, &world, 1)), [0.0, 0.0, 0.0]);
}

#[test]
fn light_is_attenuated_at_each_scattering() {
    let mut world: HittableList<Sphere> = HittableList::new();
    let mirror = Material::Metal(Metal::new(v(0.8, 0.6, 0.2), s(0.0)).unwrap());
    world.add(Sphere::new(v(0.0, 0.0, -2.0), s(1.0), mirror).unwrap());
    let r = Ray::new(v(0.0, 0.0, 0.0), v(0.0, 0.0, -1.0));
    let back = rsky([0.0, 0.0, 1.0]);
    assert_eq!(a(Camera::ray_color(r, &world, 2)), [0.8 * back[0], 0.6 * back[1], 0.2 * back[2]]);
    assert_eq!(a(Camera::ray_color(r, &world, 50)), [0.8 * back[0], 0.6 * back[1], 0.2 * back[2]]);

    let mut glass: HittableList<Sphere> = HittableList::new();
    let clear = Material::Dielectric(Dielectric::new(s(1.0)).unwrap());
    glass.add(Sphere::new(v(0.0, 0.0, -2.0), s(1.0), clear).unwrap());
    let through = rsky([0.0, 0.0, -1.0]);
    assert_eq!(a(Camera::ray_color(r, &glass, 3)), through);
    assert_eq!(a(Camera::ray_color(r, &glass, 2)), [0.0, 0.0, 0.0]);
}

#[test]
fn the_centre_of_the_two_sphere_scene_shows_the_sphere() {
    let world = two_spheres();
    let mut camera = plain(400, 16.0 / 9.0, 1, 1);
    let (tv, td) = tangents(&camera);
    camera.initialize(tv, td);
    assert_eq!(camera.image_height, 225);
    let window = Interval::new(s(0.001), s(f64::INFINITY));
    let shade = |r: &Ray| -> Option<[f64; 3]> {
        world.hit(r, window).map(|h| {
            let n = a(h.normal);
            [0.5 * (n[0] + 1.0), 0.5 * (n[1] + 1.0), 0.5 * (n[2] + 1.0)]
        })
    };

    let centre = camera.get_ray_with(200, 112, v(-0.5, 0.0, 0.0), v(0.0, 0.0, 0.0));
    let d = a(centre.direction());
    assert!(d[0].abs() < 1.0e-12 && d[1].abs() < 1.0e-12 && (d[2] + 1.0).abs() < 1.0e-12);
    let hit = world.hit(&centre, window).unwrap();
    assert!((f(hit.t) - 0.5).abs() < 1.0e-12);
    assert!(hit.front_face);
    let colour = shade(&centre).unwrap();
    assert!((colour[0] - 0.5).abs() < 1.0e-9);
    assert!((colour[1] - 0.5).abs() < 1.0e-9);
    assert!((colour[2] - 1.0).abs() < 1.0e-9);

    let extent = |row: i32| -> (i32, i32) {
        let mut first = -1;
        let mut last = -1;
        for i in 0..400 {
            let r = camera.get_ray_with(i, row, v(0.0, 0.0, 0.0), v(0.0, 0.0, 0.0));
            if let Some(h) = world.hit(&r, window) {
                if f(h.t) < 2.0 && a(h.p)[1] > -0.45 {
                    if first < 0 {
                        first = i;
                    }
                    last = i;
                }
            }
        }
        (first, last)
    };
    let (first, last) = extent(112);
    assert!(first > 100 && last < 300);
    assert_eq!(first + last, 399);
    assert!(last - first > 80);

    let above = camera.get_ray_with(200, 0, v(0.0, 0.0, 0.0), v(0.0, 0.0, 0.0));
    assert!(world.hit(&above, window).is_none());
    let below = camera.get_ray_with(200, 224, v(0.0, 0.0, 0.0), v(0.0, 0.0, 0.0));
    let ground = world.hit(&below, window).unwrap();
    assert!(a(ground.normal)[1] > 0.99);
    let g = shade(&below).unwrap();
    assert!(g[1] > 0.99 && (g[0] - 0.5).abs() < 0.05);
}

#[test]
fn the_header_is_spelled_out_in_decimal() {
    assert_eq!(ppm_header(400, 225), b"P6\n400 225\n255\n".to_vec());
    assert_eq!(ppm_header(1200, 675), b"P6\n1200 675\n255\n".to_vec());
    assert_eq!(ppm_header(1, 1), b"P6\n1 1\n255\n".to_vec());
    assert_eq!(ppm_header(0, 10), b"P6\n0 10\n255\n".to_vec());
    assert_eq!(ppm_header(4294967295, 7), b"P6\n4294967295 7\n255\n".to_vec());
    let mut out = vec![b'x'];
    write_decimal(9081726, &mut out);
    assert_eq!(out, b"x9081726".to_vec());
}

#[test]
fn an_image_is_the_header_and_three_bytes_per_pixel() {
    let world = two_spheres();
    let mut camera = plain(16, 16.0 / 9.0, 2, 3);
    let (tv, td) = tangents(&camera);
    let out = camera.render(&world, tv, td);
    assert_eq!(camera.image_height, 9);
    let head = b"P6\n16 9\n255\n";
    assert_eq!(&out[..head.len()], &head[..]);
    assert_eq!(out.len(), head.len() + 16 * 9 * 3);
}

#[test]
fn an_image_of_the_sky_is_written_row_by_row_from_the_top() {
    let empty: HittableList<Sphere> = HittableList::new();
    let mut camera = plain(4, 1.0, 3, 2);
    let (tv, td) = tangents(&camera);
    let out = camera.render(&empty, tv, td);
    let head = b"P6\n4 4\n255\n";
    assert_eq!(out.len(), head.len() + 4 * 4 * 3);
    let pixel = |i: usize, j: usize| {
        let at = head.len() + 3 * (4 * j + i);
        [out[at], out[at + 1], out[at + 2]]
    };
    for j in 0..4 {
        for i in 0..4 {
            let p = pixel(i, j);
            assert_eq!(p[2], 255);
            assert!(p[0] < p[1] && p[1] < p[2]);
            if j > 0 {
                assert!(pixel(i, j - 1)[0] < p[0]);
            }
        }
    }
}

#[test]
fn with_no_depth_an_image_is_black() {
    let world = two_spheres();
    let mut camera = plain(5, 1.0, 4, 0);
    let (tv, td) = tangents(&camera);
    let out = camera.render(&world, tv, td);
    let head = b"P6\n5 5\n255\n";
    assert_eq!(&out[..head.len()], &head[..]);
    assert!(out[head.len()..].iter().all(|b| *b == 0));
    assert_eq!(out.len(), head.len() + 75);
    assert_eq!(a(camera.pixel_color(&world, 2, 2)), [0.0, 0.0, 0.0]);
}

#[test]
fn pixel_and_lens_points_follow_the_formulas() {
    let mut camera = Camera::new(
        s(2.0),
        40,
        1,
        1,
        s(60.0),
        v(1.0, 2.0, 3.0),
        v(0.0, 0.0, 0.0),
        v(0.0, 1.0, 0.0),
        s(4.0),
        s(5.0),
    )
    .unwrap();
    let (tv, td) = tangents(&camera);
    camera.initialize(tv, td);
    let (p00, du, dv) = (a(camera.pixel00_loc), a(camera.pixel_delta_u), a(camera.pixel_delta_v));
    let got = a(camera.pixel_sample(3, 5, v(0.25, -0.125, 0.0)));
    for k in 0..3 {
        assert_eq!(got[k], (p00[k] + du[k] * (3.0 + 0.25)) + dv[k] * (5.0 + -0.125));
    }
    let (c, lu, lv) = (a(camera.center), a(camera.defocus_disk_u), a(camera.defocus_disk_v));
    let lens = a(camera.defocus_disk_point(v(0.5, -0.25, 0.0)));
    for k in 0..3 {
        assert_eq!(lens[k], (c[k] + lu[k] * 0.5) + lv[k] * -0.25);
    }
    let radius = 5.0 * f(td);
    for _ in 0..100 {
        let p = a(camera.defocus_disk_sample());
        let d = [p[0] - c[0], p[1] - c[1], p[2] - c[2]];
        assert!(d[0] * d[0] + d[1] * d[1] + d[2] * d[2] < radius * radius * 1.000001);
    }
}
