//! The camera: from a configuration to rays, colours and the bytes of an image.
use vstd::prelude::*;
use crate::scalar::{Scalar, HALF_BITS, INFINITY_BITS, ONE_BITS, TWO_BITS};
use crate::common::{degrees_to_radians, radians, random_f64, is_unit_sample, HALF_TURN_BITS};
use crate::hittable::Hittable;
use crate::hittable_list::HittableList;
use crate::interval::Interval;
use crate::material::ConfigError;
use crate::ray::Ray;
use crate::vector::{
    cross, random_in_unit_disk, unit_vector, is_inside_unit, channel_byte, Color, Point3, Vec3,
};

verus! {

/// Encoding of 0.001, the smallest ray parameter at which a hit counts, so that a
/// scattered ray does not hit the surface it leaves.
pub const NEAREST_BITS: u64 = 0x3f50_624d_d2f1_a9fc;

/// Encoding of 0.7.
pub const SKY_GREEN_BITS: u64 = 0x3fe6_6666_6666_6666;

/// A camera: the configuration of a rendering and the state derived from it.
pub struct Camera {
    pub aspect_ratio: Scalar,
    pub image_width: i32,
    pub samples_per_pixel: i32,
    pub max_depth: i32,
    pub vfov: Scalar,
    pub lookfrom: Point3,
    pub lookat: Point3,
    pub vup: Vec3,
    pub defocus_angle: Scalar,
    pub focus_dist: Scalar,
    pub image_height: i32,
    pub pixel_samples_scale: Scalar,
    pub center: Point3,
    pub pixel00_loc: Point3,
    pub pixel_delta_u: Vec3,
    pub pixel_delta_v: Vec3,
    pub defocus_disk_u: Vec3,
    pub defocus_disk_v: Vec3,
}

/// The colour with all channels 0.
pub open spec fn black() -> Color {
    Vec3::origin()
}

/// The interval of ray parameters at which a hit counts: above 0.001.
pub open spec fn trace_window() -> Interval {
    Interval { min: Scalar::of_bits(NEAREST_BITS), max: Scalar::of_bits(INFINITY_BITS) }
}

/// The colour of the sky in the direction of `r`: white blended into the blue
/// `(0.5, 0.7, 1.0)` by `t = 0.5 * (unit(direction).y + 1)`.
pub open spec fn sky(r: Ray) -> Color {
    let one = Scalar::of_bits(ONE_BITS);
    let t = Scalar::of_bits(HALF_BITS).product(r.direction.unit().y.sum(one));
    (Vec3 { x: one, y: one, z: one }).scaled(one.difference(t)).plus(
        (Vec3 { x: Scalar::of_bits(HALF_BITS), y: Scalar::of_bits(SKY_GREEN_BITS), z: one }).scaled(t),
    )
}

/// The colour of the sky in the direction of `r`.
pub fn sky_color(r: &Ray) -> (c: Color)
    ensures
        c == sky(*r),
{
    let one = Scalar::one();
    let unit_direction = unit_vector(r.direction());
    let t = Scalar::half().mul(&unit_direction.y().add(&one));
    Vec3::new(one, one, one).mul(one.sub(&t)).add(
        &Vec3::new(Scalar::half(), Scalar::from_bits(SKY_GREEN_BITS), one).mul(t),
    )
}

/// Whether `path` is a course that the light arriving along `r` can have taken through
/// `world` with `depth` scatterings left, for some value of the random numbers drawn:
/// the outcomes of the scatterings, one after the other, each an attenuation and the
/// ray that went on from there. The course ends where the depth is used up, where the
/// ray leaves the scene or meets a surface without a material, or where a material
/// absorbs the light.
pub open spec fn is_path<W: Hittable>(r: Ray, world: W, depth: int, path: Seq<(Color, Ray)>) -> bool
    decreases depth,
{
    if depth <= 0 {
        path.len() == 0
    } else {
        match world.nearest(r, trace_window()) {
            None => path.len() == 0,
            Some(rec) => match rec.mat {
                None => path.len() == 0,
                Some(mat) => if path.len() == 0 {
                    mat.may_scatter(r, rec, None)
                } else {
                    mat.may_scatter(r, rec, Some(path[0])) && is_path(
                        path[0].1,
                        world,
                        depth - 1,
                        path.drop_first(),
                    )
                },
            },
        }
    }
}

/// The colour that arrives along `r` when the light took the course `path`: black once
/// the depth is used up, the sky where the ray leaves the scene or meets a surface
/// without a material, black where a material absorbs the light, and else the
/// attenuated colour of the scattered ray.
pub open spec fn traced<W: Hittable>(r: Ray, world: W, depth: int, path: Seq<(Color, Ray)>) -> Color
    decreases depth,
{
    if depth <= 0 {
        black()
    } else {
        match world.nearest(r, trace_window()) {
            None => sky(r),
            Some(rec) => match rec.mat {
                None => sky(r),
                Some(mat) => if path.len() == 0 {
                    black()
                } else {
                    path[0].0.times(traced(path[0].1, world, depth - 1, path.drop_first()))
                },
            },
        }
    }
}

/// Whether `c` is a colour that tracing `r` through `world` with `depth` scatterings
/// left can give.
pub open spec fn may_trace<W: Hittable>(r: Ray, world: W, depth: int, c: Color) -> bool {
    exists|path: Seq<(Color, Ray)>| #[trigger]
        is_path(r, world, depth, path) && c == traced(r, world, depth, path)
}

/// With no depth left, every ray is black, whatever the scene holds.
pub proof fn lemma_no_depth<W: Hittable>(r: Ray, world: W, depth: int, c: Color)
    requires
        depth <= 0,
        may_trace(r, world, depth, c),
    ensures
        c == black(),
{
}

/// In a scene without surfaces every ray traced with some depth left shows the sky,
/// and the sky depends on nothing but the direction of the ray.
pub proof fn lemma_empty_scene<H: Hittable>(
    world: HittableList<H>,
    r: Ray,
    other: Ray,
    depth: int,
    c: Color,
)
    requires
        world.objects@.len() == 0,
        depth > 0,
        may_trace(r, world, depth, c),
    ensures
        c == sky(r),
        other.direction == r.direction ==> sky(other) == sky(r),
{
}

/// The sum of a sequence of colours, added up from the first on.
pub open spec fn total(samples: Seq<Color>) -> Color
    decreases samples.len(),
{
    if samples.len() == 0 {
        black()
    } else {
        total(samples.drop_last()).plus(samples.last())
    }
}

/// The three bytes a pixel of colour `c` is written as.
pub open spec fn pixel_bytes(c: Color) -> Seq<u8> {
    seq![channel_byte(c.x), channel_byte(c.y), channel_byte(c.z)]
}

/// The bytes of a sequence of pixels.
pub open spec fn encoded(pixels: Seq<Color>) -> Seq<u8>
    decreases pixels.len(),
{
    if pixels.len() == 0 {
        Seq::empty()
    } else {
        encoded(pixels.drop_last()) + pixel_bytes(pixels.last())
    }
}

/// One more pixel adds its three bytes at the end.
pub proof fn lemma_encoded_push(pixels: Seq<Color>, c: Color)
    ensures
        encoded(pixels.push(c)) == encoded(pixels) + pixel_bytes(c),
{
    assert(pixels.push(c).drop_last() == pixels);
}

/// Each pixel takes three bytes.
pub proof fn lemma_encoded_len(pixels: Seq<Color>)
    ensures
        encoded(pixels).len() == 3 * pixels.len(),
    decreases pixels.len(),
{
    if pixels.len() > 0 {
        lemma_encoded_len(pixels.drop_last());
    }
}

/// The decimal digits of `n` as ASCII bytes.
pub open spec fn decimal(n: nat) -> Seq<u8>
    decreases n,
{
    if n < 10 {
        seq![(48 + n) as u8]
    } else {
        decimal(n / 10).push((48 + n % 10) as u8)
    }
}

/// The header of a binary portable pixmap of the given size with 255 as the largest
/// channel value: `P6`, a line feed, width, a space, height, a line feed, `255`, a
/// line feed.
pub open spec fn header(width: nat, height: nat) -> Seq<u8> {
    seq![80u8, 54u8, 10u8] + decimal(width) + seq![32u8] + decimal(height) + seq![
        10u8,
        50u8,
        53u8,
        53u8,
        10u8,
    ]
}

/// Appends the decimal digits of `n` to `out`.
pub fn write_decimal(n: u32, out: &mut Vec<u8>)
    ensures
        final(out)@ == old(out)@ + decimal(n as nat),
    decreases n,
{
    if n < 10 {
        out.push(48 + (n as u8));
        assert(out@ == old(out)@ + decimal(n as nat));
    } else {
        write_decimal(n / 10, out);
        out.push(48 + ((n % 10) as u8));
        assert(out@ == old(out)@ + decimal(n as nat));
    }
}

/// The header of a binary portable pixmap of the given size.
pub fn ppm_header(width: u32, height: u32) -> (out: Vec<u8>)
    ensures
        out@ == header(width as nat, height as nat),
{
    let mut out: Vec<u8> = Vec::new();
    out.push(80);
    out.push(54);
    out.push(10);
    write_decimal(width, &mut out);
    out.push(32);
    write_decimal(height, &mut out);
    out.push(10);
    out.push(50);
    out.push(53);
    out.push(53);
    out.push(10);
    assert(out@ == header(width as nat, height as nat));
    out
}

impl Camera {
    /// The first thing wrong with a configuration, if anything is.
    pub open spec fn fault(
        aspect_ratio: Scalar,
        image_width: i32,
        samples_per_pixel: i32,
        max_depth: i32,
        vfov: Scalar,
        lookfrom: Vec3,
        lookat: Vec3,
        vup: Vec3,
        defocus_angle: Scalar,
        focus_dist: Scalar,
    ) -> Option<ConfigError> {
        let zero = Scalar::of_bits(0);
        let across = vup.cross_product(lookfrom.minus(lookat));
        if !zero.lt(aspect_ratio) {
            Some(ConfigError::AspectRatio)
        } else if image_width <= 0 {
            Some(ConfigError::ImageWidth)
        } else if samples_per_pixel <= 0 {
            Some(ConfigError::SamplesPerPixel)
        } else if max_depth < 0 {
            Some(ConfigError::MaxDepth)
        } else if !(zero.lt(vfov) && vfov.lt(Scalar::of_bits(HALF_TURN_BITS))) {
            Some(ConfigError::FieldOfView)
        } else if across.x.is_zero() && across.y.is_zero() && across.z.is_zero() {
            Some(ConfigError::UpDirection)
        } else if !zero.le(defocus_angle) {
            Some(ConfigError::DefocusAngle)
        } else if !zero.lt(focus_dist) {
            Some(ConfigError::FocusDistance)
        } else {
            None
        }
    }

    /// What a configuration must hold for an image to be rendered from it.
    pub open spec fn well_formed(self) -> bool {
        self.image_width > 0 && self.samples_per_pixel > 0
    }

    /// The number of rows: the width divided by the aspect ratio, rounded to the
    /// nearest whole number, and at least 1.
    pub open spec fn rows(self) -> int {
        let h = Scalar::of_integer(self.image_width as int).quotient(self.aspect_ratio).rounded_i32();
        if h < 1 {
            1
        } else {
            h
        }
    }

    /// Half the vertical field of view, in radians.
    pub open spec fn half_view(self) -> Scalar {
        radians(self.vfov).quotient(Scalar::of_bits(TWO_BITS))
    }

    /// Half the defocus angle, in radians.
    pub open spec fn half_defocus(self) -> Scalar {
        radians(self.defocus_angle.quotient(Scalar::of_bits(TWO_BITS)))
    }

    /// The camera with its derived state computed, given the tangents of half the
    /// vertical field of view and of half the defocus angle.
    pub open spec fn initialized(self, tan_half_view: Scalar, tan_half_defocus: Scalar) -> Camera {
        let two = Scalar::of_bits(TWO_BITS);
        let height = self.rows();
        let width_number = Scalar::of_integer(self.image_width as int);
        let height_number = Scalar::of_integer(height);
        let viewport_height = two.product(tan_half_view).product(self.focus_dist);
        let viewport_width = viewport_height.product(width_number.quotient(height_number));
        let w = self.lookfrom.minus(self.lookat).unit();
        let u = self.vup.cross_product(w).unit();
        let v = w.cross_product(u);
        let viewport_u = u.scaled(viewport_width);
        let viewport_v = v.negated().scaled(viewport_height);
        let delta_u = viewport_u.divided(width_number);
        let delta_v = viewport_v.divided(height_number);
        let upper_left = self.lookfrom.minus(w.scaled(self.focus_dist)).minus(
            viewport_u.divided(two),
        ).minus(viewport_v.divided(two));
        let defocus_radius = self.focus_dist.product(tan_half_defocus);
        Camera {
            image_height: height as i32,
            pixel_samples_scale: Scalar::of_bits(ONE_BITS).quotient(
                Scalar::of_integer(self.samples_per_pixel as int),
            ),
            center: self.lookfrom,
            pixel00_loc: upper_left.plus(delta_u.plus(delta_v).scaled(Scalar::of_bits(HALF_BITS))),
            pixel_delta_u: delta_u,
            pixel_delta_v: delta_v,
            defocus_disk_u: u.scaled(defocus_radius),
            defocus_disk_v: v.scaled(defocus_radius),
            ..self
        }
    }

    /// The point of pixel `(i, j)` that lies `offset` away from its centre.
    pub open spec fn pixel_point(self, i: i32, j: i32, offset: Vec3) -> Point3 {
        self.pixel00_loc.plus(
            self.pixel_delta_u.scaled(Scalar::of_integer(i as int).sum(offset.x)),
        ).plus(self.pixel_delta_v.scaled(Scalar::of_integer(j as int).sum(offset.y)))
    }

    /// The point of the lens that the point `p` of the unit disk stands for.
    pub open spec fn lens_point(self, p: Vec3) -> Point3 {
        self.center.plus(self.defocus_disk_u.scaled(p.x)).plus(self.defocus_disk_v.scaled(p.y))
    }

    /// The ray to the point of pixel `(i, j)` that lies `offset` away from its centre,
    /// from the lens point that `lens` stands for, or from the camera centre if there
    /// is no defocus.
    pub open spec fn ray_through(self, i: i32, j: i32, offset: Vec3, lens: Vec3) -> Ray {
        let origin = if self.defocus_angle.le(Scalar::of_bits(0)) {
            self.center
        } else {
            self.lens_point(lens)
        };
        Ray { origin, direction: self.pixel_point(i, j, offset).minus(origin) }
    }

    /// A camera with the given configuration, or the first thing wrong with it. The
    /// derived state is zero until the camera is initialized.
#[verifier::rlimit(40)]
    pub fn new(
        aspect_ratio: Scalar,
        image_width: i32,
        samples_per_pixel: i32,
        max_depth: i32,
        vfov: Scalar,
        lookfrom: Vec3,
        lookat: Vec3,
        vup: Vec3,
        defocus_angle: Scalar,
        focus_dist: Scalar,
    ) -> (res: Result<Camera, ConfigError>)
        ensures
            res is Err <==> Camera::fault(
                aspect_ratio,
                image_width,
                samples_per_pixel,
                max_depth,
                vfov,
                lookfrom,
                lookat,
                vup,
                defocus_angle,
                focus_dist,
            ) is Some,
            res is Err ==> Some(res->Err_0) == Camera::fault(
                aspect_ratio,
                image_width,
                samples_per_pixel,
                max_depth,
                vfov,
                lookfrom,
                lookat,
                vup,
                defocus_angle,
                focus_dist,
            ),
            res is Ok ==> res->Ok_0 == (Camera {
                aspect_ratio,
                image_width,
                samples_per_pixel,
                max_depth,
                vfov,
                lookfrom,
                lookat,
                vup,
                defocus_angle,
                focus_dist,
                image_height: 0,
                pixel_samples_scale: Scalar::of_bits(ONE_BITS).quotient(
                    Scalar::of_integer(samples_per_pixel as int),
                ),
                center: Vec3::origin(),
                pixel00_loc: Vec3::origin(),
                pixel_delta_u: Vec3::origin(),
                pixel_delta_v: Vec3::origin(),
                defocus_disk_u: Vec3::origin(),
                defocus_disk_v: Vec3::origin(),
            }),
            res is Ok ==> res->Ok_0.well_formed(),
    {
        let zero = Scalar::zero();
        let across = cross(&vup, &lookfrom.sub(&lookat));
        if !aspect_ratio.greater(&zero) {
            return Err(ConfigError::AspectRatio);
        }
        if image_width <= 0 {
            return Err(ConfigError::ImageWidth);
        }
        if samples_per_pixel <= 0 {
            return Err(ConfigError::SamplesPerPixel);
        }
        if max_depth < 0 {
            return Err(ConfigError::MaxDepth);
        }
        if !(vfov.greater(&zero) && vfov.less(&Scalar::from_bits(HALF_TURN_BITS))) {
            return Err(ConfigError::FieldOfView);
        }
        if across.x.magnitude_bits() == 0 && across.y.magnitude_bits() == 0
            && across.z.magnitude_bits() == 0 {
            return Err(ConfigError::UpDirection);
        }
        if !defocus_angle.greater_eq(&zero) {
            return Err(ConfigError::DefocusAngle);
        }
        if !focus_dist.greater(&zero) {
            return Err(ConfigError::FocusDistance);
        }
        Ok(
            Camera {
                aspect_ratio,
                image_width,
                samples_per_pixel,
                max_depth,
                vfov,
                lookfrom,
                lookat,
                vup,
                defocus_angle,
                focus_dist,
                image_height: 0,
                pixel_samples_scale: Scalar::one().div(&Scalar::from_i32(samples_per_pixel)),
                center: Vec3::zero(),
                pixel00_loc: Vec3::zero(),
                pixel_delta_u: Vec3::zero(),
                pixel_delta_v: Vec3::zero(),
                defocus_disk_u: Vec3::zero(),
                defocus_disk_v: Vec3::zero(),
            },
        )
    }

    /// Half the vertical field of view in radians: the angle whose tangent
    /// `initialize` and `render` ask for.
    pub fn half_view_angle(&self) -> (r: Scalar)
        ensures
            r == self.half_view(),
    {
        degrees_to_radians(self.vfov).div(&Scalar::two())
    }

    /// Half the defocus angle in radians: the other angle whose tangent `initialize`
    /// and `render` ask for.
    pub fn half_defocus_angle(&self) -> (r: Scalar)
        ensures
            r == self.half_defocus(),
    {
        degrees_to_radians(self.defocus_angle.div(&Scalar::two()))
    }

    /// The number of rows of the image.
    pub fn image_rows(&self) -> (h: i32)
        ensures
            h == self.rows(),
            h >= 1,
    {
        let h = Scalar::from_i32(self.image_width).div(&self.aspect_ratio).round_to_i32();
        if h < 1 {
            1
        } else {
            h
        }
    }

    /// Computes the derived state from the configuration and the two tangents.
#[verifier::rlimit(40)]
    pub fn initialize(&mut self, tan_half_view: Scalar, tan_half_defocus: Scalar)
        ensures
            *final(self) == old(self).initialized(tan_half_view, tan_half_defocus),
            final(self).image_height >= 1,
    {
        let two = Scalar::two();
        self.image_height = self.image_rows();
        self.pixel_samples_scale = Scalar::one().div(&Scalar::from_i32(self.samples_per_pixel));
        self.center = self.lookfrom;
        let width_number = Scalar::from_i32(self.image_width);
        let height_number = Scalar::from_i32(self.image_height);
        let viewport_height = two.mul(&tan_half_view).mul(&self.focus_dist);
        let viewport_width = viewport_height.mul(&width_number.div(&height_number));
        let w = unit_vector(self.lookfrom.sub(&self.lookat));
        let u = unit_vector(cross(&self.vup, &w));
        let v = cross(&w, &u);
        let viewport_u = u.mul(viewport_width);
        let viewport_v = v.neg().mul(viewport_height);
        self.pixel_delta_u = viewport_u.div(width_number);
        self.pixel_delta_v = viewport_v.div(height_number);
        let viewport_upper_left = self.center.sub(&w.mul(self.focus_dist)).sub(
            &viewport_u.div(two),
        ).sub(&viewport_v.div(two));
        self.pixel00_loc = viewport_upper_left.add(
            &self.pixel_delta_u.add(&self.pixel_delta_v).mul(Scalar::half()),
        );
        let defocus_radius = self.focus_dist.mul(&tan_half_defocus);
        self.defocus_disk_u = u.mul(defocus_radius);
        self.defocus_disk_v = v.mul(defocus_radius);
    }

    /// The point of pixel `(i, j)` that lies `offset` away from its centre.
    pub fn pixel_sample(&self, i: i32, j: i32, offset: Vec3) -> (p: Point3)
        ensures
            p == self.pixel_point(i, j, offset),
    {
        self.pixel00_loc.add(&self.pixel_delta_u.mul(Scalar::from_i32(i).add(&offset.x()))).add(
            &self.pixel_delta_v.mul(Scalar::from_i32(j).add(&offset.y())),
        )
    }

    /// The point of the lens that the point `p` of the unit disk stands for.
    pub fn defocus_disk_point(&self, p: Vec3) -> (r: Point3)
        ensures
            r == self.lens_point(p),
    {
        self.center.add(&self.defocus_disk_u.mul(p.x())).add(&self.defocus_disk_v.mul(p.y()))
    }

    /// A random point of the lens.
    pub fn defocus_disk_sample(&self) -> (r: Point3)
        ensures
            exists|p: Vec3| is_inside_unit(p) && r == #[trigger] self.lens_point(p),
    {
        let p = random_in_unit_disk();
        self.defocus_disk_point(p)
    }

    /// The ray to a given point of pixel `(i, j)` from a given point of the lens.
    pub fn get_ray_with(&self, i: i32, j: i32, offset: Vec3, lens: Vec3) -> (r: Ray)
        ensures
            r == self.ray_through(i, j, offset, lens),
    {
        let pixel_sample = self.pixel_sample(i, j, offset);
        let ray_origin = if self.defocus_angle.less_eq(&Scalar::zero()) {
            self.center
        } else {
            self.defocus_disk_point(lens)
        };
        Ray::new(ray_origin, pixel_sample.sub(&ray_origin))
    }

    /// Whether `offset` is a sample of the square of side 1 around a pixel's centre:
    /// two unit samples less one half, and zero.
    pub open spec fn is_square_sample(offset: Vec3) -> bool {
        &&& exists|t: Scalar|
            is_unit_sample(t) && offset.x == #[trigger] t.difference(Scalar::of_bits(HALF_BITS))
        &&& exists|t: Scalar|
            is_unit_sample(t) && offset.y == #[trigger] t.difference(Scalar::of_bits(HALF_BITS))
        &&& offset.z == Scalar::of_bits(0)
    }

    /// A random point of the square from `(-0.5, -0.5)` to `(0.5, 0.5)`.
    pub fn sample_square() -> (offset: Vec3)
        ensures
            Camera::is_square_sample(offset),
    {
        let tx = random_f64();
        let ty = random_f64();
        let x = tx.sub(&Scalar::half());
        let y = ty.sub(&Scalar::half());
        assert(is_unit_sample(tx) && x == tx.difference(Scalar::of_bits(HALF_BITS)));
        assert(is_unit_sample(ty) && y == ty.difference(Scalar::of_bits(HALF_BITS)));
        Vec3::new(x, y, Scalar::zero())
    }

    /// A ray from the lens to a random point of pixel `(i, j)`.
    pub fn get_ray(&self, i: i32, j: i32) -> (r: Ray)
        ensures
            exists|offset: Vec3, lens: Vec3|
                Camera::is_square_sample(offset) && is_inside_unit(lens) && r
                    == #[trigger] self.ray_through(i, j, offset, lens),
    {
        let offset = Camera::sample_square();
        let pixel_sample = self.pixel_sample(i, j, offset);
        let ray_origin = if self.defocus_angle.less_eq(&Scalar::zero()) {
            self.center
        } else {
            self.defocus_disk_sample()
        };
        let r = Ray::new(ray_origin, pixel_sample.sub(&ray_origin));
        proof {
            let lens = if self.defocus_angle.le(Scalar::of_bits(0)) {
                Vec3::origin()
            } else {
                choose|p: Vec3| is_inside_unit(p) && ray_origin == #[trigger] self.lens_point(p)
            };
            crate::vector::lemma_zero_norm();
            assert(is_inside_unit(lens));
            assert(r == self.ray_through(i, j, offset, lens));
        }
        r
    }

    /// The light that arrives along `r` from `world`, followed through at most `depth`
    /// scatterings.
#[verifier::rlimit(40)]
    pub fn ray_color<W: Hittable>(r: Ray, world: &W, depth: i32) -> (c: Color)
        ensures
            may_trace(r, *world, depth as int, c),
            depth <= 0 ==> c == black(),
            depth > 0 && world.nearest(r, trace_window()) is None ==> c == sky(r),
        decreases depth,
    {
        if depth <= 0 {
            assert(is_path(r, *world, depth as int, Seq::empty()));
            return Vec3::zero();
        }
        let window = Interval::new(Scalar::from_bits(NEAREST_BITS), Scalar::infinity());
        match world.hit(&r, window) {
            Some(record) => {
                match record.mat {
                    Some(mat) => {
                        let out = mat.scatter(r, &record);
                        match out {
                            Some((attenuation, scattered)) => {
                                let rest = Camera::ray_color(scattered, world, depth - 1);
                                let c = attenuation.mul_vec(&rest);
                                proof {
                                    let pair = out->0;
                                    let tail = choose|tail: Seq<(Color, Ray)>| #[trigger]
                                        is_path(scattered, *world, depth - 1, tail) && rest
                                            == traced(scattered, *world, depth - 1, tail);
                                    let path = seq![pair] + tail;
                                    assert(path[0] == pair);
                                    assert(path.drop_first() == tail);
                                    assert(is_path(r, *world, depth as int, path));
                                    assert(c == traced(r, *world, depth as int, path));
                                }
                                return c;
                            },
                            None => {
                                assert(is_path(r, *world, depth as int, Seq::empty()));
                                return Vec3::zero();
                            },
                        }
                    },
                    None => {},
                }
            },
            None => {},
        }
        assert(is_path(r, *world, depth as int, Seq::empty()));
        sky_color(&r)
    }

    /// Whether `c` is a colour that one sample of pixel `(i, j)` can have.
    pub open spec fn may_sample<W: Hittable>(self, world: W, i: i32, j: i32, c: Color) -> bool {
        exists|offset: Vec3, lens: Vec3|
            Camera::is_square_sample(offset) && is_inside_unit(lens) && #[trigger] may_trace(
                self.ray_through(i, j, offset, lens),
                world,
                self.max_depth as int,
                c,
            )
    }

    /// Whether `c` is a colour that pixel `(i, j)` can have: the sum of
    /// `samples_per_pixel` samples multiplied by `pixel_samples_scale`.
    pub open spec fn may_colour<W: Hittable>(self, world: W, i: i32, j: i32, c: Color) -> bool {
        exists|samples: Seq<Color>|
            samples.len() == self.samples_per_pixel && (forall|k: int|
                0 <= k < samples.len() ==> self.may_sample(world, i, j, #[trigger] samples[k])) && c
                == (#[trigger] total(samples)).scaled(self.pixel_samples_scale)
    }

    /// Whether `pixels` are colours that the pixels of the image can have, row by row
    /// from the top and in each row from the left.
    #[verifier::opaque]
    pub open spec fn may_show<W: Hittable>(self, world: W, pixels: Seq<Color>) -> bool {
        forall|k: int|
            0 <= k < pixels.len() ==> self.may_colour(
                world,
                (k % (self.image_width as int)) as i32,
                (k / (self.image_width as int)) as i32,
                #[trigger] pixels[k],
            )
    }

    /// One more pixel that the image can have.
    pub proof fn lemma_show_next<W: Hittable>(
        self,
        world: W,
        pixels: Seq<Color>,
        c: Color,
        i: i32,
        j: i32,
    )
        requires
            self.may_show(world, pixels),
            0 <= i < self.image_width,
            0 <= j,
            pixels.len() == self.image_width * j + i,
            self.may_colour(world, i, j, c),
        ensures
            self.may_show(world, pixels.push(c)),
    {
        reveal(Camera::may_show);
        let w = self.image_width as int;
        let k = pixels.len() as int;
        let longer = pixels.push(c);
        assert(k == j * w + i) by (nonlinear_arith)
            requires
                k == w * j + i,
        ;
        vstd::arithmetic::div_mod::lemma_fundamental_div_mod_converse(k, w, j as int, i as int);
        assert forall|n: int| 0 <= n < longer.len() implies self.may_colour(
            world,
            (n % w) as i32,
            (n / w) as i32,
            #[trigger] longer[n],
        ) by {
            if n < k {
                assert(longer[n] == pixels[n]);
            }
        }
    }

    /// The colour of pixel `(i, j)`: the mean of `samples_per_pixel` traced rays.
    pub fn pixel_color<W: Hittable>(&self, world: &W, i: i32, j: i32) -> (c: Color)
        requires
            self.samples_per_pixel > 0,
        ensures
            self.may_colour(*world, i, j, c),
    {
        let mut color = Vec3::zero();
        let mut s: i32 = 0;
        let ghost mut samples: Seq<Color> = Seq::empty();
        while s < self.samples_per_pixel
            invariant
                0 <= s <= self.samples_per_pixel,
                samples.len() == s,
                color == total(samples),
                forall|k: int|
                    0 <= k < samples.len() ==> self.may_sample(*world, i, j, #[trigger] samples[k]),
            decreases self.samples_per_pixel - s,
        {
            let r = self.get_ray(i, j);
            let sample = Camera::ray_color(r, world, self.max_depth);
            proof {
                assert(self.may_sample(*world, i, j, sample));
                let longer = samples.push(sample);
                assert(longer.drop_last() == samples);
                assert(longer.last() == sample);
                samples = longer;
            }
            color = color.add(&sample);
            s = s + 1;
        }
        let c = color.mul(self.pixel_samples_scale);
        assert(c == total(samples).scaled(self.pixel_samples_scale));
        c
    }

    /// Renders `world` as a binary portable pixmap: the header, then three bytes for
    /// each pixel, row by row from the top, each row from the left.
#[verifier::rlimit(40)]
    pub fn render<W: Hittable>(
        &mut self,
        world: &W,
        tan_half_view: Scalar,
        tan_half_defocus: Scalar,
    ) -> (out: Vec<u8>)
        requires
            old(self).well_formed(),
        ensures
            *final(self) == old(self).initialized(tan_half_view, tan_half_defocus),
            exists|pixels: Seq<Color>|
                pixels.len() == final(self).image_width * final(self).image_height
                    && final(self).may_show(*world, pixels) && out@ == header(
                    final(self).image_width as nat,
                    final(self).image_height as nat,
                ) + #[trigger] encoded(pixels),
            out@.len() == header(final(self).image_width as nat, final(self).image_height as nat).len()
                + 3 * final(self).image_width * final(self).image_height,
    {
        self.initialize(tan_half_view, tan_half_defocus);
        let mut out = ppm_header(self.image_width as u32, self.image_height as u32);
        let ghost head = out@;
        let ghost mut pixels: Seq<Color> = Seq::empty();
        proof {
            reveal(Camera::may_show);
            assert(self.may_show(*world, pixels));
        }
        let mut j: i32 = 0;
        while j < self.image_height
            invariant
                0 <= j <= self.image_height,
                self.image_width > 0,
                self.samples_per_pixel > 0,
                pixels.len() == self.image_width * j,
                out@ == head + encoded(pixels),
                self.may_show(*world, pixels),
            decreases self.image_height - j,
        {
            let mut i: i32 = 0;
            while i < self.image_width
                invariant
                    0 <= i <= self.image_width,
                    0 <= j < self.image_height,
                    self.samples_per_pixel > 0,
                    pixels.len() == self.image_width * j + i,
                    out@ == head + encoded(pixels),
                    self.may_show(*world, pixels),
                decreases self.image_width - i,
            {
                let color = self.pixel_color(world, i, j);
                color.write(&mut out);
                proof {
                    self.lemma_show_next(*world, pixels, color, i, j);
                    lemma_encoded_push(pixels, color);
                    assert(out@ == head + encoded(pixels.push(color)));
                    pixels = pixels.push(color);
                }
                i = i + 1;
            }
            assert(self.image_width * j + self.image_width == self.image_width * (j + 1))
                by (nonlinear_arith);
            j = j + 1;
        }
        proof {
            lemma_encoded_len(pixels);
            assert(3 * (self.image_width * self.image_height) == 3 * self.image_width
                * self.image_height) by (nonlinear_arith);
        }
        out
    }
}

} // verus!
