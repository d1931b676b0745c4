//! Materials: how a surface scatters the light that reaches it.
use vstd::prelude::*;
use crate::scalar::{Scalar, INFINITY_BITS, ONE_BITS, TWO_BITS};
use crate::common::{random_f64, is_unit_sample};
use crate::hittable::HitRecord;
use crate::ray::Ray;
use crate::vector::{
    dot, random_unit_vector, reflect, refract, unit_vector, is_inside_unit, lemma_zero_norm, Color,
    Vec3,
};
use crate::rounding::round_magnitude;
use crate::exact::{
    lemma_product_zero, lemma_sum_zero, lemma_difference_zero, lemma_difference_self,
    lemma_product_one, lemma_product_minus_one, lemma_quotient_of_zero, lemma_one_plus_one,
    lemma_one_over_one,
};
use crate::order::{
    lemma_square_sign, lemma_difference_below_one, lemma_root_below_one, lemma_root_of_one,
};

verus! {

/// Why a scene or camera value was refused.
#[derive(Clone, Copy, Debug, PartialEq, Eq, Structural)]
pub enum ConfigError {
    /// A sphere's radius is not a positive number.
    Radius,
    /// A metal's fuzz is not a number from 0 to 1.
    Fuzz,
    /// A dielectric's refraction index is not a positive number.
    RefractionIndex,
    /// The aspect ratio is not a positive finite number.
    AspectRatio,
    /// The image width is not positive.
    ImageWidth,
    /// There is not at least one sample per pixel.
    SamplesPerPixel,
    /// The recursion depth is negative.
    MaxDepth,
    /// The vertical field of view is not strictly between 0 and 180 degrees.
    FieldOfView,
    /// The up direction is parallel to the viewing direction.
    UpDirection,
    /// The defocus angle is not a number of at least 0.
    DefocusAngle,
    /// The focus distance is not a positive finite number.
    FocusDistance,
}

/// A diffuse surface.
#[derive(Clone, Copy, Debug)]
pub struct Lambertian {
    pub albedo: Color,
}

/// A reflecting surface; `fuzz` from 0 (a mirror) to 1 blurs the reflection.
#[derive(Clone, Copy, Debug)]
pub struct Metal {
    pub albedo: Color,
    pub fuzz: Scalar,
}

/// A clear surface that refracts or reflects.
#[derive(Clone, Copy, Debug)]
pub struct Dielectric {
    /// The refraction index of the material over that of the medium around it.
    pub refraction_index: Scalar,
}

/// The material of a surface.
#[derive(Clone, Copy, Debug)]
pub enum Material {
    Lambertian(Lambertian),
    Metal(Metal),
    Dielectric(Dielectric),
}

impl Lambertian {
    /// The ray that leaves the hit when `unit` is the random unit vector drawn: its
    /// direction is the normal plus `unit`, or the normal alone where the two nearly
    /// cancel.
    pub open spec fn scattered(rec: HitRecord, unit: Vec3) -> Ray {
        Ray {
            origin: rec.p,
            direction: if rec.normal.plus(unit).is_near_zero() {
                rec.normal
            } else {
                rec.normal.plus(unit)
            },
        }
    }

    /// A diffuse material of the given albedo.
    pub fn new(c: Color) -> (m: Lambertian)
        ensures
            m.albedo == c,
    {
        Lambertian { albedo: c }
    }

    /// The attenuation and the scattered ray when `unit` is the random unit vector drawn.
    pub fn scatter_with(&self, record: &HitRecord, unit: Vec3) -> (res: (Color, Ray))
        ensures
            res.0 == self.albedo,
            res.1 == Lambertian::scattered(*record, unit),
    {
        let mut scatter_direction = record.normal.add(&unit);
        if scatter_direction.near_zero() {
            scatter_direction = record.normal;
        }
        (self.albedo, Ray::new(record.p, scatter_direction))
    }

    /// Always scatters, with the albedo as attenuation.
    pub fn scatter(&self, r_in: Ray, record: &HitRecord) -> (res: Option<(Color, Ray)>)
        ensures
            res is Some,
            (res->0).0 == self.albedo,
            exists|p: Vec3|
                is_inside_unit(p) && (res->0).1 == #[trigger] Lambertian::scattered(
                    *record,
                    p.unit(),
                ),
    {
        let unit = random_unit_vector();
        Some(self.scatter_with(record, unit))
    }
}

impl Metal {
    /// The direction in which the ray leaves when `unit` is the random unit vector
    /// drawn: the unit mirror direction plus `fuzz * unit`.
    pub open spec fn bounced(self, r_in: Ray, rec: HitRecord, unit: Vec3) -> Vec3 {
        r_in.direction.reflected(rec.normal).unit().plus(unit.scaled(self.fuzz))
    }

    /// The outcome when `unit` is the random unit vector drawn: the ray leaves if its
    /// direction points away from the surface, and is absorbed if not.
    pub open spec fn scattered(self, r_in: Ray, rec: HitRecord, unit: Vec3) -> Option<(Color, Ray)> {
        let direction = self.bounced(r_in, rec, unit);
        if Scalar::of_bits(0).lt(direction.dot_product(rec.normal)) {
            Some((self.albedo, Ray { origin: rec.p, direction }))
        } else {
            None
        }
    }

    /// A metal, if `fuzz` is a number from 0 to 1.
    pub fn new(c: Color, fuzz: Scalar) -> (res: Result<Metal, ConfigError>)
        ensures
            res is Ok <==> Scalar::of_bits(0).le(fuzz) && fuzz.le(Scalar::of_bits(ONE_BITS)),
            res is Ok ==> res->Ok_0.albedo == c && res->Ok_0.fuzz == fuzz,
            res is Err ==> res->Err_0 == ConfigError::Fuzz,
    {
        if fuzz.greater_eq(&Scalar::zero()) && fuzz.less_eq(&Scalar::one()) {
            Ok(Metal { albedo: c, fuzz })
        } else {
            Err(ConfigError::Fuzz)
        }
    }

    /// The outcome when `unit` is the random unit vector drawn.
    pub fn scatter_with(&self, r_in: Ray, record: &HitRecord, unit: Vec3) -> (res: Option<(Color, Ray)>)
        ensures
            res == self.scattered(r_in, *record, unit),
    {
        let mut reflected = reflect(r_in.direction(), record.normal);
        reflected = unit_vector(reflected).add(&unit.mul(self.fuzz));
        let scattered = Ray::new(record.p, reflected);
        if dot(&scattered.direction(), &record.normal).greater(&Scalar::zero()) {
            Some((self.albedo, scattered))
        } else {
            None
        }
    }

    /// Scatters the ray in the mirror direction, blurred by the fuzz, or absorbs it.
    pub fn scatter(&self, r_in: Ray, record: &HitRecord) -> (res: Option<(Color, Ray)>)
        ensures
            exists|p: Vec3|
                is_inside_unit(p) && res == #[trigger] self.scattered(r_in, *record, p.unit()),
    {
        let unit = random_unit_vector();
        self.scatter_with(r_in, record, unit)
    }
}

impl Dielectric {
    /// The ratio of the refraction indices on the two sides of the surface, in the
    /// order in which the ray meets them.
    pub open spec fn ratio(self, front_face: bool) -> Scalar {
        if front_face {
            Scalar::of_bits(ONE_BITS).quotient(self.refraction_index)
        } else {
            self.refraction_index
        }
    }

    /// The fifth power of `x`.
    pub open spec fn fifth_power(x: Scalar) -> Scalar {
        x.product(x).product(x.product(x)).product(x)
    }

    /// Schlick's approximation of the share of light that is reflected:
    /// `r0 + (1 - r0) * (1 - cosine)^5` with `r0 = ((1 - ratio) / (1 + ratio))^2`.
    pub open spec fn schlick(cosine: Scalar, ratio: Scalar) -> Scalar {
        let one = Scalar::of_bits(ONE_BITS);
        let base = one.difference(ratio).quotient(one.sum(ratio));
        let r0 = base.product(base);
        r0.sum(one.difference(r0).product(Dielectric::fifth_power(one.difference(cosine))))
    }

    /// The cosine of the angle between the incoming unit direction and the normal, held
    /// to at most 1.
    pub open spec fn cosine(unit_direction: Vec3, normal: Vec3) -> Scalar {
        unit_direction.negated().dot_product(normal).lesser(Scalar::of_bits(ONE_BITS))
    }

    /// Whether Snell's law has no solution: `ratio * sin(theta) > 1`.
    pub open spec fn cannot_refract(cosine: Scalar, ratio: Scalar) -> bool {
        let one = Scalar::of_bits(ONE_BITS);
        one.lt(ratio.product(one.difference(cosine.product(cosine)).root()))
    }

    /// The ray that leaves when `draw` is the unit sample drawn: reflected if there is
    /// no refraction or the sample falls below the reflectance, refracted otherwise.
    pub open spec fn scattered(self, r_in: Ray, rec: HitRecord, draw: Scalar) -> Ray {
        let ri = self.ratio(rec.front_face);
        let unit_direction = r_in.direction.unit();
        let cos_theta = Dielectric::cosine(unit_direction, rec.normal);
        Ray {
            origin: rec.p,
            direction: if Dielectric::cannot_refract(cos_theta, ri) || draw.lt(
                Dielectric::schlick(cos_theta, ri),
            ) {
                unit_direction.reflected(rec.normal)
            } else {
                unit_direction.refracted(rec.normal, ri)
            },
        }
    }

    /// A dielectric, if the refraction index is a positive number.
    pub fn new(r: Scalar) -> (res: Result<Dielectric, ConfigError>)
        ensures
            res is Ok <==> Scalar::of_bits(0).lt(r),
            res is Ok ==> res->Ok_0.refraction_index == r,
            res is Err ==> res->Err_0 == ConfigError::RefractionIndex,
    {
        if r.greater(&Scalar::zero()) {
            Ok(Dielectric { refraction_index: r })
        } else {
            Err(ConfigError::RefractionIndex)
        }
    }

    /// Schlick's approximation of the reflectance.
    pub fn reflectance(cosine: Scalar, refraction_index: Scalar) -> (r: Scalar)
        ensures
            r == Dielectric::schlick(cosine, refraction_index),
    {
        let one = Scalar::one();
        let base = one.sub(&refraction_index).div(&one.add(&refraction_index));
        let r0 = base.mul(&base);
        let x = one.sub(&cosine);
        let x2 = x.mul(&x);
        r0.add(&one.sub(&r0).mul(&x2.mul(&x2).mul(&x)))
    }

    /// The attenuation and the ray that leaves when `draw` is the unit sample drawn.
    pub fn scatter_with(&self, r_in: Ray, record: &HitRecord, draw: Scalar) -> (res: (Color, Ray))
        ensures
            res.0 == white(),
            res.1 == self.scattered(r_in, *record, draw),
    {
        let one = Scalar::one();
        let attenuation = Vec3::new(one, one, one);
        let ri = if record.front_face {
            one.div(&self.refraction_index)
        } else {
            self.refraction_index
        };
        let unit_direction = unit_vector(r_in.direction());
        let cos_theta = dot(&unit_direction.neg(), &record.normal).min(&one);
        let sin_theta = one.sub(&cos_theta.mul(&cos_theta)).sqrt();
        let cannot_refract = ri.mul(&sin_theta).greater(&one);
        let direction = if cannot_refract || Dielectric::reflectance(cos_theta, ri).greater(&draw) {
            reflect(unit_direction, record.normal)
        } else {
            refract(unit_direction, record.normal, ri)
        };
        (attenuation, Ray::new(record.p, direction))
    }

    /// Always scatters one ray, with no loss.
    pub fn scatter(&self, r_in: Ray, record: &HitRecord) -> (res: Option<(Color, Ray)>)
        ensures
            res is Some,
            (res->0).0 == white(),
            exists|draw: Scalar|
                is_unit_sample(draw) && (res->0).1 == #[trigger] self.scattered(
                    r_in,
                    *record,
                    draw,
                ),
    {
        let draw = random_f64();
        Some(self.scatter_with(r_in, record, draw))
    }
}

/// The colour with all channels 1.
pub open spec fn white() -> Color {
    Vec3 { x: Scalar::of_bits(ONE_BITS), y: Scalar::of_bits(ONE_BITS), z: Scalar::of_bits(ONE_BITS) }
}

impl Material {
    /// Whether `out` is an outcome that scattering `r_in` at the hit `rec` can have,
    /// for some value of the random numbers drawn.
    pub open spec fn may_scatter(self, r_in: Ray, rec: HitRecord, out: Option<(Color, Ray)>) -> bool {
        match self {
            Material::Lambertian(m) => out is Some && (out->0).0 == m.albedo && exists|p: Vec3|
                is_inside_unit(p) && (out->0).1 == #[trigger] Lambertian::scattered(rec, p.unit()),
            Material::Metal(m) => exists|p: Vec3|
                is_inside_unit(p) && out == #[trigger] m.scattered(r_in, rec, p.unit()),
            Material::Dielectric(m) => out is Some && (out->0).0 == white() && exists|draw: Scalar|
                is_unit_sample(draw) && (out->0).1 == #[trigger] m.scattered(r_in, rec, draw),
        }
    }

    /// The attenuation and the ray that leave a hit, or nothing if the light is
    /// absorbed there.
    pub fn scatter(&self, r_in: Ray, record: &HitRecord) -> (res: Option<(Color, Ray)>)
        ensures
            self.may_scatter(r_in, *record, res),
    {
        match self {
            Material::Lambertian(m) => m.scatter(r_in, record),
            Material::Metal(m) => m.scatter(r_in, record),
            Material::Dielectric(m) => m.scatter(r_in, record),
        }
    }
}

/// A metal without fuzz is a mirror: whatever finite vector is drawn, the ray leaves in
/// the mirror direction of the incoming one, taken to unit length.
pub proof fn lemma_mirror(m: Metal, r_in: Ray, rec: HitRecord, unit: Vec3)
    requires
        m.fuzz.is_zero(),
        unit.is_finite(),
    ensures
        m.bounced(r_in, rec, unit).agrees(r_in.direction.reflected(rec.normal).unit()),
        m.scattered(r_in, rec, unit) is Some ==> (m.scattered(r_in, rec, unit)->0).1.direction.agrees(
            r_in.direction.reflected(rec.normal).unit(),
        ),
{
    let w = r_in.direction.reflected(rec.normal).unit();
    lemma_product_zero(unit.x, m.fuzz);
    lemma_product_zero(unit.y, m.fuzz);
    lemma_product_zero(unit.z, m.fuzz);
    lemma_sum_zero(w.x, unit.x.product(m.fuzz));
    lemma_sum_zero(w.y, unit.y.product(m.fuzz));
    lemma_sum_zero(w.z, unit.z.product(m.fuzz));
}

/// With a refraction index of 1 the two sides of a surface have the ratio 1.
pub proof fn lemma_unit_index_ratio(m: Dielectric, front_face: bool)
    requires
        m.refraction_index == Scalar::of_bits(ONE_BITS),
    ensures
        m.ratio(front_face) == Scalar::of_bits(ONE_BITS),
{
    lemma_one_over_one();
}

/// With a ratio of 1 the reflectance at normal incidence `r0` is zero, so that the
/// reflectance is `(1 - cosine)^5` at every angle, and zero where the cosine is 1.
#[verifier::rlimit(40)]
pub proof fn lemma_unit_index_reflectance(cosine: Scalar)
    ensures
        Dielectric::schlick(cosine, Scalar::of_bits(ONE_BITS)).agrees(
            Dielectric::fifth_power(Scalar::of_bits(ONE_BITS).difference(cosine)),
        ),
        Dielectric::schlick(Scalar::of_bits(ONE_BITS), Scalar::of_bits(ONE_BITS)).is_zero(),
{
    let one = Scalar::of_bits(ONE_BITS);
    let zero = Scalar::of_bits(0);
    lemma_difference_self(one);
    lemma_one_plus_one();
    lemma_quotient_of_zero(zero, Scalar::of_bits(TWO_BITS));
    let base = one.difference(one).quotient(one.sum(one));
    lemma_base_sign(zero, Scalar::of_bits(TWO_BITS));
    assert(base == zero);
    lemma_product_zero(zero, zero);
    let r0 = base.product(base);
    lemma_square_sign(base);
    assert(r0 == zero);
    lemma_difference_zero(one, zero);
    assert(one.difference(r0) == one);
    let f = Dielectric::fifth_power(one.difference(cosine));
    lemma_product_one(f);
    lemma_sum_zero(one.product(f), zero);
    let x = one.difference(one);
    assert(x == zero);
    lemma_product_zero(zero, zero);
    lemma_square_sign(zero);
    assert(x.product(x) == zero);
    assert(Dielectric::fifth_power(x) == zero);
    lemma_product_one(zero);
    lemma_sum_zero(zero, zero);
}

/// A zero over a positive number has the sign of the zero.
proof fn lemma_base_sign(z: Scalar, d: Scalar)
    requires
        z.is_zero(),
        !d.is_negative(),
    ensures
        z.quotient(d).is_negative() == z.is_negative() || z.quotient(d).is_nan(),
{
    reveal(Scalar::quotient);
    assert(z.quotient(d).is_nan() || z.quotient(d).magnitude() <= INFINITY_BITS) by {
        if !z.is_nan() && !d.is_nan() && d.is_finite() && !d.is_zero() {
            assert(round_magnitude(d.mantissa(), d.mantissa(), 0) <= INFINITY_BITS);
            assert(round_magnitude(z.mantissa(), d.mantissa(), z.exponent() - d.exponent())
                <= INFINITY_BITS);
        }
    }
}

/// With a ratio of 1 there is refraction at every angle.
pub proof fn lemma_unit_index_refracts(cosine: Scalar)
    ensures
        !Dielectric::cannot_refract(cosine, Scalar::of_bits(ONE_BITS)),
{
    let one = Scalar::of_bits(ONE_BITS);
    lemma_square_sign(cosine);
    lemma_difference_below_one(cosine.product(cosine));
    lemma_root_below_one(one.difference(cosine.product(cosine)));
    lemma_product_one(one.difference(cosine.product(cosine)).root());
}

/// A unit sample is a number from 0 up to, not including, 1.
pub proof fn lemma_unit_sample_range(draw: Scalar)
    requires
        is_unit_sample(draw),
    ensures
        Scalar::of_bits(0).le(draw),
        draw.lt(Scalar::of_bits(ONE_BITS)),
{
    let w = choose|w: nat| w < 0x20_0000_0000_0000 && draw == #[trigger] Scalar::of_fraction(w);
    crate::convert::lemma_fraction_below_one(w);
}

/// Where a unit direction is exactly opposite to the normal and their cosine is exactly
/// 1, the part of the refracted direction across the normal vanishes.
#[verifier::rlimit(40)]
pub proof fn lemma_across_vanishes(d: Vec3, n: Vec3)
    requires
        d.is_finite(),
        n == d.negated(),
        Dielectric::cosine(d, n) == Scalar::of_bits(ONE_BITS),
    ensures
        d.refracted_across(n, Scalar::of_bits(ONE_BITS)) == Vec3::origin(),
{
    let one = Scalar::of_bits(ONE_BITS);
    lemma_product_one(n.x);
    lemma_product_one(n.y);
    lemma_product_one(n.z);
    assert(n.scaled(one) == n);
    lemma_difference_self(d.x);
    lemma_difference_self(d.y);
    lemma_difference_self(d.z);
    assert(d.plus(n) == Vec3::origin());
    lemma_product_one(Scalar::of_bits(0));
}

/// A vector of numbers multiplied by the opposite of the root of 1 is its opposite.
pub proof fn lemma_along_normal(n: Vec3)
    requires
        n.is_finite(),
    ensures
        n.scaled(Scalar::of_bits(ONE_BITS).absolute().root().opposite()) == n.negated(),
{
    let one = Scalar::of_bits(ONE_BITS);
    assert(one.absolute() == one);
    lemma_root_of_one();
    lemma_product_minus_one(n.x);
    lemma_product_minus_one(n.y);
    lemma_product_minus_one(n.z);
}

/// Where a unit direction is exactly opposite to the normal and their cosine is exactly
/// 1, refraction between media of equal index does not change the direction.
#[verifier::rlimit(40)]
pub proof fn lemma_refracted_straight(d: Vec3, n: Vec3)
    requires
        d.is_finite(),
        n == d.negated(),
        Dielectric::cosine(d, n) == Scalar::of_bits(ONE_BITS),
    ensures
        d.refracted(n, Scalar::of_bits(ONE_BITS)).agrees(d),
{
    let one = Scalar::of_bits(ONE_BITS);
    let zero = Scalar::of_bits(0);
    lemma_across_vanishes(d, n);
    let across = d.refracted_across(n, one);
    lemma_zero_norm();
    lemma_difference_zero(one, zero);
    let gap = one.difference(across.norm_squared());
    assert(gap == one);
    assert(n.is_finite()) by {
        assert(n.x.magnitude() == d.x.magnitude());
        assert(n.y.magnitude() == d.y.magnitude());
        assert(n.z.magnitude() == d.z.magnitude());
    }
    lemma_along_normal(n);
    let along = n.scaled(gap.absolute().root().opposite());
    assert(along == n.negated());
    assert(along.x == d.x && along.y == d.y && along.z == d.z);
    lemma_sum_zero(d.x, zero);
    lemma_sum_zero(d.y, zero);
    lemma_sum_zero(d.z, zero);
}

/// With a refraction index of 1, a ray that arrives along the normal goes straight
/// on: where the incoming unit direction is exactly opposite to the normal and their
/// cosine is exactly 1, the ray that leaves has the incoming unit direction.
#[verifier::rlimit(40)]
pub proof fn lemma_straight_through(m: Dielectric, r_in: Ray, rec: HitRecord, draw: Scalar)
    requires
        m.refraction_index == Scalar::of_bits(ONE_BITS),
        is_unit_sample(draw),
        r_in.direction.unit().is_finite(),
        rec.normal == r_in.direction.unit().negated(),
        Dielectric::cosine(r_in.direction.unit(), rec.normal) == Scalar::of_bits(ONE_BITS),
    ensures
        m.scattered(r_in, rec, draw).origin == rec.p,
        m.scattered(r_in, rec, draw).direction.agrees(r_in.direction.unit()),
{
    let one = Scalar::of_bits(ONE_BITS);
    let d = r_in.direction.unit();
    lemma_unit_index_ratio(m, rec.front_face);
    lemma_unit_index_refracts(one);
    lemma_unit_index_reflectance(one);
    lemma_unit_sample_range(draw);
    assert(!draw.lt(Dielectric::schlick(one, one)));
    assert(m.scattered(r_in, rec, draw).direction == d.refracted(rec.normal, one));
    lemma_refracted_straight(d, rec.normal);
}

} // verus!
