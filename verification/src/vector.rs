//! Three-component vectors: points, directions and colours.
use vstd::prelude::*;
use crate::scalar::{Scalar, ONE_BITS, TWO_BITS};
use crate::common::{random_f64, random_range_f64, is_unit_sample, ranged};
use crate::interval::Interval;

verus! {

/// Encoding of the bound `1e-8` below which a component counts as zero.
pub const TINY_BITS: u64 = 0x3e45_798e_e230_8c3a;

/// Encoding of 0.999, the brightest intensity a channel is written with.
pub const BRIGHTEST_BITS: u64 = 0x3fef_f7ce_d916_872b;

/// Encoding of 256.
pub const LEVELS_BITS: u64 = 0x4070_0000_0000_0000;

/// How many candidate points a rejection sampler draws before it gives up.
pub const SAMPLING_ATTEMPTS: u32 = 4096;

/// A vector of three numbers; also a point, and a colour by its red, green and blue parts.
#[derive(Clone, Copy, Debug)]
pub struct Vec3 {
    pub x: Scalar,
    pub y: Scalar,
    pub z: Scalar,
}

/// A point in space.
pub type Point3 = Vec3;

/// A colour by its red, green and blue parts.
pub type Color = Vec3;

impl Vec3 {
    /// Whether two vectors stand for the same values, component by component.
    pub open spec fn agrees(self, v: Vec3) -> bool {
        self.x.agrees(v.x) && self.y.agrees(v.y) && self.z.agrees(v.z)
    }

    /// Whether every component is a finite number.
    pub open spec fn is_finite(self) -> bool {
        self.x.is_finite() && self.y.is_finite() && self.z.is_finite()
    }

    /// The vector with the opposite sign in each component.
    pub open spec fn negated(self) -> Vec3 {
        Vec3 { x: self.x.opposite(), y: self.y.opposite(), z: self.z.opposite() }
    }

    /// Component by component sum.
    pub open spec fn plus(self, v: Vec3) -> Vec3 {
        Vec3 { x: self.x.sum(v.x), y: self.y.sum(v.y), z: self.z.sum(v.z) }
    }

    /// Component by component difference.
    pub open spec fn minus(self, v: Vec3) -> Vec3 {
        Vec3 {
            x: self.x.difference(v.x),
            y: self.y.difference(v.y),
            z: self.z.difference(v.z),
        }
    }

    /// Each component multiplied by `t`.
    pub open spec fn scaled(self, t: Scalar) -> Vec3 {
        Vec3 { x: self.x.product(t), y: self.y.product(t), z: self.z.product(t) }
    }

    /// Component by component product.
    pub open spec fn times(self, v: Vec3) -> Vec3 {
        Vec3 { x: self.x.product(v.x), y: self.y.product(v.y), z: self.z.product(v.z) }
    }

    /// Each component multiplied by the rounded reciprocal of `t`.
    pub open spec fn divided(self, t: Scalar) -> Vec3 {
        self.scaled(Scalar::of_bits(ONE_BITS).quotient(t))
    }

    /// The dot product `x * x' + y * y' + z * z'`, added up from the left.
    pub open spec fn dot_product(self, v: Vec3) -> Scalar {
        self.x.product(v.x).sum(self.y.product(v.y)).sum(self.z.product(v.z))
    }

    /// The cross product.
    pub open spec fn cross_product(self, v: Vec3) -> Vec3 {
        Vec3 {
            x: self.y.product(v.z).difference(self.z.product(v.y)),
            y: self.z.product(v.x).difference(self.x.product(v.z)),
            z: self.x.product(v.y).difference(self.y.product(v.x)),
        }
    }

    /// The squared length: the dot product of the vector with itself.
    pub open spec fn norm_squared(self) -> Scalar {
        self.dot_product(self)
    }

    /// The length: the square root of the squared length.
    pub open spec fn norm(self) -> Scalar {
        self.norm_squared().root()
    }

    /// The vector divided by its length.
    pub open spec fn unit(self) -> Vec3 {
        self.divided(self.norm())
    }

    /// Whether every component is smaller in magnitude than `1e-8`.
    pub open spec fn is_near_zero(self) -> bool {
        let tiny = Scalar::of_bits(TINY_BITS);
        self.x.absolute().lt(tiny) && self.y.absolute().lt(tiny) && self.z.absolute().lt(tiny)
    }

    /// The mirror image of the direction `self` at a surface with unit normal `n`:
    /// `self - 2 * dot(self, n) * n`.
    pub open spec fn reflected(self, n: Vec3) -> Vec3 {
        self.minus(n.scaled(Scalar::of_bits(TWO_BITS).product(self.dot_product(n))))
    }

    /// The part of the refracted direction that is perpendicular to the normal.
    pub open spec fn refracted_across(self, n: Vec3, eta_ratio: Scalar) -> Vec3 {
        let cos_theta = self.negated().dot_product(n).lesser(Scalar::of_bits(ONE_BITS));
        self.plus(n.scaled(cos_theta)).scaled(eta_ratio)
    }

    /// The direction of the unit vector `self` after it crosses a surface with unit
    /// normal `n` between media whose refraction indices have the ratio `eta_ratio`,
    /// by Snell's law, as the sum of its part across the normal and its part along it.
    pub open spec fn refracted(self, n: Vec3, eta_ratio: Scalar) -> Vec3 {
        let across = self.refracted_across(n, eta_ratio);
        let gap = Scalar::of_bits(ONE_BITS).difference(across.norm_squared());
        let along = n.scaled(gap.absolute().root().opposite());
        across.plus(along)
    }

    /// The vector with the given components.
    pub fn new(x: Scalar, y: Scalar, z: Scalar) -> (v: Vec3)
        ensures
            v.x == x,
            v.y == y,
            v.z == z,
    {
        Vec3 { x, y, z }
    }

    /// The vector of three zeros.
    pub open spec fn origin() -> Vec3 {
        Vec3 { x: Scalar::of_bits(0), y: Scalar::of_bits(0), z: Scalar::of_bits(0) }
    }

    /// The vector of three zeros.
    pub fn zero() -> (v: Vec3)
        ensures
            v == Vec3::origin(),
    {
        Vec3 { x: Scalar::zero(), y: Scalar::zero(), z: Scalar::zero() }
    }

    /// The first component.
    pub fn x(&self) -> (r: Scalar)
        ensures
            r == self.x,
    {
        self.x
    }

    /// The second component.
    pub fn y(&self) -> (r: Scalar)
        ensures
            r == self.y,
    {
        self.y
    }

    /// The third component.
    pub fn z(&self) -> (r: Scalar)
        ensures
            r == self.z,
    {
        self.z
    }

    /// The opposite vector.
    pub fn neg(&self) -> (r: Vec3)
        ensures
            r == self.negated(),
    {
        Vec3 { x: self.x.neg(), y: self.y.neg(), z: self.z.neg() }
    }

    /// The sum of two vectors.
    pub fn add(&self, v: &Vec3) -> (r: Vec3)
        ensures
            r == self.plus(*v),
    {
        Vec3 { x: self.x.add(&v.x), y: self.y.add(&v.y), z: self.z.add(&v.z) }
    }

    /// The difference of two vectors.
    pub fn sub(&self, v: &Vec3) -> (r: Vec3)
        ensures
            r == self.minus(*v),
    {
        Vec3 { x: self.x.sub(&v.x), y: self.y.sub(&v.y), z: self.z.sub(&v.z) }
    }

    /// The vector multiplied by `t`.
    pub fn mul(&self, t: Scalar) -> (r: Vec3)
        ensures
            r == self.scaled(t),
    {
        Vec3 { x: self.x.mul(&t), y: self.y.mul(&t), z: self.z.mul(&t) }
    }

    /// Component by component product, as of a colour with an attenuation.
    pub fn mul_vec(&self, v: &Vec3) -> (r: Vec3)
        ensures
            r == self.times(*v),
    {
        Vec3 { x: self.x.mul(&v.x), y: self.y.mul(&v.y), z: self.z.mul(&v.z) }
    }

    /// The vector divided by `t`: multiplied by the rounded reciprocal of `t`.
    pub fn div(&self, t: Scalar) -> (r: Vec3)
        ensures
            r == self.divided(t),
    {
        self.mul(Scalar::one().div(&t))
    }

    /// The squared length.
    pub fn length_squared(&self) -> (r: Scalar)
        ensures
            r == self.norm_squared(),
    {
        dot(self, self)
    }

    /// The length.
    pub fn length(&self) -> (r: Scalar)
        ensures
            r == self.norm(),
    {
        self.length_squared().sqrt()
    }

    /// Whether every component is smaller in magnitude than `1e-8`.
    pub fn near_zero(&self) -> (r: bool)
        ensures
            r == self.is_near_zero(),
    {
        let tiny = Scalar::from_bits(TINY_BITS);
        self.x.abs().less(&tiny) && self.y.abs().less(&tiny) && self.z.abs().less(&tiny)
    }

    /// The vector whose components are the three unit samples given.
    pub fn random() -> (v: Vec3)
        ensures
            is_unit_sample(v.x),
            is_unit_sample(v.y),
            is_unit_sample(v.z),
    {
        let x = random_f64();
        let y = random_f64();
        let z = random_f64();
        Vec3 { x, y, z }
    }

    /// A vector with each component uniform in `[min, max)`.
    pub fn random_range(min: Scalar, max: Scalar) -> (v: Vec3)
        ensures
            is_range_sample(v, min, max),
    {
        let x = random_range_f64(min, max);
        let y = random_range_f64(min, max);
        let z = random_range_f64(min, max);
        Vec3 { x, y, z }
    }

    /// Appends the colour's three channels to `out` as bytes: each channel is
    /// gamma-encoded, held to `[0, 0.999]`, multiplied by 256 and cut off to a whole
    /// number.
    pub fn write(&self, out: &mut Vec<u8>)
        ensures
            final(out)@ == old(out)@ + seq![
                channel_byte(self.x),
                channel_byte(self.y),
                channel_byte(self.z),
            ],
    {
        let r = encode_channel(self.x);
        let g = encode_channel(self.y);
        let b = encode_channel(self.z);
        out.push(r);
        out.push(g);
        out.push(b);
        assert(out@ == old(out)@ + seq![r, g, b]);
    }
}

/// Whether each component of `v` is the point of `[min, max)` that some unit sample
/// stands for.
pub open spec fn is_range_sample(v: Vec3, min: Scalar, max: Scalar) -> bool {
    &&& exists|t: Scalar| is_unit_sample(t) && v.x == #[trigger] ranged(min, max, t)
    &&& exists|t: Scalar| is_unit_sample(t) && v.y == #[trigger] ranged(min, max, t)
    &&& exists|t: Scalar| is_unit_sample(t) && v.z == #[trigger] ranged(min, max, t)
}

/// The gamma encoding of a linear intensity: its square root, or 0 if it is not
/// positive.
pub open spec fn gamma(linear: Scalar) -> Scalar {
    if Scalar::of_bits(0).lt(linear) {
        linear.root()
    } else {
        Scalar::of_bits(0)
    }
}

/// The byte a linear intensity is written as.
pub open spec fn channel_byte(linear: Scalar) -> u8 {
    Scalar::of_bits(LEVELS_BITS).product(
        Interval { min: Scalar::of_bits(0), max: Scalar::of_bits(BRIGHTEST_BITS) }.clamped(
            gamma(linear),
        ),
    ).truncated_u8() as u8
}

/// The byte a linear intensity is written as.
pub fn encode_channel(linear: Scalar) -> (b: u8)
    ensures
        b == channel_byte(linear),
{
    let intensity = Interval::new(Scalar::zero(), Scalar::from_bits(BRIGHTEST_BITS));
    Scalar::from_bits(LEVELS_BITS).mul(&intensity.clamp(linear_to_gamma(linear))).to_u8()
}

/// The gamma encoding of a linear intensity.
pub fn linear_to_gamma(linear_component: Scalar) -> (r: Scalar)
    ensures
        r == gamma(linear_component),
{
    if linear_component.greater(&Scalar::zero()) {
        linear_component.sqrt()
    } else {
        Scalar::zero()
    }
}

/// The dot product of two vectors.
pub fn dot(u: &Vec3, v: &Vec3) -> (r: Scalar)
    ensures
        r == u.dot_product(*v),
{
    u.x.mul(&v.x).add(&u.y.mul(&v.y)).add(&u.z.mul(&v.z))
}

/// The cross product of two vectors.
pub fn cross(u: &Vec3, v: &Vec3) -> (r: Vec3)
    ensures
        r == u.cross_product(*v),
{
    Vec3 {
        x: u.y.mul(&v.z).sub(&u.z.mul(&v.y)),
        y: u.z.mul(&v.x).sub(&u.x.mul(&v.z)),
        z: u.x.mul(&v.y).sub(&u.y.mul(&v.x)),
    }
}

/// The vector divided by its length; of the zero vector, a vector of NaNs.
pub fn unit_vector(v: Vec3) -> (r: Vec3)
    ensures
        r == v.unit(),
{
    v.div(v.length())
}

/// The mirror image of `v` at a surface with unit normal `n`.
pub fn reflect(v: Vec3, n: Vec3) -> (r: Vec3)
    ensures
        r == v.reflected(n),
{
    v.sub(&n.mul(Scalar::two().mul(&dot(&v, &n))))
}

/// The direction of the unit vector `uv` after refraction at a surface with unit normal `n`.
#[verifier::rlimit(40)]
pub fn refract(uv: Vec3, n: Vec3, eta_ratio: Scalar) -> (r: Vec3)
    ensures
        r == uv.refracted(n, eta_ratio),
{
    let cos_theta = dot(&uv.neg(), &n).min(&Scalar::one());
    let across = uv.add(&n.mul(cos_theta)).mul(eta_ratio);
    let gap = Scalar::one().sub(&across.length_squared());
    let along = n.mul(gap.abs().sqrt().neg());
    across.add(&along)
}

/// The vector of zeros has squared length zero.
pub proof fn lemma_zero_norm()
    ensures
        Vec3::origin().norm_squared() == Scalar::of_bits(0),
{
    reveal(Scalar::product);
    reveal(Scalar::sum);
    let z = Scalar::of_bits(0);
    assert(z.mantissa() == 0 && z.is_finite() && !z.is_negative());
    assert(z.mantissa() * z.mantissa() == 0) by (nonlinear_arith)
        requires
            z.mantissa() == 0,
    ;
    crate::rounding::lemma_round_zero(1, z.exponent() + z.exponent());
    assert(z.product(z) == z);
    let w = vstd::arithmetic::power2::pow2(0);
    assert(z.signed_mantissa() * w + z.signed_mantissa() * w == 0) by (nonlinear_arith)
        requires
            z.signed_mantissa() == 0,
    ;
    assert(z.sum(z) == z);
}

/// Whether `p` lies inside the unit sphere: its squared length is below 1.
pub open spec fn is_inside_unit(p: Vec3) -> bool {
    p.norm_squared().lt(Scalar::of_bits(ONE_BITS))
}

/// Whether `p` lies inside the unit sphere.
pub fn inside_unit(p: &Vec3) -> (r: bool)
    ensures
        r == is_inside_unit(*p),
{
    p.length_squared().less(&Scalar::one())
}

/// A random point inside the unit sphere, by rejection: points of the cube
/// `[-1, 1)^3` are drawn until one lies inside the sphere. After
/// `SAMPLING_ATTEMPTS` points in a row outside of it, the centre is returned.
pub fn random_in_unit_sphere() -> (p: Vec3)
    ensures
        is_inside_unit(p),
        is_range_sample(p, Scalar::of_bits(ONE_BITS).opposite(), Scalar::of_bits(ONE_BITS))
            || p == Vec3::origin(),
{
    let mut attempts: u32 = 0;
    while attempts < SAMPLING_ATTEMPTS
        invariant
            attempts <= SAMPLING_ATTEMPTS,
        decreases SAMPLING_ATTEMPTS - attempts,
    {
        let p = Vec3::random_range(Scalar::one().neg(), Scalar::one());
        if inside_unit(&p) {
            return p;
        }
        attempts = attempts + 1;
    }
    proof {
        lemma_zero_norm();
    }
    Vec3::zero()
}

/// A random direction of unit length: a random point inside the unit sphere, divided
/// by its length.
pub fn random_unit_vector() -> (v: Vec3)
    ensures
        exists|p: Vec3| is_inside_unit(p) && v == #[trigger] p.unit(),
{
    let p = random_in_unit_sphere();
    unit_vector(p)
}

/// `v` if it points to the side of `normal`, else its opposite.
pub open spec fn turned_toward(v: Vec3, normal: Vec3) -> Vec3 {
    if Scalar::of_bits(0).lt(v.dot_product(normal)) {
        v
    } else {
        v.negated()
    }
}

/// `v` if it points to the side of `normal`, else its opposite.
pub fn toward(v: Vec3, normal: Vec3) -> (r: Vec3)
    ensures
        r == turned_toward(v, normal),
{
    if dot(&v, &normal).greater(&Scalar::zero()) {
        v
    } else {
        v.neg()
    }
}

/// A random unit direction on the side of `normal`.
pub fn random_on_hemisphere(normal: Vec3) -> (v: Vec3)
    ensures
        exists|p: Vec3| is_inside_unit(p) && v == #[trigger] turned_toward(p.unit(), normal),
{
    let on_unit_sphere = random_unit_vector();
    toward(on_unit_sphere, normal)
}

/// A random point inside the unit disk of the plane `z = 0`, by rejection as in
/// [`random_in_unit_sphere`].
pub fn random_in_unit_disk() -> (p: Vec3)
    ensures
        is_inside_unit(p),
        p.z == Scalar::of_bits(0),
{
    let mut attempts: u32 = 0;
    while attempts < SAMPLING_ATTEMPTS
        invariant
            attempts <= SAMPLING_ATTEMPTS,
        decreases SAMPLING_ATTEMPTS - attempts,
    {
        let x = random_range_f64(Scalar::one().neg(), Scalar::one());
        let y = random_range_f64(Scalar::one().neg(), Scalar::one());
        let p = Vec3::new(x, y, Scalar::zero());
        if inside_unit(&p) {
            return p;
        }
        attempts = attempts + 1;
    }
    proof {
        lemma_zero_norm();
    }
    Vec3::zero()
}

} // verus!
