//! A ray tracer whose arithmetic is proved.
//!
//! Numbers are binary64 values held by their encoding ([`scalar`]); sums, products,
//! quotients and square roots are computed with integer arithmetic and proved to be the
//! correctly rounded results that IEEE 754 asks for ([`rounding`], [`arith`], [`root`]),
//! to keep the order of numbers ([`order`]) and to be exact where no rounding is needed
//! ([`exact`]). On these stand vectors, rays and intervals, spheres and scenes with
//! their nearest-hit search, the materials, and the camera that turns a scene into the
//! bytes of an image.
pub mod scalar;
pub mod rounding;
pub mod arith;
pub mod root;
pub mod convert;
pub mod order;
pub mod exact;
pub mod common;
pub mod interval;
pub mod vector;
pub mod ray;
pub mod hittable;
pub mod material;
pub mod sphere;
pub mod hittable_list;
pub mod camera;
