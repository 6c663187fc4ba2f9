//! The verified parts of a Monte Carlo path tracer.
//!
//! A path tracer computes with floating-point vectors and colours. None of
//! that arithmetic is here. What is here is everything around it, proved
//! with Verus:
//!
//! - [`hittable`]: the contract between rays and shapes, and collections of
//!   shapes, which find the nearest hit among their members;
//! - [`estimator`]: the radiance estimator, which follows a ray from bounce
//!   to bounce until it leaves the scene, is swallowed, or runs out of
//!   bounces;
//! - [`image`]: the pixel buffer, and the filling of it with one computed
//!   colour per pixel, spread over threads;
//! - [`ppm`] and [`image_writer`]: the plain-text PPM format, written and
//!   read back;
//! - [`decimal`]: decimal numerals, as the format needs them.
//!
//! The types of rays, vectors, positions, materials and colours are left to
//! the caller, who also supplies the arithmetic on them.

pub mod decimal;
pub mod estimator;
pub mod hittable;
pub mod image;
pub mod image_writer;
pub mod ppm;
