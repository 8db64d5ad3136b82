//! Material-scattering core of a small path tracer.
//!
//! Real-valued quantities (coordinates, colors, refraction indices) are held
//! in a fixed-point representation: an `i64` counts multiples of
//! `1 / SCALE`, with `SCALE = 1_000_000_000`. All geometry and scattering
//! logic is verified exactly over that representation.

pub mod hit;
pub mod material;
pub mod ray;
pub mod rng;
pub mod vec3;
