//! A Monte Carlo path tracer over fixed-point arithmetic.
//!
//! Every quantity that would be a real number is an `i64` counted in
//! millionths (see [`fixed::ONE`]), so that each operation has an exact
//! integer meaning that the contracts can state.
//!
//! - [`fixed`], [`trig`]: scalars, rounding, square roots, sine and cosine.
//! - [`vector`], [`color`]: vectors, radiance and display colours.
//! - [`bodies`], [`geometry`]: spheres, planes and the scene made of them.
//! - [`random`]: the random draws that select the paths.
//! - [`ray_tracing`]: camera rays, bounce directions, the nearest-hit
//!   search and the recursive radiance estimate.
//! - [`render`]: the frame sampler and the accumulator.
//! - [`theorems`]: what holds of all of these together.
pub mod bodies;
pub mod color;
pub mod fixed;
pub mod geometry;
pub mod random;
pub mod ray_tracing;
pub mod render;
pub mod theorems;
pub mod trig;
pub mod vector;
