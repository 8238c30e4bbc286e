//! The shapes that a scene is made of.
pub mod plane;
pub mod sphere;

pub use plane::{ray_plane_intersect, Plane};
pub use sphere::{ray_sphere_intersect, Sphere};

use vstd::prelude::*;

verus! {

/// The largest magnitude of a coordinate of a ray's origin or of a shape:
/// a hundred thousand units of length.
pub const COORD_MAX: i64 = 100_000_000_000;

/// No ray within the coordinate range meets a shape within it at a
/// parameter beyond this in magnitude.
pub const DISTANCE_MAX: i64 = 800_000_000_000_000_000;

} // verus!
