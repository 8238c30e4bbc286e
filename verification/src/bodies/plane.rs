//! Planes, the intersection of a ray with one, and the checkerboard that
//! a plane can carry.
use vstd::prelude::*;
use crate::bodies::{COORD_MAX, DISTANCE_MAX};
use crate::color::Color;
use crate::fixed::{abs, div_floor, div_trunc, lemma_tdiv_bound, tdiv, ONE};
use crate::vector::{dot_wide, lemma_vdot_bound, subtract_vec, vdot, vsub, within, Vec3, V3};

verus! {

/// The side of a checkerboard cell: half a unit of length.
pub const CHECK_SIZE: i64 = 500_000;

/// A normal whose component along an axis exceeds this in magnitude, nine
/// tenths, is taken to point along that axis.
pub const AXIS_DOMINANCE: i64 = 900_000;

/// A ray whose direction has a smaller dot product with the normal than
/// this, a ten-thousandth, is taken to run parallel to the plane. The dot
/// product counts millionths of millionths.
pub const PARALLEL_LIMIT: i128 = 100_000_000;

/// A plane with its material.
#[derive(Copy, Clone, Debug, PartialEq, Eq, Structural)]
pub struct Plane {
    pub point: Vec3,
    pub normal: Vec3,
    pub color: Color,
    pub roughness: i64,
    pub is_checkered: bool,
    pub emissive: bool,
    pub emission_color: Color,
}

/// The colour of the dark cells of a checkerboard: a dark grey, which
/// still reflects some light.
pub open spec fn dark_cell() -> Color {
    Color { r: 60, g: 60, b: 60, a: 255 }
}

/// The sum of the two cell indices of a point of the checkerboard with
/// the coordinates `u` and `v` in the plane.
pub open spec fn checker_cell(u: int, v: int) -> int {
    u / (CHECK_SIZE as int) + v / (CHECK_SIZE as int)
}

/// The two coordinates of `hit_point` in a plane with the given normal:
/// those across the axis along which the normal points.
pub open spec fn plane_coordinates(normal: V3, hit_point: V3) -> (int, int) {
    if abs(normal.y) > AXIS_DOMINANCE {
        (hit_point.x, hit_point.z)
    } else if abs(normal.x) > AXIS_DOMINANCE {
        (hit_point.y, hit_point.z)
    } else {
        (hit_point.x, hit_point.y)
    }
}

/// The dot product of the ray's direction with the plane's normal.
pub open spec fn plane_denominator(direction: V3, plane: Plane) -> int {
    vdot(direction, plane.normal@)
}

/// The ray parameter `((P - O) . N) / (D . N)` as a fixed-point scalar,
/// rounded toward zero.
pub open spec fn plane_parameter(origin: V3, direction: V3, plane: Plane) -> int {
    tdiv(
        vdot(vsub(plane.point@, origin), plane.normal@) * ONE,
        plane_denominator(direction, plane),
    )
}

/// The ray parameter at which the ray meets the plane in front of its
/// origin: there is none where the ray runs parallel to the plane or the
/// parameter is not positive.
pub open spec fn plane_hit(origin: V3, direction: V3, plane: Plane) -> Option<int> {
    if abs(plane_denominator(direction, plane)) < PARALLEL_LIMIT {
        None
    } else if plane_parameter(origin, direction, plane) > 0 {
        Some(plane_parameter(origin, direction, plane))
    } else {
        None
    }
}

impl Plane {
    /// The plane's point lies within the coordinate range, its normal has
    /// no component beyond one, and its roughness is a weight between
    /// zero and one.
    pub open spec fn wf(&self) -> bool {
        &&& within(self.point@, COORD_MAX as int)
        &&& within(self.normal@, ONE as int)
        &&& 0 <= self.roughness <= ONE
    }

    /// The colour of the plane at `hit_point`: its own colour, or, on a
    /// checkered plane, white where the sum of the cell indices is even
    /// and the dark cell's colour where it is odd.
    pub open spec fn color_at(&self, hit_point: V3) -> Color {
        if !self.is_checkered {
            self.color
        } else {
            let (u, v) = plane_coordinates(self.normal@, hit_point);
            if checker_cell(u, v) % 2 == 0 {
                Color::spec_white()
            } else {
                dark_cell()
            }
        }
    }

    /// The colour of the plane's surface at `hit_point`.
    pub fn get_color_at(&self, hit_point: Vec3) -> (color: Color)
        ensures
            color == self.color_at(hit_point@),
    {
        if !self.is_checkered {
            return self.color;
        }
        let (u, v): (i64, i64) = if self.normal.y > AXIS_DOMINANCE || self.normal.y
            < -AXIS_DOMINANCE {
            (hit_point.x, hit_point.z)
        } else if self.normal.x > AXIS_DOMINANCE || self.normal.x < -AXIS_DOMINANCE {
            (hit_point.y, hit_point.z)
        } else {
            (hit_point.x, hit_point.y)
        };
        let cell: i64 = div_floor(u, CHECK_SIZE) + div_floor(v, CHECK_SIZE);
        let is_white: bool = cell - 2 * div_floor(cell, 2) == 0;
        if is_white {
            Color::white()
        } else {
            Color::new(60, 60, 60, 255)
        }
    }
}

/// The parameter of the point where the ray from `origin` along
/// `direction` meets the plane, if it meets it in front of the origin.
pub fn ray_plane_intersect(origin: Vec3, direction: Vec3, plane: Plane) -> (t: Option<i64>)
    requires
        within(origin@, COORD_MAX as int),
        within(direction@, ONE as int),
        plane.wf(),
    ensures
        match t {
            Some(v) => plane_hit(origin@, direction@, plane) == Some(v as int) && 0 < v
                <= DISTANCE_MAX,
            None => plane_hit(origin@, direction@, plane) is None,
        },
{
    let denom: i128 = dot_wide(direction, plane.normal);
    if denom < PARALLEL_LIMIT && denom > -PARALLEL_LIMIT {
        return None;
    }
    let p_to_origin: Vec3 = subtract_vec(plane.point, origin);
    proof {
        lemma_vdot_bound(p_to_origin@, plane.normal@, 200_000_000_000, 1_000_000);
        assert(3 * (200_000_000_000 * 1_000_000) == 600_000_000_000_000_000int) by (nonlinear_arith);
    }
    let num: i128 = dot_wide(p_to_origin, plane.normal);
    assert(abs(num as int) <= 600_000_000_000_000_000);
    assert(abs(num * ONE) <= 600_000_000_000_000_000_000_000) by (nonlinear_arith)
        requires
            abs(num as int) <= 600_000_000_000_000_000,
    ;
    let t: i128 = div_trunc(num * ONE as i128, denom);
    proof {
        lemma_plane_parameter_fits(num as int, denom as int);
    }
    if t > 0 {
        Some(t as i64)
    } else {
        None
    }
}

/// The parameter of a ray that does not run parallel to the plane fits in
/// a scalar.
proof fn lemma_plane_parameter_fits(num: int, denom: int)
    requires
        abs(num) <= 600_000_000_000_000_000,
        abs(denom) >= PARALLEL_LIMIT,
    ensures
        abs(tdiv(num * ONE, denom)) <= 6_000_000_000_000_000,
{
    lemma_tdiv_bound(num * ONE, denom);
    let q = abs(tdiv(num * ONE, denom));
    assert(q <= 6_000_000_000_000_000) by (nonlinear_arith)
        requires
            q * abs(denom) <= abs(num * ONE),
            abs(num * ONE) <= 600_000_000_000_000_000_000_000,
            abs(denom) >= 100_000_000,
            0 <= q,
    ;
}

} // verus!
