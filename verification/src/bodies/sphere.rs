//! Spheres and the intersection of a ray with one.
use vstd::prelude::*;
use crate::bodies::{COORD_MAX, DISTANCE_MAX};
use crate::color::Color;
use crate::fixed::{abs, div_trunc, floor_sqrt, isqrt, lemma_tdiv_bound, tdiv, ONE};
use crate::vector::{
    dot_wide, lemma_mul_bound, lemma_vdot_bound, subtract_vec, vdot, vsub, within, Vec3, V3,
};

verus! {

/// A sphere with its material.
#[derive(Copy, Clone, Debug, PartialEq, Eq, Structural)]
pub struct Sphere {
    pub center: Vec3,
    pub radius: i64,
    pub color: Color,
    pub roughness: i64,
    pub emissive: bool,
    pub emission_color: Color,
}

impl Sphere {
    /// The sphere lies within the coordinate range, its radius is
    /// positive, and its roughness is a weight between zero and one.
    pub open spec fn wf(&self) -> bool {
        &&& within(self.center@, COORD_MAX as int)
        &&& 0 < self.radius <= COORD_MAX
        &&& 0 <= self.roughness <= ONE
    }
}

/// The coefficient `a` of the quadratic in the ray parameter: `D . D`.
pub open spec fn quadratic_a(direction: V3) -> int {
    vdot(direction, direction)
}

/// The coefficient `b` of the quadratic: `2 D . (O - C)`.
pub open spec fn quadratic_b(origin: V3, direction: V3, sphere: Sphere) -> int {
    2 * vdot(direction, vsub(origin, sphere.center@))
}

/// The coefficient `c` of the quadratic: `(O - C) . (O - C) - r * r`.
pub open spec fn quadratic_c(origin: V3, sphere: Sphere) -> int {
    vdot(vsub(origin, sphere.center@), vsub(origin, sphere.center@)) - sphere.radius
        * sphere.radius
}

/// The discriminant `b * b - 4 a c` of the quadratic.
pub open spec fn discriminant(origin: V3, direction: V3, sphere: Sphere) -> int {
    quadratic_b(origin, direction, sphere) * quadratic_b(origin, direction, sphere) - 4
        * quadratic_a(direction) * quadratic_c(origin, sphere)
}

/// The near root `(-b - sqrt(discriminant)) / (2 a)` as a fixed-point
/// scalar, the square root rounded down and the quotient toward zero.
pub open spec fn near_root(origin: V3, direction: V3, sphere: Sphere) -> int {
    tdiv(
        (-quadratic_b(origin, direction, sphere) - floor_sqrt(
            discriminant(origin, direction, sphere),
        )) * ONE,
        2 * quadratic_a(direction),
    )
}

/// The ray parameter at which the ray meets the sphere first, whatever
/// its sign: there is one where the direction is not zero and the
/// discriminant is not negative.
pub open spec fn sphere_hit(origin: V3, direction: V3, sphere: Sphere) -> Option<int> {
    if quadratic_a(direction) > 0 && discriminant(origin, direction, sphere) >= 0 {
        Some(near_root(origin, direction, sphere))
    } else {
        None
    }
}

/// The square of a product with a bounded factor is at most the square of
/// the other factor times the square of the bound.
proof fn lemma_square_of_product(d: int, l: int, bound: int)
    requires
        abs(l) <= bound,
    ensures
        (d * l) * (d * l) <= (bound * bound) * (d * d),
{
    assert((d * l) * (d * l) <= (bound * bound) * (d * d)) by (nonlinear_arith)
        requires
            -bound <= l <= bound,
    ;
}

/// The near root of a ray within the coordinate range stays below the
/// largest distance in magnitude, however short the direction is.
pub proof fn lemma_near_root_bound(d: V3, l: V3, r: int)
    requires
        within(l, 200_000_000_000),
        0 < r <= 100_000_000_000,
        vdot(d, d) > 0,
        (2 * vdot(d, l)) * (2 * vdot(d, l)) - 4 * vdot(d, d) * (vdot(l, l) - r * r) >= 0,
    ensures
        abs(
            tdiv(
                (-(2 * vdot(d, l)) - floor_sqrt(
                    (2 * vdot(d, l)) * (2 * vdot(d, l)) - 4 * vdot(d, d) * (vdot(l, l) - r * r),
                )) * ONE,
                2 * vdot(d, d),
            ),
        ) <= 750_000_000_000_000_000,
{
    let a = vdot(d, d);
    let h = vdot(d, l);
    let b = 2 * h;
    let c = vdot(l, l) - r * r;
    let disc = b * b - 4 * a * c;
    let (p, q, w) = (d.x * l.x, d.y * l.y, d.z * l.z);
    let k = 200_000_000_000 * 200_000_000_000;
    lemma_square_of_product(d.x, l.x, 200_000_000_000);
    lemma_square_of_product(d.y, l.y, 200_000_000_000);
    lemma_square_of_product(d.z, l.z, 200_000_000_000);
    assert(h * h <= 3 * (p * p + q * q + w * w)) by (nonlinear_arith)
        requires
            h == p + q + w,
    ;
    assert(k * (d.x * d.x) + k * (d.y * d.y) + k * (d.z * d.z) == k * a) by (nonlinear_arith)
        requires
            a == d.x * d.x + d.y * d.y + d.z * d.z,
    ;
    assert(b * b == 4 * (h * h)) by (nonlinear_arith)
        requires
            b == 2 * h,
    ;
    assert(l.x * l.x >= 0 && l.y * l.y >= 0 && l.z * l.z >= 0 && r * r
        <= 10_000_000_000_000_000_000_000) by (nonlinear_arith)
        requires
            0 < r <= 100_000_000_000,
    ;
    assert(4 * a * c >= -(40_000_000_000_000_000_000_000 * a)) by (nonlinear_arith)
        requires
            a > 0,
            c >= -10_000_000_000_000_000_000_000,
    ;
    crate::fixed::lemma_floor_sqrt_exists(disc);
    let s = floor_sqrt(disc);
    let num = -b - s;
    assert(num * num <= 2 * (b * b) + 2 * (s * s)) by (nonlinear_arith)
        requires
            num == -b - s,
    ;
    assert(k == 40_000_000_000_000_000_000_000) by (nonlinear_arith)
        requires
            k == 200_000_000_000 * 200_000_000_000,
    ;
    assert(num * num <= 2_000_000_000_000_000_000_000_000 * a);
    let m = 1_500_000_000_000 * a;
    assert(abs(num) <= m) by (nonlinear_arith)
        requires
            num * num <= 2_000_000_000_000_000_000_000_000 * a,
            a >= 1,
            m == 1_500_000_000_000 * a,
    ;
    lemma_tdiv_bound(num * ONE, 2 * a);
    let t = abs(tdiv(num * ONE, 2 * a));
    assert(t <= 750_000_000_000_000_000) by (nonlinear_arith)
        requires
            t * abs(2 * a) <= abs(num * ONE),
            abs(num) <= 1_500_000_000_000 * a,
            a >= 1,
            ONE == 1_000_000,
    ;
}

/// The parameter of the nearer of the two points where the line through
/// `origin` along `direction` meets the sphere. A negative parameter is
/// returned like any other; no root is returned for a ray that starts
/// inside the sphere other than the one behind it.
pub fn ray_sphere_intersect(origin: Vec3, direction: Vec3, sphere: Sphere) -> (t: Option<i64>)
    requires
        within(origin@, COORD_MAX as int),
        within(direction@, ONE as int),
        sphere.wf(),
    ensures
        match t {
            Some(v) => sphere_hit(origin@, direction@, sphere) == Some(v as int) && abs(v as int)
                <= DISTANCE_MAX,
            None => sphere_hit(origin@, direction@, sphere) is None,
        },
{
    let l: Vec3 = subtract_vec(origin, sphere.center);
    proof {
        lemma_vdot_bound(direction@, direction@, 1_000_000, 1_000_000);
        lemma_vdot_bound(direction@, l@, 1_000_000, 200_000_000_000);
        lemma_vdot_bound(l@, l@, 200_000_000_000, 200_000_000_000);
        lemma_mul_bound(
            sphere.radius as int,
            sphere.radius as int,
            100_000_000_000,
            100_000_000_000,
        );
        assert(3 * (1_000_000 * 1_000_000) == 3_000_000_000_000int) by (nonlinear_arith);
        assert(3 * (1_000_000 * 200_000_000_000) == 600_000_000_000_000_000int)
            by (nonlinear_arith);
        assert(3 * (200_000_000_000 * 200_000_000_000) == 120_000_000_000_000_000_000_000int)
            by (nonlinear_arith);
        assert(100_000_000_000 * 100_000_000_000 == 10_000_000_000_000_000_000_000int)
            by (nonlinear_arith);
    }
    let a: i128 = dot_wide(direction, direction);
    let b: i128 = 2 * dot_wide(direction, l);
    let c: i128 = dot_wide(l, l) - sphere.radius as i128 * sphere.radius as i128;
    proof {
        lemma_mul_bound(b as int, b as int, 1_200_000_000_000_000_000, 1_200_000_000_000_000_000);
        lemma_mul_bound(4 * a, c as int, 12_000_000_000_000, 130_000_000_000_000_000_000_000);
        assert(1_200_000_000_000_000_000 * 1_200_000_000_000_000_000
            == 1_440_000_000_000_000_000_000_000_000_000_000_000int) by (nonlinear_arith);
        assert(12_000_000_000_000 * 130_000_000_000_000_000_000_000
            == 1_560_000_000_000_000_000_000_000_000_000_000_000int) by (nonlinear_arith);
    }
    let disc: i128 = b * b - 4 * a * c;
    if a > 0 && disc >= 0 {
        let root: u64 = isqrt(disc as u128);
        proof {
            assert(root <= 1_800_000_000_000_000_000) by (nonlinear_arith)
                requires
                    root * root <= disc,
                    disc <= 3_000_000_000_000_000_000_000_000_000_000_000_000,
            ;
            lemma_near_root_bound(direction@, l@, sphere.radius as int);
        }
        let num: i128 = -b - root as i128;
        let t: i128 = div_trunc(num * ONE as i128, 2 * a);
        Some(t as i64)
    } else {
        None
    }
}

} // verus!
