//! The path-tracing kernel: camera rays, mirror and diffuse bounce
//! directions, the nearest-hit search and the recursive radiance
//! estimate.
use vstd::prelude::*;
use crate::bodies::plane::AXIS_DOMINANCE;
use crate::bodies::{COORD_MAX, DISTANCE_MAX};
use crate::color::Color;
use crate::fixed::{abs, div_trunc, floor_sqrt, isqrt, lemma_tdiv_bound, tdiv, ONE};
use crate::geometry::{scene_wf, SceneObject};
use crate::random::{draw_pairs, unit_draws};
use crate::theorems::{
    lemma_bounce_at_the_ends, lemma_cosine_sample_is_above, lemma_cosine_sample_is_unit,
    lemma_cosine_sample_range, lemma_reflection_of_near_units, lemma_reflection_of_units,
};
use crate::trig::{cos_turn, cosine_of_turn, sin_turn, sine_of_turn};
use crate::vector::{
    add_vec, color_radiance, color_to_vec3, dot_wide, lemma_mul_bound, lemma_vdot_bound,
    lerp_vec3, multiply_vecs, narrow, normalize, normalized, scale_vec, subtract_vec, vadd,
    vcross, vdot, vlerp, vmul, vscale, vsub, vzero, within, Vec3, NARROW_MAX, V3,
};

verus! {

/// The largest magnitude of a pixel coordinate that is mapped to the
/// image plane.
pub const PIXEL_MAX: i64 = 4_294_967_296_000_000;

/// The horizontal coordinate in the image plane of the pixel coordinate
/// `x`: `(2 x / w - 1) * (w / h)`, which is `(2 x - w) / h`, rounded toward
/// zero.
pub open spec fn ndc_x(x: int, win_w: int, win_h: int) -> int {
    tdiv(2 * x - win_w * ONE, win_h)
}

/// The vertical coordinate in the image plane of the pixel coordinate
/// `y`: `1 - 2 y / h`, rounded toward zero.
pub open spec fn ndc_y(y: int, win_h: int) -> int {
    tdiv(win_h * ONE - 2 * y, win_h)
}

/// Maps a pixel coordinate, given as fixed-point scalars, to the image
/// plane: the window's height spans two units, from one at the top to
/// minus one at the bottom, and the width as many as the aspect ratio
/// gives it.
pub fn scr_to_ndc_f32(x: i64, y: i64, win_w: i32, win_h: i32) -> (ndc: (i64, i64))
    requires
        0 < win_w,
        0 < win_h,
        abs(x as int) <= PIXEL_MAX,
        abs(y as int) <= PIXEL_MAX,
    ensures
        ndc.0 == ndc_x(x as int, win_w as int, win_h as int),
        ndc.1 == ndc_y(y as int, win_h as int),
{
    assert(0 < win_w * ONE <= 0x7fff_ffff * 1_000_000 && 0 < win_h * ONE <= 0x7fff_ffff
        * 1_000_000) by (nonlinear_arith)
        requires
            0 < win_w <= 0x7fff_ffff,
            0 < win_h <= 0x7fff_ffff,
            ONE == 1_000_000,
    ;
    let num_x: i128 = 2 * x as i128 - win_w as i128 * ONE as i128;
    let num_y: i128 = win_h as i128 * ONE as i128 - 2 * y as i128;
    proof {
        lemma_tdiv_bound(num_x as int, win_h as int);
        lemma_tdiv_bound(num_y as int, win_h as int);
    }
    (div_trunc(num_x, win_h as i128) as i64, div_trunc(num_y, win_h as i128) as i64)
}

/// A whole pixel coordinate, scaled to millionths, is far below the
/// largest pixel coordinate.
pub proof fn lemma_pixel_scale(x: int)
    requires
        -0x8000_0000 <= x <= 0x7fff_ffff,
    ensures
        abs(x * ONE) <= 2_147_483_648_000_000,
{
    assert(abs(x * ONE) <= 2_147_483_648_000_000) by (nonlinear_arith)
        requires
            -0x8000_0000 <= x <= 0x7fff_ffff,
            ONE == 1_000_000,
    ;
}

/// Maps the upper left corner of the pixel `(x, y)` to the image plane.
pub fn scr_to_ndc(x: i32, y: i32, win_w: i32, win_h: i32) -> (ndc: (i64, i64))
    requires
        0 < win_w,
        0 < win_h,
    ensures
        ndc.0 == ndc_x(x * ONE, win_w as int, win_h as int),
        ndc.1 == ndc_y(y * ONE, win_h as int),
{
    proof {
        lemma_pixel_scale(x as int);
        lemma_pixel_scale(y as int);
    }
    scr_to_ndc_f32(x as i64 * ONE, y as i64 * ONE, win_w, win_h)
}

/// The mirror image `D - 2 (D . N) N` of the direction `d` about the
/// normal `n`, exactly; it counts millionths of millionths of millionths.
pub open spec fn mirror(d: V3, n: V3) -> V3 {
    V3 {
        x: d.x * ONE * ONE - 2 * vdot(d, n) * n.x,
        y: d.y * ONE * ONE - 2 * vdot(d, n) * n.y,
        z: d.z * ONE * ONE - 2 * vdot(d, n) * n.z,
    }
}

/// One component of the mirror image.
fn mirror_component(d: i64, n: i64, twice_dot: i128) -> (m: i64)
    requires
        abs(d as int) <= ONE,
        abs(n as int) <= ONE,
        abs(twice_dot as int) <= 6_000_000_000_000,
    ensures
        m == d * ONE * ONE - twice_dot * n,
{
    proof {
        lemma_mul_bound(twice_dot as int, n as int, 6_000_000_000_000, 1_000_000);
        assert(6_000_000_000_000 * 1_000_000 == 6_000_000_000_000_000_000int)
            by (nonlinear_arith);
        assert(abs(d * ONE) <= 1_000_000_000_000 && abs(d * ONE * ONE)
            <= 1_000_000_000_000_000_000) by (nonlinear_arith)
            requires
                abs(d as int) <= 1_000_000,
                ONE == 1_000_000,
        ;
    }
    (d as i128 * ONE as i128 * ONE as i128 - twice_dot * n as i128) as i64
}

/// The direction in which a perfect mirror with the normal `normal`
/// reflects a ray that arrives along `direction`, as a unit vector.
pub fn perfect_reflection(direction: Vec3, normal: Vec3) -> (reflection: Vec3)
    requires
        within(direction@, ONE as int),
        within(normal@, ONE as int),
    ensures
        reflection@ == normalized(mirror(direction@, normal@)),
        within(reflection@, ONE as int),
        vdot(direction@, direction@) == ONE * ONE && vdot(normal@, normal@) == ONE * ONE ==> {
            &&& ONE * ONE - 6 * ONE <= vdot(reflection@, reflection@) <= ONE * ONE
            &&& abs(vdot(reflection@, normal@) + vdot(direction@, normal@)) <= 3 * ONE
        },
        ONE * ONE - 6 * ONE <= vdot(direction@, direction@) < (ONE + 1) * (ONE + 1) && ONE * ONE
            - 6 * ONE <= vdot(normal@, normal@) < (ONE + 1) * (ONE + 1) ==> {
            &&& ONE * ONE - 6 * ONE <= vdot(reflection@, reflection@) < (ONE + 1) * (ONE + 1)
            &&& abs(vdot(reflection@, normal@) + vdot(direction@, normal@)) <= 32 * ONE
        },
{
    proof {
        if vdot(direction@, direction@) == ONE * ONE && vdot(normal@, normal@) == ONE * ONE {
            lemma_reflection_of_units(direction@, normal@);
        }
        if ONE * ONE - 6 * ONE <= vdot(direction@, direction@) < (ONE + 1) * (ONE + 1) && ONE
            * ONE - 6 * ONE <= vdot(normal@, normal@) < (ONE + 1) * (ONE + 1) {
            lemma_reflection_of_near_units(direction@, normal@);
        }
        lemma_vdot_bound(direction@, normal@, 1_000_000, 1_000_000);
        assert(3 * (1_000_000 * 1_000_000) == 3_000_000_000_000int) by (nonlinear_arith);
    }
    let scalar_component: i128 = 2 * dot_wide(direction, normal);
    let reflection: Vec3 = Vec3 {
        x: mirror_component(direction.x, normal.x, scalar_component),
        y: mirror_component(direction.y, normal.y, scalar_component),
        z: mirror_component(direction.z, normal.z, scalar_component),
    };
    reflection.normalize()
}

/// The axis that the tangent frame of `n` starts from: the second axis
/// where the normal points along the first, and the first elsewhere.
pub open spec fn seed_axis(n: V3) -> V3 {
    if abs(n.x) > AXIS_DOMINANCE {
        V3 { x: 0, y: ONE as int, z: 0 }
    } else {
        V3 { x: ONE as int, y: 0, z: 0 }
    }
}

/// The bitangent of the frame of `n`: the unit vector across `n` and the
/// seed axis.
pub open spec fn frame_bitangent(n: V3) -> V3 {
    normalized(vcross(n, seed_axis(n)))
}

/// The tangent of the frame of `n`: the unit vector across the bitangent
/// and `n`.
pub open spec fn frame_tangent(n: V3) -> V3 {
    normalized(vcross(frame_bitangent(n), n))
}

/// The exact cross product of two vectors that have no component beyond
/// one.
fn cross(a: Vec3, b: Vec3) -> (product: Vec3)
    requires
        within(a@, ONE as int),
        within(b@, ONE as int),
    ensures
        product@ == vcross(a@, b@),
{
    proof {
        lemma_mul_bound(a.y as int, b.z as int, 1_000_000, 1_000_000);
        lemma_mul_bound(a.z as int, b.y as int, 1_000_000, 1_000_000);
        lemma_mul_bound(a.z as int, b.x as int, 1_000_000, 1_000_000);
        lemma_mul_bound(a.x as int, b.z as int, 1_000_000, 1_000_000);
        lemma_mul_bound(a.x as int, b.y as int, 1_000_000, 1_000_000);
        lemma_mul_bound(a.y as int, b.x as int, 1_000_000, 1_000_000);
        assert(1_000_000 * 1_000_000 == 1_000_000_000_000int) by (nonlinear_arith);
    }
    Vec3 {
        x: a.y * b.z - a.z * b.y,
        y: a.z * b.x - a.x * b.z,
        z: a.x * b.y - a.y * b.x,
    }
}

/// A tangent and a bitangent of the surface with the normal `normal`:
/// with the normal they make the frame in which bounce directions are
/// sampled. A normal that points along the first axis takes the second
/// for its seed, so that the cross product does not vanish.
pub fn create_coordinate_system(normal: Vec3) -> (frame: (Vec3, Vec3))
    requires
        within(normal@, ONE as int),
    ensures
        frame.0@ == frame_tangent(normal@),
        frame.1@ == frame_bitangent(normal@),
        within(frame.0@, ONE as int),
        within(frame.1@, ONE as int),
{
    let tangent: Vec3 = if normal.x > AXIS_DOMINANCE || normal.x < -AXIS_DOMINANCE {
        Vec3 { x: 0, y: ONE, z: 0 }
    } else {
        Vec3 { x: ONE, y: 0, z: 0 }
    };
    let bitangent: Vec3 = cross(normal, tangent).normalize();
    let tangent: Vec3 = cross(bitangent, normal).normalize();
    (tangent, bitangent)
}

/// The square root of a fixed-point scalar between zero and one.
pub open spec fn fixed_sqrt(x: int) -> int {
    floor_sqrt(x * ONE)
}

/// The point of the unit hemisphere about the third axis that the two
/// draws select: the angle about the axis is `r1` turns, the cosine of the
/// angle from the axis is the square root of `1 - r2`, and its sine that
/// of `r2`.
pub open spec fn hemisphere_point(r1: int, r2: int) -> V3 {
    V3 {
        x: tdiv(cos_turn(r1) * fixed_sqrt(r2), ONE as int),
        y: tdiv(sin_turn(r1) * fixed_sqrt(r2), ONE as int),
        z: fixed_sqrt(ONE - r2),
    }
}

/// The vector with the coordinates `local` in the frame of the three
/// given vectors, exactly; it counts millionths of millionths.
pub open spec fn frame_combination(tangent: V3, bitangent: V3, normal: V3, local: V3) -> V3 {
    V3 {
        x: tangent.x * local.x + bitangent.x * local.y + normal.x * local.z,
        y: tangent.y * local.x + bitangent.y * local.y + normal.y * local.z,
        z: tangent.z * local.x + bitangent.z * local.y + normal.z * local.z,
    }
}

/// Each component of a vector that counts millionths of millionths,
/// rounded toward zero to whole millionths.
pub open spec fn rounded(v: V3) -> V3 {
    V3 { x: tdiv(v.x, ONE as int), y: tdiv(v.y, ONE as int), z: tdiv(v.z, ONE as int) }
}

/// The direction above the surface with the normal `n` that the two draws
/// select: the point of the hemisphere, taken in the frame of the normal
/// and rounded once.
pub open spec fn cosine_sample(n: V3, r1: int, r2: int) -> V3 {
    rounded(frame_combination(frame_tangent(n), frame_bitangent(n), n, hemisphere_point(r1, r2)))
}

/// The square root of a fixed-point scalar between zero and one.
fn sqrt_fixed(x: i64) -> (root: i64)
    requires
        0 <= x <= ONE,
    ensures
        root == fixed_sqrt(x as int),
        0 <= root <= ONE,
{
    let root: u64 = isqrt((x * ONE) as u128);
    assert(root <= 1_000_000) by (nonlinear_arith)
        requires
            root * root <= x * 1_000_000,
            x <= 1_000_000,
    ;
    root as i64
}

/// The product of two fixed-point scalars that are at most one in
/// magnitude.
fn mul_unit(a: i64, b: i64) -> (product: i64)
    requires
        abs(a as int) <= ONE,
        abs(b as int) <= ONE,
    ensures
        product == tdiv(a * b, ONE as int),
        abs(product as int) <= ONE,
{
    proof {
        lemma_mul_bound(a as int, b as int, 1_000_000, 1_000_000);
        assert(1_000_000 * 1_000_000 == 1_000_000_000_000int) by (nonlinear_arith);
        lemma_tdiv_bound(a * b, ONE as int);
    }
    div_trunc((a * b) as i128, ONE as i128) as i64
}

/// One component of a vector given by its coordinates in a frame.
fn combine(t: i64, b: i64, n: i64, local: Vec3) -> (sum: i64)
    requires
        abs(t as int) <= ONE,
        abs(b as int) <= ONE,
        abs(n as int) <= ONE,
        within(local@, ONE as int),
    ensures
        sum == t * local.x + b * local.y + n * local.z,
        abs(sum as int) <= 3_000_000_000_000,
{
    proof {
        lemma_mul_bound(t as int, local.x as int, 1_000_000, 1_000_000);
        lemma_mul_bound(b as int, local.y as int, 1_000_000, 1_000_000);
        lemma_mul_bound(n as int, local.z as int, 1_000_000, 1_000_000);
        assert(1_000_000 * 1_000_000 == 1_000_000_000_000int) by (nonlinear_arith);
    }
    t * local.x + b * local.y + n * local.z
}

/// The direction above the surface with the normal `normal` that the two
/// draws `r1` and `r2` select. Draws that are spread evenly select
/// directions with a density in proportion to the cosine of their angle
/// from the normal: that cosine is the square root of `1 - r2`, within
/// nine millionths for a unit normal and within fifteen for one that is
/// unit but for the rounding of a normalisation.
pub fn cosine_direction(normal: Vec3, r1: i64, r2: i64) -> (sample: Vec3)
    requires
        within(normal@, ONE as int),
        0 <= r1 < ONE,
        0 <= r2 < ONE,
    ensures
        sample@ == cosine_sample(normal@, r1 as int, r2 as int),
        within(sample@, 3 * ONE),
        vdot(normal@, normal@) == ONE * ONE ==> abs(
            vdot(sample@, normal@) - fixed_sqrt(ONE - r2) * ONE,
        ) <= 9 * ONE,
        ONE * ONE - 6 * ONE <= vdot(normal@, normal@) < (ONE + 1) * (ONE + 1) ==> {
            &&& 0 < vdot(sample@, normal@)
            &&& abs(vdot(sample@, normal@) - fixed_sqrt(ONE - r2) * ONE) <= 15 * ONE
            &&& ONE * ONE - 31 * ONE <= vdot(sample@, sample@) <= ONE * ONE + 9 * ONE
        },
{
    proof {
        lemma_cosine_sample_range(normal@, r1 as int, r2 as int);
        if ONE * ONE - 6 * ONE <= vdot(normal@, normal@) < (ONE + 1) * (ONE + 1) {
            lemma_cosine_sample_is_above(normal@, r1 as int, r2 as int);
            lemma_cosine_sample_is_unit(normal@, r1 as int, r2 as int);
        }
    }
    let cos_theta: i64 = sqrt_fixed(ONE - r2);
    let sin_theta: i64 = sqrt_fixed(r2);
    let local: Vec3 = Vec3 {
        x: mul_unit(cosine_of_turn(r1), sin_theta),
        y: mul_unit(sine_of_turn(r1), sin_theta),
        z: cos_theta,
    };
    let (tangent, bitangent): (Vec3, Vec3) = create_coordinate_system(normal);
    Vec3 {
        x: combine(tangent.x, bitangent.x, normal.x, local) / ONE,
        y: combine(tangent.y, bitangent.y, normal.y, local) / ONE,
        z: combine(tangent.z, bitangent.z, normal.z, local) / ONE,
    }
}

/// A random direction above the surface with the normal `normal`: the
/// one that two fresh draws select.
pub fn random_cosine_direction(normal: Vec3) -> (sample: Vec3)
    requires
        within(normal@, ONE as int),
    ensures
        exists|r1: int, r2: int|
            0 <= r1 < ONE && 0 <= r2 < ONE && sample@ == #[trigger] cosine_sample(
                normal@,
                r1,
                r2,
            ) && (vdot(normal@, normal@) == ONE * ONE ==> abs(
                vdot(sample@, normal@) - fixed_sqrt(ONE - r2) * ONE,
            ) <= 9 * ONE),
        within(sample@, 3 * ONE),
        ONE * ONE - 6 * ONE <= vdot(normal@, normal@) < (ONE + 1) * (ONE + 1) ==> {
            &&& 0 < vdot(sample@, normal@)
            &&& ONE * ONE - 31 * ONE <= vdot(sample@, sample@) <= ONE * ONE + 9 * ONE
        },
{
    let draws: Vec<(i64, i64)> = draw_pairs(1);
    let pair: (i64, i64) = draws[0];
    cosine_direction(normal, pair.0, pair.1)
}

/// The factor by which an emissive surface's colour is multiplied to give
/// the light that it emits: seven and a half.
pub const EMISSION_STRENGTH: i64 = 7_500_000;

/// The distance along the normal by which a bounced ray's origin is
/// lifted off the surface, so that the ray does not meet the same surface
/// again at once: a ten-thousandth.
pub const SURFACE_OFFSET: i64 = 100;

/// What a ray finds where it meets a surface.
#[derive(Copy, Clone, Debug, PartialEq, Eq, Structural)]
pub struct HitRecord {
    pub t: i64,
    pub point: Vec3,
    pub normal: Vec3,
    pub color: Color,
    pub emissive: bool,
    pub emission_color: Color,
    pub roughness: i64,
}

/// The mathematical model of a hit record.
pub struct Hit {
    pub t: int,
    pub point: V3,
    pub normal: V3,
    pub color: Color,
    pub emissive: bool,
    pub emission_color: Color,
    pub roughness: int,
}

impl View for HitRecord {
    type V = Hit;

    open spec fn view(&self) -> Hit {
        Hit {
            t: self.t as int,
            point: self.point@,
            normal: self.normal@,
            color: self.color,
            emissive: self.emissive,
            emission_color: self.emission_color,
            roughness: self.roughness as int,
        }
    }
}

/// The point of the ray at the parameter `t`.
pub open spec fn ray_point(origin: V3, direction: V3, t: int) -> V3 {
    vadd(origin, vscale(direction, t))
}

/// What the ray from `origin` along `direction` finds on `object` at the
/// parameter `t`: the point, the unit normal there, and the material as
/// it is at that point.
pub open spec fn surface(object: SceneObject, origin: V3, direction: V3, t: int) -> Hit {
    let point = ray_point(origin, direction, t);
    match object {
        SceneObject::SphereObj(sphere) => Hit {
            t,
            point,
            normal: normalized(vsub(point, sphere.center@)),
            color: sphere.color,
            emissive: sphere.emissive,
            emission_color: sphere.emission_color,
            roughness: sphere.roughness as int,
        },
        SceneObject::PlaneObj(plane) => Hit {
            t,
            point,
            normal: plane.normal@,
            color: plane.color_at(point),
            emissive: plane.emissive,
            emission_color: plane.emission_color,
            roughness: plane.roughness as int,
        },
    }
}

/// A shape met at the parameter `t` is nearer than what was found so far:
/// there was nothing, or it lies farther.
pub open spec fn nearer(t: int, found: Option<Hit>) -> bool {
    match found {
        Some(hit) => t < hit.t,
        None => true,
    }
}

/// The nearest hit of the ray among the first `n` shapes of the scene: the
/// shapes are taken in order, and one replaces what was found before it
/// where the ray meets it at a positive distance strictly below that of
/// the earlier find.
pub open spec fn nearest_among(scene: Seq<SceneObject>, origin: V3, direction: V3, n: int)
    -> Option<Hit>
    decreases n,
{
    if n <= 0 {
        None
    } else {
        let before = nearest_among(scene, origin, direction, n - 1);
        match scene[n - 1].hit(origin, direction) {
            Some(t) => if 0 < t && nearer(t, before) {
                Some(surface(scene[n - 1], origin, direction, t))
            } else {
                before
            },
            None => before,
        }
    }
}

/// The nearest hit of the ray in the whole scene.
pub open spec fn nearest(scene: Seq<SceneObject>, origin: V3, direction: V3) -> Option<Hit> {
    nearest_among(scene, origin, direction, scene.len() as int)
}

/// A vector with no component beyond one, multiplied by a scalar that is
/// not negative, has no component beyond that scalar.
pub proof fn lemma_vscale_bound(v: V3, t: int)
    requires
        within(v, ONE as int),
        0 <= t,
    ensures
        within(vscale(v, t), t),
{
    lemma_unit_product_bound(v.x, t);
    lemma_unit_product_bound(v.y, t);
    lemma_unit_product_bound(v.z, t);
}

/// The fixed-point product of a scalar that is at most one in magnitude
/// with one that is not negative is at most the latter in magnitude, and
/// has the sign of the former.
pub proof fn lemma_unit_product_bound(a: int, b: int)
    requires
        abs(a) <= ONE,
        0 <= b,
    ensures
        abs(tdiv(a * b, ONE as int)) <= b,
        0 <= a ==> 0 <= tdiv(a * b, ONE as int),
{
    lemma_tdiv_bound(a * b, ONE as int);
    let q = abs(tdiv(a * b, ONE as int));
    lemma_mul_bound(a, b, ONE as int, b);
    assert(q <= b) by (nonlinear_arith)
        requires
            q * 1_000_000 <= abs(a * b),
            abs(a * b) <= 1_000_000 * b,
    ;
    assert(0 <= a ==> 0 <= a * b) by (nonlinear_arith)
        requires
            0 <= b,
    ;
}

/// What is known of every hit that the search returns for a ray from
/// `origin`: it lies in front of the origin, no farther than the largest
/// distance, its normal has no component beyond one, and its roughness is
/// a weight between zero and one.
pub open spec fn hit_in_range(hit: Hit, origin: V3) -> bool {
    &&& 0 < hit.t <= DISTANCE_MAX
    &&& within(vsub(hit.point, origin), hit.t)
    &&& within(hit.normal, ONE as int)
    &&& 0 <= hit.roughness <= ONE
}

/// What the ray finds on `object` at the parameter `t`.
fn surface_at(object: &SceneObject, origin: Vec3, direction: Vec3, t: i64) -> (hit: HitRecord)
    requires
        within(origin@, COORD_MAX as int),
        within(direction@, ONE as int),
        object.wf(),
        0 < t <= DISTANCE_MAX,
    ensures
        hit@ == surface(*object, origin@, direction@, t as int),
        hit_in_range(hit@, origin@),
{
    proof {
        lemma_vscale_bound(direction@, t as int);
    }
    let hit_point: Vec3 = add_vec(origin, scale_vec(direction, t));
    match object {
        SceneObject::SphereObj(sphere) => HitRecord {
            t,
            point: hit_point,
            normal: normalize(subtract_vec(hit_point, sphere.center)),
            color: sphere.color,
            emissive: sphere.emissive,
            emission_color: sphere.emission_color,
            roughness: sphere.roughness,
        },
        SceneObject::PlaneObj(plane) => HitRecord {
            t,
            point: hit_point,
            normal: plane.normal,
            color: plane.get_color_at(hit_point),
            emissive: plane.emissive,
            emission_color: plane.emission_color,
            roughness: plane.roughness,
        },
    }
}

/// Searches the scene, shape by shape, for the nearest surface that the
/// ray from `origin` along `direction` meets in front of its origin. Of
/// two shapes at the same distance the earlier one is found.
pub fn nearest_hit(origin: Vec3, direction: Vec3, scene: &Vec<SceneObject>) -> (found: Option<
    HitRecord,
>)
    requires
        within(origin@, COORD_MAX as int),
        within(direction@, ONE as int),
        scene_wf(scene@),
    ensures
        match found {
            Some(hit) => nearest(scene@, origin@, direction@) == Some(hit@) && hit_in_range(
                hit@,
                origin@,
            ),
            None => nearest(scene@, origin@, direction@) is None,
        },
{
    let mut found: Option<HitRecord> = None;
    let mut i: usize = 0;
    while i < scene.len()
        invariant
            i <= scene.len(),
            within(origin@, COORD_MAX as int),
            within(direction@, ONE as int),
            scene_wf(scene@),
            match found {
                Some(hit) => nearest_among(scene@, origin@, direction@, i as int) == Some(hit@)
                    && hit_in_range(hit@, origin@),
                None => nearest_among(scene@, origin@, direction@, i as int) is None,
            },
        decreases scene.len() - i,
    {
        let object: &SceneObject = &scene[i];
        assert(scene@[i as int].wf());
        match object.intersect(origin, direction) {
            Some(t) => {
                let closer: bool = match found {
                    Some(hit) => t < hit.t,
                    None => true,
                };
                if t > 0 && closer {
                    found = Some(surface_at(object, origin, direction, t));
                }
            },
            None => {},
        }
        i = i + 1;
    }
    found
}

/// The light that the surface emits at a hit: its emission colour times
/// the emission strength, or nothing where it is not emissive.
pub open spec fn emitted(hit: Hit) -> V3 {
    if hit.emissive {
        vscale(color_radiance(hit.emission_color), EMISSION_STRENGTH as int)
    } else {
        vzero()
    }
}

/// The direction in which a ray that arrives along `direction` leaves a
/// surface with the normal `normal`: the blend of the mirror direction
/// and the sampled direction `sample` by the roughness, as a unit vector.
pub open spec fn bounce(direction: V3, normal: V3, sample: V3, roughness: int) -> V3 {
    normalized(vlerp(normalized(mirror(direction, normal)), sample, roughness))
}

/// The origin of the bounced ray: the hit point, lifted off the surface
/// along the normal.
pub open spec fn bounce_origin(hit: Hit) -> V3 {
    vadd(hit.point, vscale(hit.normal, SURFACE_OFFSET as int))
}

/// The radiance that leaves a hit toward the ray's origin: what the
/// surface emits, and the bounced radiance channel by channel times the
/// surface's colour.
pub open spec fn shade(hit: Hit, bounced: V3) -> V3 {
    vadd(emitted(hit), vmul(color_radiance(hit.color), bounced))
}

/// The radiance that arrives at `origin` against `direction` along the
/// path that the draws select, followed for at most `bounces` surfaces:
/// the draws from the index `first` on select, one pair for each surface,
/// the sampled directions. A path whose next origin would lie outside the
/// coordinate range ends at the surface that it has reached.
pub open spec fn radiance_along(
    scene: Seq<SceneObject>,
    origin: V3,
    direction: V3,
    bounces: int,
    draws: Seq<(i64, i64)>,
    first: int,
) -> V3
    decreases bounces,
{
    if bounces <= 0 {
        vzero()
    } else {
        match nearest(scene, origin, direction) {
            None => vzero(),
            Some(hit) => {
                let sample = cosine_sample(
                    hit.normal,
                    draws[first].0 as int,
                    draws[first].1 as int,
                );
                let bounced = if within(bounce_origin(hit), COORD_MAX as int) {
                    radiance_along(
                        scene,
                        bounce_origin(hit),
                        bounce(direction, hit.normal, sample, hit.roughness),
                        bounces - 1,
                        draws,
                        first + 1,
                    )
                } else {
                    vzero()
                };
                shade(hit, bounced)
            },
        }
    }
}

/// No channel of the radiance is negative or above what `bounces`
/// surfaces can emit.
pub open spec fn radiance_in_range(radiance: V3, bounces: int) -> bool {
    if bounces <= 0 {
        radiance == vzero()
    } else {
        &&& 0 <= radiance.x <= bounces * EMISSION_STRENGTH
        &&& 0 <= radiance.y <= bounces * EMISSION_STRENGTH
        &&& 0 <= radiance.z <= bounces * EMISSION_STRENGTH
    }
}

/// A ray from `origin` along `direction` lies within the coordinate
/// range.
pub open spec fn ray_in_range(origin: V3, direction: V3) -> bool {
    within(origin, COORD_MAX as int) && within(direction, ONE as int)
}

/// A blend of two bounded vectors, by a weight between zero and one, is
/// bounded as they are.
pub proof fn lemma_vlerp_bound(a: V3, b: V3, t: int, bound: int)
    requires
        within(a, bound),
        within(b, bound),
        0 <= t <= ONE,
    ensures
        within(vlerp(a, b, t), bound),
{
    lemma_blend_bound(a.x, b.x, t, bound);
    lemma_blend_bound(a.y, b.y, t, bound);
    lemma_blend_bound(a.z, b.z, t, bound);
}

/// A blend of two bounded scalars, by a weight between zero and one, is
/// bounded as they are.
pub proof fn lemma_blend_bound(a: int, b: int, t: int, bound: int)
    requires
        abs(a) <= bound,
        abs(b) <= bound,
        0 <= t <= ONE,
    ensures
        abs(tdiv(a * (ONE - t) + b * t, ONE as int)) <= bound,
{
    let n = a * (ONE - t) + b * t;
    lemma_mul_bound(a, ONE - t, bound, ONE - t);
    lemma_mul_bound(b, t, bound, t);
    assert(bound * (ONE - t) + bound * t == bound * ONE) by (nonlinear_arith);
    lemma_tdiv_bound(n, ONE as int);
    let q = abs(tdiv(n, ONE as int));
    assert(q <= bound) by (nonlinear_arith)
        requires
            q * ONE <= abs(n),
            abs(n) <= bound * ONE,
            ONE == 1_000_000,
    ;
}

/// The direction in which a ray that arrives along `direction` leaves a
/// surface with the given normal and roughness, where `sample` is the
/// direction that was sampled above the surface: a roughness of zero
/// gives the mirror direction, a roughness of one the sampled one.
pub fn bounce_direction(direction: Vec3, normal: Vec3, sample: Vec3, roughness: i64) -> (leaving:
    Vec3)
    requires
        within(direction@, ONE as int),
        within(normal@, ONE as int),
        narrow(sample@),
        0 <= roughness <= ONE,
    ensures
        leaving@ == bounce(direction@, normal@, sample@, roughness as int),
        within(leaving@, ONE as int),
        roughness == 0 ==> leaving@ == normalized(normalized(mirror(direction@, normal@))),
        roughness == ONE ==> leaving@ == normalized(sample@),
{
    let perfect_refl: Vec3 = perfect_reflection(direction, normal);
    proof {
        lemma_bounce_at_the_ends(direction@, normal@, sample@);
        lemma_vlerp_bound(perfect_refl@, sample@, roughness as int, NARROW_MAX as int);
    }
    lerp_vec3(perfect_refl, sample, roughness).normalize()
}

/// The radiance that leaves the hit toward the ray's origin, where
/// `bounced` is the radiance that arrives at the hit along the bounced
/// ray.
pub fn shade_hit(hit: HitRecord, bounced: Vec3, bounces: i32) -> (radiance: Vec3)
    requires
        0 < bounces,
        radiance_in_range(bounced@, bounces - 1),
    ensures
        radiance@ == shade(hit@, bounced@),
        radiance_in_range(radiance@, bounces as int),
{
    let emission: Vec3 = color_to_vec3(hit.emission_color);
    proof {
        lemma_unit_product_bound(emission.x as int, EMISSION_STRENGTH as int);
        lemma_unit_product_bound(emission.y as int, EMISSION_STRENGTH as int);
        lemma_unit_product_bound(emission.z as int, EMISSION_STRENGTH as int);
    }
    let emitted_light: Vec3 = if hit.emissive {
        scale_vec(emission, EMISSION_STRENGTH)
    } else {
        Vec3 { x: 0, y: 0, z: 0 }
    };
    let material_albedo: Vec3 = color_to_vec3(hit.color);
    proof {
        lemma_unit_product_bound(material_albedo.x as int, bounced.x as int);
        lemma_unit_product_bound(material_albedo.y as int, bounced.y as int);
        lemma_unit_product_bound(material_albedo.z as int, bounced.z as int);
        assert(bounces * EMISSION_STRENGTH == (bounces - 1) * EMISSION_STRENGTH
            + EMISSION_STRENGTH) by (nonlinear_arith);
        assert((bounces - 1) * EMISSION_STRENGTH <= 0x7fff_ffff * 7_500_000) by (nonlinear_arith)
            requires
                0 <= bounces - 1 <= 0x7fff_ffff,
                EMISSION_STRENGTH == 7_500_000,
        ;
    }
    let reflected_light: Vec3 = multiply_vecs(material_albedo, bounced);
    add_vec(emitted_light, reflected_light)
}

/// Whether a point lies within the coordinate range.
pub fn in_range(point: Vec3) -> (inside: bool)
    ensures
        inside == within(point@, COORD_MAX as int),
{
    -COORD_MAX <= point.x && point.x <= COORD_MAX && -COORD_MAX <= point.y && point.y <= COORD_MAX
        && -COORD_MAX <= point.z && point.z <= COORD_MAX
}

/// The origin and the direction of the ray that leaves the hit, where the
/// ray that met the surface arrived along `direction` and the two draws
/// select the sampled direction.
pub fn bounce_ray(direction: Vec3, hit: HitRecord, r1: i64, r2: i64) -> (leaving: (Vec3, Vec3))
    requires
        within(direction@, ONE as int),
        within(hit.point@, COORD_MAX + DISTANCE_MAX),
        within(hit.normal@, ONE as int),
        0 <= hit.roughness <= ONE,
        0 <= r1 < ONE,
        0 <= r2 < ONE,
    ensures
        leaving.0@ == bounce_origin(hit@),
        leaving.1@ == bounce(
            direction@,
            hit.normal@,
            cosine_sample(hit.normal@, r1 as int, r2 as int),
            hit.roughness as int,
        ),
        within(leaving.1@, ONE as int),
{
    let random_dir: Vec3 = cosine_direction(hit.normal, r1, r2);
    let reflection_dir: Vec3 = bounce_direction(direction, hit.normal, random_dir, hit.roughness);
    proof {
        lemma_vscale_bound(hit.normal@, SURFACE_OFFSET as int);
    }
    let new_origin: Vec3 = add_vec(hit.point, scale_vec(hit.normal, SURFACE_OFFSET));
    (new_origin, reflection_dir)
}

/// Follows the path that the draws select from `origin` along
/// `direction` through the scene, for at most `bounces` surfaces, and
/// returns the radiance that arrives along it. The pair of draws at the
/// index `first` selects the sampled direction at the first surface, the
/// next pair that at the second, and so on. The path ends before its
/// bounces are used up where it meets nothing, and where it would go on
/// from outside the coordinate range.
pub fn cast_ray_along(
    origin: Vec3,
    direction: Vec3,
    scene: &Vec<SceneObject>,
    bounces: i32,
    draws: &Vec<(i64, i64)>,
    first: usize,
) -> (radiance: Vec3)
    requires
        bounces > 0 && scene@.len() > 0 ==> {
            &&& ray_in_range(origin@, direction@)
            &&& scene_wf(scene@)
            &&& unit_draws(draws@)
            &&& first + bounces <= draws@.len()
        },
    ensures
        radiance@ == radiance_along(
            scene@,
            origin@,
            direction@,
            bounces as int,
            draws@,
            first as int,
        ),
        radiance_in_range(radiance@, bounces as int),
    decreases bounces,
{
    if bounces <= 0 || scene.len() == 0 {
        return Vec3 { x: 0, y: 0, z: 0 };
    }
    match nearest_hit(origin, direction, scene) {
        None => Vec3 { x: 0, y: 0, z: 0 },
        Some(hit) => {
            assert(first < draws.len());
            let pair: (i64, i64) = draws[first];
            let (new_origin, reflection_dir): (Vec3, Vec3) = bounce_ray(
                direction,
                hit,
                pair.0,
                pair.1,
            );
            let bounced_light: Vec3 = if in_range(new_origin) {
                cast_ray_along(new_origin, reflection_dir, scene, bounces - 1, draws, first + 1)
            } else {
                proof {
                    lemma_dark_in_range(bounces - 1);
                }
                Vec3 { x: 0, y: 0, z: 0 }
            };
            shade_hit(hit, bounced_light, bounces)
        },
    }
}

/// No light is in range for any number of bounces.
pub proof fn lemma_dark_in_range(bounces: int)
    ensures
        radiance_in_range(vzero(), bounces),
{
    if bounces > 0 {
        assert(0 <= bounces * EMISSION_STRENGTH) by (nonlinear_arith)
            requires
                bounces > 0,
                EMISSION_STRENGTH == 7_500_000,
        ;
    }
}

/// `radiance` arrives at `origin` against `direction` along some path of
/// at most `bounces` surfaces: along the one that some draws select.
pub open spec fn is_radiance(
    scene: Seq<SceneObject>,
    origin: V3,
    direction: V3,
    bounces: int,
    radiance: V3,
) -> bool {
    exists|draws: Seq<(i64, i64)>|
        unit_draws(draws) && draws.len() >= bounces && radiance == #[trigger] radiance_along(
            scene,
            origin,
            direction,
            bounces,
            draws,
            0,
        )
}

/// The radiance along a path does not change where one pair is put
/// before the draws and the path starts one pair later.
pub proof fn lemma_radiance_shift(
    scene: Seq<SceneObject>,
    origin: V3,
    direction: V3,
    bounces: int,
    head: (i64, i64),
    rest: Seq<(i64, i64)>,
    first: int,
)
    requires
        0 <= first,
        bounces > 0 ==> first + bounces <= rest.len(),
    ensures
        radiance_along(scene, origin, direction, bounces, seq![head] + rest, first + 1)
            == radiance_along(scene, origin, direction, bounces, rest, first),
    decreases bounces,
{
    if bounces > 0 {
        let all = seq![head] + rest;
        assert(all[first + 1] == rest[first]);
        match nearest(scene, origin, direction) {
            None => {},
            Some(hit) => {
                let sample = cosine_sample(
                    hit.normal,
                    rest[first].0 as int,
                    rest[first].1 as int,
                );
                lemma_radiance_shift(
                    scene,
                    bounce_origin(hit),
                    bounce(direction, hit.normal, sample, hit.roughness),
                    bounces - 1,
                    head,
                    rest,
                    first + 1,
                );
            },
        }
    }
}

/// Pairs of zeros, as many as `bounces`.
pub open spec fn idle_draws(bounces: int) -> Seq<(i64, i64)> {
    Seq::new(
        if bounces > 0 {
            bounces as nat
        } else {
            0
        },
        |i: int| (0i64, 0i64),
    )
}

/// Where no bounce is left, and where the ray meets nothing, no light
/// arrives along the ray, whatever is drawn.
pub proof fn lemma_dark_is_radiance(
    scene: Seq<SceneObject>,
    origin: V3,
    direction: V3,
    bounces: int,
)
    requires
        bounces <= 0 || nearest(scene, origin, direction) is None,
    ensures
        is_radiance(scene, origin, direction, bounces, vzero()),
{
    let idle = idle_draws(bounces);
    assert(unit_draws(idle));
    assert(vzero() == radiance_along(scene, origin, direction, bounces, idle, 0));
}

/// Where the ray meets a surface, the radiance that leaves the hit is
/// that along some path, if the radiance that was bounced to the hit is
/// that along some path from the hit on, or nothing where the path ends
/// at the hit.
pub proof fn lemma_step_is_radiance(
    scene: Seq<SceneObject>,
    origin: V3,
    direction: V3,
    bounces: int,
    hit: Hit,
    r1: i64,
    r2: i64,
    bounced: V3,
)
    requires
        bounces > 0,
        nearest(scene, origin, direction) == Some(hit),
        0 <= r1 < ONE,
        0 <= r2 < ONE,
        within(bounce_origin(hit), COORD_MAX as int) ==> is_radiance(
            scene,
            bounce_origin(hit),
            bounce(direction, hit.normal, cosine_sample(hit.normal, r1 as int, r2 as int), hit.roughness),
            bounces - 1,
            bounced,
        ),
        !within(bounce_origin(hit), COORD_MAX as int) ==> bounced == vzero(),
    ensures
        is_radiance(scene, origin, direction, bounces, shade(hit, bounced)),
{
    let next_origin = bounce_origin(hit);
    let next_direction = bounce(
        direction,
        hit.normal,
        cosine_sample(hit.normal, r1 as int, r2 as int),
        hit.roughness,
    );
    let rest = if within(next_origin, COORD_MAX as int) {
        choose|draws: Seq<(i64, i64)>|
            unit_draws(draws) && draws.len() >= bounces - 1 && bounced == #[trigger] radiance_along(
                scene,
                next_origin,
                next_direction,
                bounces - 1,
                draws,
                0,
            )
    } else {
        idle_draws(bounces - 1)
    };
    let all = seq![(r1, r2)] + rest;
    assert(unit_draws(rest));
    assert(all[0] == (r1, r2));
    assert forall|i: int| 0 <= i < all.len() implies 0 <= (#[trigger] all[i]).0 < ONE && 0
        <= all[i].1 < ONE by {
        if i > 0 {
            assert(all[i] == rest[i - 1]);
        }
    }
    lemma_radiance_shift(scene, next_origin, next_direction, bounces - 1, (r1, r2), rest, 0);
    assert(shade(hit, bounced) == radiance_along(scene, origin, direction, bounces, all, 0));
}

/// The radiance that arrives at `origin` against `direction` along one
/// random path through the scene, followed for at most `bounces`
/// surfaces. With no bounce left, and in an empty scene, it is zero.
pub fn cast_ray(origin: Vec3, direction: Vec3, scene: &Vec<SceneObject>, bounces: i32) -> (radiance:
    Vec3)
    requires
        bounces > 0 && scene@.len() > 0 ==> ray_in_range(origin@, direction@) && scene_wf(scene@),
    ensures
        bounces <= 0 ==> radiance@ == vzero(),
        scene@.len() == 0 ==> radiance@ == vzero(),
        nearest(scene@, origin@, direction@) is None ==> radiance@ == vzero(),
        is_radiance(scene@, origin@, direction@, bounces as int, radiance@),
        radiance_in_range(radiance@, bounces as int),
    decreases bounces,
{
    if bounces <= 0 || scene.len() == 0 {
        proof {
            lemma_dark_is_radiance(scene@, origin@, direction@, bounces as int);
            lemma_dark_in_range(bounces as int);
        }
        return Vec3 { x: 0, y: 0, z: 0 };
    }
    match nearest_hit(origin, direction, scene) {
        None => {
            proof {
                lemma_dark_is_radiance(scene@, origin@, direction@, bounces as int);
                lemma_dark_in_range(bounces as int);
            }
            Vec3 { x: 0, y: 0, z: 0 }
        },
        Some(hit) => {
            let draws: Vec<(i64, i64)> = draw_pairs(1);
            let pair: (i64, i64) = draws[0];
            let (new_origin, reflection_dir): (Vec3, Vec3) = bounce_ray(
                direction,
                hit,
                pair.0,
                pair.1,
            );
            let bounced_light: Vec3 = if in_range(new_origin) {
                cast_ray(new_origin, reflection_dir, scene, bounces - 1)
            } else {
                proof {
                    lemma_dark_in_range(bounces - 1);
                }
                Vec3 { x: 0, y: 0, z: 0 }
            };
            proof {
                lemma_step_is_radiance(
                    scene@,
                    origin@,
                    direction@,
                    bounces as int,
                    hit@,
                    pair.0,
                    pair.1,
                    bounced_light@,
                );
            }
            shade_hit(hit, bounced_light, bounces)
        },
    }
}

/// No light arrives along any ray in a scene without shapes.
pub proof fn lemma_empty_scene_is_dark(
    origin: V3,
    direction: V3,
    bounces: int,
    draws: Seq<(i64, i64)>,
    first: int,
)
    ensures
        radiance_along(Seq::empty(), origin, direction, bounces, draws, first) == vzero(),
{
    assert(nearest_among(Seq::<SceneObject>::empty(), origin, direction, 0) is None);
}

/// No light arrives along any ray that may not bounce.
pub proof fn lemma_no_bounce_is_dark(
    scene: Seq<SceneObject>,
    origin: V3,
    direction: V3,
    bounces: int,
    draws: Seq<(i64, i64)>,
    first: int,
)
    requires
        bounces <= 0,
    ensures
        radiance_along(scene, origin, direction, bounces, draws, first) == vzero(),
{
}

/// The direction of the camera ray through the point of the pixel
/// `(x, y)` that the jitter selects: the camera stands at the origin of
/// space and looks down the negative third axis.
pub open spec fn camera_direction(
    x: int,
    y: int,
    jitter_x: int,
    jitter_y: int,
    win_w: int,
    win_h: int,
) -> V3 {
    normalized(
        V3 {
            x: ndc_x(x * ONE + jitter_x, win_w, win_h),
            y: ndc_y(y * ONE + jitter_y, win_h),
            z: -ONE,
        },
    )
}

/// The direction of the camera ray through the point of the pixel
/// `(x, y)` that the jitter selects.
pub fn camera_ray(x: i32, y: i32, jitter_x: i64, jitter_y: i64, win_w: i32, win_h: i32) -> (direction:
    Vec3)
    requires
        0 < win_w,
        0 < win_h,
        abs(x * ONE + jitter_x) <= PIXEL_MAX,
        abs(y * ONE + jitter_y) <= PIXEL_MAX,
    ensures
        direction@ == camera_direction(
            x as int,
            y as int,
            jitter_x as int,
            jitter_y as int,
            win_w as int,
            win_h as int,
        ),
        within(direction@, ONE as int),
{
    proof {
        lemma_pixel_scale(x as int);
        lemma_pixel_scale(y as int);
    }
    let pixel_x: i64 = x as i64 * ONE + jitter_x;
    let pixel_y: i64 = y as i64 * ONE + jitter_y;
    let (ndc_x, ndc_y): (i64, i64) = scr_to_ndc_f32(pixel_x, pixel_y, win_w, win_h);
    normalize(Vec3 { x: ndc_x, y: ndc_y, z: -ONE })
}

/// The radiance that arrives at the camera through the point of the
/// pixel `(x, y)` that the jitter selects, along one random path of at
/// most `max_bounces` surfaces: the camera stands at the origin of space.
pub fn trace_ray(
    x: i32,
    y: i32,
    jitter_x: i64,
    jitter_y: i64,
    win_w: i32,
    win_h: i32,
    scene: &Vec<SceneObject>,
    max_bounces: i32,
) -> (radiance: Vec3)
    requires
        0 < win_w,
        0 < win_h,
        abs(x * ONE + jitter_x) <= PIXEL_MAX,
        abs(y * ONE + jitter_y) <= PIXEL_MAX,
        scene_wf(scene@),
    ensures
        max_bounces <= 0 ==> radiance@ == vzero(),
        scene@.len() == 0 ==> radiance@ == vzero(),
        is_radiance(
            scene@,
            vzero(),
            camera_direction(
                x as int,
                y as int,
                jitter_x as int,
                jitter_y as int,
                win_w as int,
                win_h as int,
            ),
            max_bounces as int,
            radiance@,
        ),
        radiance_in_range(radiance@, max_bounces as int),
{
    let origin: Vec3 = Vec3 { x: 0, y: 0, z: 0 };
    let direction: Vec3 = camera_ray(x, y, jitter_x, jitter_y, win_w, win_h);
    cast_ray(origin, direction, scene, max_bounces)
}

} // verus!
