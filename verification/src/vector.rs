//! Three-component vectors of fixed-point scalars, used both for positions
//! and directions in space and for radiance.
use vstd::prelude::*;
use crate::color::Color;
use crate::fixed::{abs, div_trunc, floor_sqrt, is_floor_sqrt, isqrt, lemma_tdiv_bound, tdiv, ONE};

verus! {

/// A vector of three fixed-point components.
#[derive(Copy, Clone, Debug, PartialEq, Eq, Structural)]
pub struct Vec3 {
    pub x: i64,
    pub y: i64,
    pub z: i64,
}

/// The mathematical model of a vector: three unbounded integers, each
/// counting millionths.
pub struct V3 {
    pub x: int,
    pub y: int,
    pub z: int,
}

impl View for Vec3 {
    type V = V3;

    open spec fn view(&self) -> V3 {
        V3 { x: self.x as int, y: self.y as int, z: self.z as int }
    }
}

/// The largest magnitude of a component whose products with another such
/// component can be summed in 128 bits.
pub const NARROW_MAX: i64 = 0x4000_0000_0000_0000;

/// The zero vector.
pub open spec fn vzero() -> V3 {
    V3 { x: 0, y: 0, z: 0 }
}

/// Every component of `v` is at most `bound` in magnitude.
pub open spec fn within(v: V3, bound: int) -> bool {
    abs(v.x) <= bound && abs(v.y) <= bound && abs(v.z) <= bound
}

/// Every component of `v` fits in an `i64`.
pub open spec fn representable(v: V3) -> bool {
    i64::MIN <= v.x <= i64::MAX && i64::MIN <= v.y <= i64::MAX && i64::MIN <= v.z <= i64::MAX
}

/// Every component of `v` is small enough to be multiplied in 128 bits.
pub open spec fn narrow(v: V3) -> bool {
    within(v, NARROW_MAX as int)
}

/// The component-wise sum.
pub open spec fn vadd(a: V3, b: V3) -> V3 {
    V3 { x: a.x + b.x, y: a.y + b.y, z: a.z + b.z }
}

/// The component-wise difference.
pub open spec fn vsub(a: V3, b: V3) -> V3 {
    V3 { x: a.x - b.x, y: a.y - b.y, z: a.z - b.z }
}

/// Each component multiplied by the fixed-point scalar `t`.
pub open spec fn vscale(a: V3, t: int) -> V3 {
    V3 { x: tdiv(a.x * t, ONE as int), y: tdiv(a.y * t, ONE as int), z: tdiv(a.z * t, ONE as int) }
}

/// The component-wise fixed-point product.
pub open spec fn vmul(a: V3, b: V3) -> V3 {
    V3 {
        x: tdiv(a.x * b.x, ONE as int),
        y: tdiv(a.y * b.y, ONE as int),
        z: tdiv(a.z * b.z, ONE as int),
    }
}

/// The exact dot product of the components, which counts millionths of
/// millionths.
pub open spec fn vdot(a: V3, b: V3) -> int {
    a.x * b.x + a.y * b.y + a.z * b.z
}

/// The exact cross product of the components, which counts millionths of
/// millionths.
pub open spec fn vcross(a: V3, b: V3) -> V3 {
    V3 { x: a.y * b.z - a.z * b.y, y: a.z * b.x - a.x * b.z, z: a.x * b.y - a.y * b.x }
}

/// The blend `a * (1 - t) + b * t`, rounded once per component.
pub open spec fn vlerp(a: V3, b: V3, t: int) -> V3 {
    V3 {
        x: tdiv(a.x * (ONE - t) + b.x * t, ONE as int),
        y: tdiv(a.y * (ONE - t) + b.y * t, ONE as int),
        z: tdiv(a.z * (ONE - t) + b.z * t, ONE as int),
    }
}

/// The length of `v`, rounded down.
pub open spec fn vlength(v: V3) -> int {
    floor_sqrt(vdot(v, v))
}

/// Each component of `v` scaled to one and divided by the length of `v`,
/// which is rounded down to a whole millionth; the zero vector stays as
/// it is.
pub open spec fn unit_of(v: V3) -> V3 {
    if vdot(v, v) == 0 {
        v
    } else {
        V3 {
            x: tdiv(v.x * ONE, vlength(v)),
            y: tdiv(v.y * ONE, vlength(v)),
            z: tdiv(v.z * ONE, vlength(v)),
        }
    }
}

/// The vector `v` itself where it is at least one long, and a million
/// times `v` where it is shorter: the same direction, long enough for its
/// length to be rounded without loss.
pub open spec fn refined(v: V3) -> V3 {
    if 0 < vdot(v, v) < ONE * ONE {
        V3 { x: v.x * ONE, y: v.y * ONE, z: v.z * ONE }
    } else {
        v
    }
}

/// The vector of length one in the direction of `v`; the zero vector
/// stays as it is.
pub open spec fn normalized(v: V3) -> V3 {
    unit_of(refined(v))
}

/// A radiance channel as a display shows it: scaled to 255 and clamped.
pub open spec fn channel_to_byte(v: int) -> int {
    let scaled = tdiv(v * 255, ONE as int);
    if scaled < 0 {
        0
    } else if scaled > 255 {
        255
    } else {
        scaled
    }
}

/// A display channel as radiance: the fraction of 255 that it is.
pub open spec fn byte_to_channel(c: int) -> int {
    (c * ONE) / 255
}

/// The radiance that a display colour stands for.
pub open spec fn color_radiance(c: Color) -> V3 {
    V3 {
        x: byte_to_channel(c.r as int),
        y: byte_to_channel(c.g as int),
        z: byte_to_channel(c.b as int),
    }
}

/// The opaque display colour of a radiance.
pub open spec fn displayed(v: V3) -> Color {
    Color {
        r: channel_to_byte(v.x) as u8,
        g: channel_to_byte(v.y) as u8,
        b: channel_to_byte(v.z) as u8,
        a: 255,
    }
}

/// No component of a vector exceeds the vector's length.
pub proof fn lemma_component_le_length(v: V3)
    ensures
        is_floor_sqrt(vlength(v), vdot(v, v)),
        within(v, vlength(v)),
        vdot(v, v) > 0 ==> vlength(v) >= 1,
{
    let n = vdot(v, v);
    assert(v.x * v.x >= 0 && v.y * v.y >= 0 && v.z * v.z >= 0) by (nonlinear_arith);
    crate::fixed::lemma_floor_sqrt_exists(n);
    let r = vlength(v);
    assert(abs(v.x) <= r) by (nonlinear_arith)
        requires
            v.x * v.x <= n,
            n < (r + 1) * (r + 1),
            0 <= r,
    ;
    assert(abs(v.y) <= r) by (nonlinear_arith)
        requires
            v.y * v.y <= n,
            n < (r + 1) * (r + 1),
            0 <= r,
    ;
    assert(abs(v.z) <= r) by (nonlinear_arith)
        requires
            v.z * v.z <= n,
            n < (r + 1) * (r + 1),
            0 <= r,
    ;
}

/// A vector divided by its length has no component beyond one.
pub proof fn lemma_unit_of_within_one(v: V3)
    ensures
        within(unit_of(v), ONE as int),
{
    lemma_component_le_length(v);
    if vdot(v, v) > 0 {
        let r = vlength(v);
        lemma_scaled_quotient_bound(v.x, r);
        lemma_scaled_quotient_bound(v.y, r);
        lemma_scaled_quotient_bound(v.z, r);
    } else {
        assert(v.x * v.x >= 0 && v.y * v.y >= 0 && v.z * v.z >= 0) by (nonlinear_arith);
        crate::fixed::lemma_floor_sqrt_unique(0, 0);
    }
}

/// The refined form of a vector that is not zero is at least one long,
/// and that of the zero vector is the zero vector.
pub proof fn lemma_refined_is_long(v: V3)
    ensures
        vdot(v, v) > 0 ==> vdot(refined(v), refined(v)) >= ONE * ONE && vlength(refined(v))
            >= ONE,
        vdot(v, v) == 0 ==> refined(v) == v,
        vdot(v, v) >= 0,
{
    assert(v.x * v.x >= 0 && v.y * v.y >= 0 && v.z * v.z >= 0) by (nonlinear_arith);
    if vdot(v, v) > 0 {
        let w = refined(v);
        if vdot(v, v) < ONE * ONE {
            assert(vdot(w, w) == (ONE * ONE) * vdot(v, v)) by (nonlinear_arith)
                requires
                    w.x == v.x * ONE,
                    w.y == v.y * ONE,
                    w.z == v.z * ONE,
                    vdot(w, w) == w.x * w.x + w.y * w.y + w.z * w.z,
                    vdot(v, v) == v.x * v.x + v.y * v.y + v.z * v.z,
            ;
            assert((ONE * ONE) * vdot(v, v) >= ONE * ONE) by (nonlinear_arith)
                requires
                    vdot(v, v) >= 1,
            ;
        }
        crate::fixed::lemma_floor_sqrt_at_least(vdot(w, w), ONE as int);
    }
}

/// A normalised vector has no component beyond one.
pub proof fn lemma_normalized_within_one(v: V3)
    ensures
        within(normalized(v), ONE as int),
{
    lemma_unit_of_within_one(refined(v));
}

/// A component that is at most `r` in magnitude, scaled to one and divided
/// by `r`, is at most one in magnitude.
pub proof fn lemma_scaled_quotient_bound(c: int, r: int)
    requires
        abs(c) <= r,
        1 <= r,
    ensures
        abs(tdiv(c * ONE, r)) <= ONE,
{
    lemma_tdiv_bound(c * ONE, r);
    let q = abs(tdiv(c * ONE, r));
    assert(abs(c * ONE) == abs(c) * ONE) by (nonlinear_arith);
    assert(q <= ONE) by (nonlinear_arith)
        requires
            q * r <= abs(c) * ONE,
            abs(c) <= r,
            1 <= r,
            0 <= q,
    ;
}

/// A product is bounded by the product of its factors' bounds.
pub proof fn lemma_mul_bound(x: int, y: int, bx: int, by: int)
    requires
        abs(x) <= bx,
        abs(y) <= by,
    ensures
        abs(x * y) <= bx * by,
{
    assert(abs(x * y) <= bx * by) by (nonlinear_arith)
        requires
            -bx <= x <= bx,
            -by <= y <= by,
    ;
}

/// The dot product of two bounded vectors is bounded.
pub proof fn lemma_vdot_bound(a: V3, b: V3, ba: int, bb: int)
    requires
        within(a, ba),
        within(b, bb),
    ensures
        abs(vdot(a, b)) <= 3 * (ba * bb),
{
    lemma_mul_bound(a.x, b.x, ba, bb);
    lemma_mul_bound(a.y, b.y, ba, bb);
    lemma_mul_bound(a.z, b.z, ba, bb);
}

impl Vec3 {
    /// The length of the vector, rounded down.
    pub fn length(&self) -> (len: u64)
        ensures
            len == vlength(self@),
    {
        let xx: u128 = square(self.x);
        let yy: u128 = square(self.y);
        let zz: u128 = square(self.z);
        isqrt(xx + yy + zz)
    }

    /// The vector of length one in the same direction; the zero vector is
    /// returned as it is. A vector shorter than one is scaled up before
    /// its length is taken, so that no direction is lost to rounding.
    pub fn normalize(&self) -> (unit: Vec3)
        ensures
            unit@ == normalized(self@),
            within(unit@, ONE as int),
            vdot(self@, self@) > 0 ==> ONE * ONE - 6 * ONE <= vdot(unit@, unit@) < (ONE + 1) * (ONE
                + 1),
    {
        proof {
            lemma_normalized_within_one(self@);
            if vdot(self@, self@) > 0 {
                crate::theorems::lemma_normalized_is_unit(self@);
            }
        }
        let xx: u128 = square(self.x);
        let yy: u128 = square(self.y);
        let zz: u128 = square(self.z);
        let sq: u128 = xx + yy + zz;
        if sq == 0 {
            *self
        } else if sq >= 1_000_000_000_000 {
            unit_vector(*self)
        } else {
            assert(abs(self.x as int) < 1_000_000 && abs(self.y as int) < 1_000_000 && abs(
                self.z as int,
            ) < 1_000_000) by (nonlinear_arith)
                requires
                    self.x * self.x + self.y * self.y + self.z * self.z < 1_000_000_000_000,
            ;
            proof {
                lemma_refined_is_long(self@);
            }
            unit_vector(Vec3 { x: self.x * ONE, y: self.y * ONE, z: self.z * ONE })
        }
    }
}

/// Each component scaled to one and divided by the vector's length.
fn unit_vector(v: Vec3) -> (unit: Vec3)
    requires
        vdot(v@, v@) > 0,
    ensures
        unit@ == unit_of(v@),
{
    let len: u64 = v.length();
    proof {
        lemma_component_le_length(v@);
        lemma_unit_of_within_one(v@);
    }
    Vec3 {
        x: div_trunc(v.x as i128 * ONE as i128, len as i128) as i64,
        y: div_trunc(v.y as i128 * ONE as i128, len as i128) as i64,
        z: div_trunc(v.z as i128 * ONE as i128, len as i128) as i64,
    }
}

/// The square of `c`, which fits in 128 bits whatever `c` is.
fn square(c: i64) -> (sq: u128)
    ensures
        sq == c * c,
        sq <= 0x4000_0000_0000_0000_0000_0000_0000_0000,
{
    let m: u128 = if c < 0 {
        (-(c as i128)) as u128
    } else {
        c as u128
    };
    assert(m * m <= 0x4000_0000_0000_0000_0000_0000_0000_0000 && m * m == c * c)
        by (nonlinear_arith)
        requires
            m == abs(c as int),
            m <= 0x8000_0000_0000_0000,
    ;
    m * m
}

/// The component-wise sum of two vectors.
pub fn add_vec(a: Vec3, b: Vec3) -> (sum: Vec3)
    requires
        representable(vadd(a@, b@)),
    ensures
        sum@ == vadd(a@, b@),
{
    Vec3 { x: a.x + b.x, y: a.y + b.y, z: a.z + b.z }
}

/// The component-wise difference of two vectors.
pub fn subtract_vec(a: Vec3, b: Vec3) -> (difference: Vec3)
    requires
        representable(vsub(a@, b@)),
    ensures
        difference@ == vsub(a@, b@),
{
    Vec3 { x: a.x - b.x, y: a.y - b.y, z: a.z - b.z }
}

/// The fixed-point product of two scalars, where it fits.
fn mul_fixed(a: i64, b: i64) -> (product: i64)
    requires
        i64::MIN <= tdiv(a * b, ONE as int) <= i64::MAX,
    ensures
        product == tdiv(a * b, ONE as int),
{
    assert(-0x4000_0000_0000_0000_0000_0000_0000_0000 <= a * b
        <= 0x4000_0000_0000_0000_0000_0000_0000_0000) by (nonlinear_arith)
        requires
            -0x8000_0000_0000_0000 <= a <= 0x8000_0000_0000_0000,
            -0x8000_0000_0000_0000 <= b <= 0x8000_0000_0000_0000,
    ;
    div_trunc(a as i128 * b as i128, ONE as i128) as i64
}

/// The vector `vec` with each component multiplied by `scalar`.
pub fn multiply_vec_scalar(vec: Vec3, scalar: i64) -> (product: Vec3)
    requires
        representable(vscale(vec@, scalar as int)),
    ensures
        product@ == vscale(vec@, scalar as int),
{
    Vec3 {
        x: mul_fixed(vec.x, scalar),
        y: mul_fixed(vec.y, scalar),
        z: mul_fixed(vec.z, scalar),
    }
}

/// The component-wise product of two vectors, as an albedo modulates
/// radiance.
pub fn multiply_vecs(a: Vec3, b: Vec3) -> (product: Vec3)
    requires
        representable(vmul(a@, b@)),
    ensures
        product@ == vmul(a@, b@),
{
    Vec3 { x: mul_fixed(a.x, b.x), y: mul_fixed(a.y, b.y), z: mul_fixed(a.z, b.z) }
}

/// The vector `a` with each component multiplied by `t`.
pub fn scale_vec(a: Vec3, t: i64) -> (product: Vec3)
    requires
        representable(vscale(a@, t as int)),
    ensures
        product@ == vscale(a@, t as int),
{
    Vec3 { x: mul_fixed(a.x, t), y: mul_fixed(a.y, t), z: mul_fixed(a.z, t) }
}

/// The exact dot product of two narrow vectors.
pub fn dot_wide(a: Vec3, b: Vec3) -> (product: i128)
    requires
        narrow(a@),
        narrow(b@),
    ensures
        product == vdot(a@, b@),
        abs(product as int) <= 0x3000_0000_0000_0000_0000_0000_0000_0000,
{
    proof {
        lemma_narrow_product(a.x as int, b.x as int);
        lemma_narrow_product(a.y as int, b.y as int);
        lemma_narrow_product(a.z as int, b.z as int);
    }
    a.x as i128 * b.x as i128 + a.y as i128 * b.y as i128 + a.z as i128 * b.z as i128
}

/// The product of two narrow components is at most the square of the
/// bound in magnitude.
pub proof fn lemma_narrow_product(a: int, b: int)
    requires
        abs(a) <= NARROW_MAX,
        abs(b) <= NARROW_MAX,
    ensures
        abs(a * b) <= 0x1000_0000_0000_0000_0000_0000_0000_0000,
{
    assert(abs(a * b) <= 0x1000_0000_0000_0000_0000_0000_0000_0000) by (nonlinear_arith)
        requires
            -0x4000_0000_0000_0000 <= a <= 0x4000_0000_0000_0000,
            -0x4000_0000_0000_0000 <= b <= 0x4000_0000_0000_0000,
    ;
}

/// The dot product of two vectors as a fixed-point scalar, rounded once.
pub fn dot(a: Vec3, b: Vec3) -> (product: i64)
    requires
        narrow(a@),
        narrow(b@),
        i64::MIN <= tdiv(vdot(a@, b@), ONE as int) <= i64::MAX,
    ensures
        product == tdiv(vdot(a@, b@), ONE as int),
{
    div_trunc(dot_wide(a, b), ONE as i128) as i64
}

/// One component of a blend, where it fits.
fn lerp_component(a: i64, b: i64, t: i64) -> (blend: i64)
    requires
        abs(a as int) <= NARROW_MAX,
        abs(b as int) <= NARROW_MAX,
        abs(t as int) <= NARROW_MAX,
        i64::MIN <= tdiv(a * (ONE - t) + b * t, ONE as int) <= i64::MAX,
    ensures
        blend == tdiv(a * (ONE - t) + b * t, ONE as int),
{
    let s: i64 = ONE - t;
    assert(abs(a * s) <= 0x1000_0000_0000_0000_0000_0000_0000_0000 + 0x4000_0000_0000_0000
        * 1_000_000) by (nonlinear_arith)
        requires
            -0x4000_0000_0000_0000 <= a <= 0x4000_0000_0000_0000,
            -0x4000_0000_0000_0000 - 1_000_000 <= s <= 0x4000_0000_0000_0000 + 1_000_000,
    ;
    proof {
        lemma_narrow_product(b as int, t as int);
    }
    div_trunc(a as i128 * s as i128 + b as i128 * t as i128, ONE as i128) as i64
}

/// The blend of `a` and `b` by the weight `t`: `a` at zero, `b` at one.
pub fn lerp_vec3(a: Vec3, b: Vec3, t: i64) -> (blend: Vec3)
    requires
        narrow(a@),
        narrow(b@),
        abs(t as int) <= NARROW_MAX,
        representable(vlerp(a@, b@, t as int)),
    ensures
        blend@ == vlerp(a@, b@, t as int),
{
    Vec3 {
        x: lerp_component(a.x, b.x, t),
        y: lerp_component(a.y, b.y, t),
        z: lerp_component(a.z, b.z, t),
    }
}

/// The vector of length one in the direction of `v`; the zero vector is
/// returned as it is.
pub fn normalize(v: Vec3) -> (unit: Vec3)
    ensures
        unit@ == normalized(v@),
        within(unit@, ONE as int),
        vdot(v@, v@) > 0 ==> ONE * ONE - 6 * ONE <= vdot(unit@, unit@) < (ONE + 1) * (ONE + 1),
{
    v.normalize()
}

/// One radiance channel as a display channel.
fn to_byte(v: i64) -> (c: u8)
    ensures
        c == channel_to_byte(v as int),
{
    let scaled: i128 = div_trunc(v as i128 * 255, ONE as i128);
    if scaled < 0 {
        0
    } else if scaled > 255 {
        255
    } else {
        scaled as u8
    }
}

/// The display colour of a radiance: each channel scaled to 255, cut off
/// at both ends of the range and rounded toward zero; fully opaque.
pub fn vec3_to_color(vec: Vec3) -> (color: Color)
    ensures
        color == displayed(vec@),
{
    Color { r: to_byte(vec.x), g: to_byte(vec.y), b: to_byte(vec.z), a: 255 }
}

/// The radiance of a display colour: each channel as a fraction of 255.
/// The opacity plays no part.
pub fn color_to_vec3(color: Color) -> (vec: Vec3)
    ensures
        vec@ == color_radiance(color),
        0 <= vec.x <= ONE && 0 <= vec.y <= ONE && 0 <= vec.z <= ONE,
{
    Vec3 {
        x: (color.r as i64 * ONE) / 255,
        y: (color.g as i64 * ONE) / 255,
        z: (color.b as i64 * ONE) / 255,
    }
}

} // verus!
