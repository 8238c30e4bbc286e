//! What holds of the kernel and the accumulator as a whole.
use vstd::prelude::*;
use crate::bodies::plane::{checker_cell, plane_coordinates, Plane, AXIS_DOMINANCE, CHECK_SIZE};
use crate::fixed::{
    abs, lemma_floor_sqrt_between, lemma_floor_sqrt_unique, lemma_tdiv_multiple, lemma_trem,
    tdiv, trem, ONE,
};
use crate::geometry::SceneObject;
use crate::ray_tracing::{
    bounce, bounce_origin, cosine_sample, nearest, radiance_along, shade, rounded, fixed_sqrt, frame_bitangent, frame_combination, frame_tangent,
    hemisphere_point, lemma_unit_product_bound, mirror, nearer, nearest_among, seed_axis,
    surface,
};
use crate::trig::{cos_turn, lemma_turn_range, sin_turn};
use crate::render::vshare;
use crate::vector::{
    color_radiance, vmul, lemma_component_le_length, lemma_mul_bound, lemma_normalized_within_one,
    lemma_refined_is_long, normalized, refined, unit_of, vadd, vcross, vdot, vlength, vlerp,
    vzero, within, V3,
};

verus! {

/// A blend by the weight zero is the first vector, and a blend by the
/// weight one is the second: nothing of the other is mixed in.
pub proof fn lemma_blend_ends(a: V3, b: V3)
    ensures
        vlerp(a, b, 0) == a,
        vlerp(a, b, ONE as int) == b,
{
    lemma_tdiv_multiple(a.x, ONE as int);
    lemma_tdiv_multiple(a.y, ONE as int);
    lemma_tdiv_multiple(a.z, ONE as int);
    lemma_tdiv_multiple(b.x, ONE as int);
    lemma_tdiv_multiple(b.y, ONE as int);
    lemma_tdiv_multiple(b.z, ONE as int);
    assert(a.x * (ONE - 0) + b.x * 0 == a.x * ONE) by (nonlinear_arith);
    assert(a.y * (ONE - 0) + b.y * 0 == a.y * ONE) by (nonlinear_arith);
    assert(a.z * (ONE - 0) + b.z * 0 == a.z * ONE) by (nonlinear_arith);
    assert(a.x * (ONE - ONE) + b.x * ONE == b.x * ONE) by (nonlinear_arith);
    assert(a.y * (ONE - ONE) + b.y * ONE == b.y * ONE) by (nonlinear_arith);
    assert(a.z * (ONE - ONE) + b.z * ONE == b.z * ONE) by (nonlinear_arith);
}

/// A surface without roughness bounces a ray in the mirror direction
/// exactly, whatever was sampled; a surface of roughness one bounces it in
/// the sampled direction exactly, wherever it came from.
pub proof fn lemma_bounce_at_the_ends(direction: V3, normal: V3, sample: V3)
    ensures
        bounce(direction, normal, sample, 0) == normalized(normalized(mirror(direction, normal))),
        bounce(direction, normal, sample, ONE as int) == normalized(sample),
{
    lemma_blend_ends(normalized(mirror(direction, normal)), sample);
}

/// The sum in the accumulation buffer after `n` frames that all hold the
/// radiance `c` for a pixel.
pub open spec fn constant_sum(c: V3, n: nat) -> V3
    decreases n,
{
    if n == 0 {
        vzero()
    } else {
        vadd(constant_sum(c, (n - 1) as nat), c)
    }
}

/// The sum of `n` frames of the radiance `c` is `n` times `c`.
pub proof fn lemma_constant_sum(c: V3, n: nat)
    ensures
        constant_sum(c, n) == (V3 { x: n * c.x, y: n * c.y, z: n * c.z }),
    decreases n,
{
    if n > 0 {
        lemma_constant_sum(c, (n - 1) as nat);
        assert(n * c.x == (n - 1) * c.x + c.x) by (nonlinear_arith);
        assert(n * c.y == (n - 1) * c.y + c.y) by (nonlinear_arith);
        assert(n * c.z == (n - 1) * c.z + c.z) by (nonlinear_arith);
    } else {
        assert(n * c.x == 0 && n * c.y == 0 && n * c.z == 0) by (nonlinear_arith)
            requires
                n == 0,
        ;
    }
}

/// The running mean of frames that all hold the same radiance is that
/// radiance, however many frames there are.
pub proof fn lemma_mean_of_constant_frames(c: V3, n: nat)
    requires
        1 <= n,
    ensures
        vshare(constant_sum(c, n), n as int) == c,
{
    lemma_constant_sum(c, n);
    lemma_tdiv_multiple(c.x, n as int);
    lemma_tdiv_multiple(c.y, n as int);
    lemma_tdiv_multiple(c.z, n as int);
    assert(n * c.x == c.x * n && n * c.y == c.y * n && n * c.z == c.z * n) by (nonlinear_arith);
}

/// What the search finds among the first `n` shapes is the nearest of
/// them: it lies on one of them, in front of the ray's origin, no shape
/// among them is met nearer in front of the origin, and those before the
/// one found are met farther or not at all. Where it finds nothing, the
/// ray meets none of them in front of its origin.
pub proof fn lemma_nearest_is_closest(
    scene: Seq<SceneObject>,
    origin: V3,
    direction: V3,
    n: int,
)
    requires
        0 <= n <= scene.len(),
    ensures
        match nearest_among(scene, origin, direction, n) {
            Some(found) => {
                &&& 0 < found.t
                &&& exists|i: int|
                    0 <= i < n && #[trigger] scene[i].hit(origin, direction) == Some(found.t)
                        && found == surface(scene[i], origin, direction, found.t) && forall|j: int|
                        0 <= j < i ==> !met_within(
                            #[trigger] scene[j].hit(origin, direction),
                            found.t + 1,
                        )
                &&& forall|j: int|
                    0 <= j < n ==> !met_within(#[trigger] scene[j].hit(origin, direction), found.t)
            },
            None => forall|j: int| 0 <= j < n ==> !met(#[trigger] scene[j].hit(origin, direction)),
        },
    decreases n,
{
    if n > 0 {
        lemma_nearest_is_closest(scene, origin, direction, n - 1);
        let before = nearest_among(scene, origin, direction, n - 1);
        let after = nearest_among(scene, origin, direction, n);
        let last = scene[n - 1].hit(origin, direction);
        if met(last) && nearer(last->Some_0, before) {
            let t = last->Some_0;
            assert(after == Some(surface(scene[n - 1], origin, direction, t)));
            assert(scene[n - 1].hit(origin, direction) == Some(t));
            assert forall|j: int| 0 <= j < n - 1 implies !met_within(
                #[trigger] scene[j].hit(origin, direction),
                t + 1,
            ) by {
                match before {
                    Some(found) => {
                        assert(!met_within(scene[j].hit(origin, direction), found.t));
                    },
                    None => {
                        assert(!met(scene[j].hit(origin, direction)));
                    },
                }
            }
        } else {
            assert(after == before);
            match before {
                Some(found) => {
                    let i = choose|i: int|
                        0 <= i < n - 1 && #[trigger] scene[i].hit(origin, direction) == Some(
                            found.t,
                        ) && found == surface(scene[i], origin, direction, found.t) && forall|j: int|
                            0 <= j < i ==> !met_within(
                                #[trigger] scene[j].hit(origin, direction),
                                found.t + 1,
                            );
                    assert(0 <= i < n && scene[i].hit(origin, direction) == Some(found.t));
                },
                None => {},
            }
        }
    }
}

/// The ray meets the shape in front of its origin.
pub open spec fn met(t: Option<int>) -> bool {
    match t {
        Some(distance) => 0 < distance,
        None => false,
    }
}

/// The ray meets the shape in front of its origin and nearer than
/// `bound`.
pub open spec fn met_within(t: Option<int>, bound: int) -> bool {
    match t {
        Some(distance) => 0 < distance < bound,
        None => false,
    }
}

/// One component of a normalised vector, times the vector's length, is
/// the component scaled to one, but for what the rounding took: at most
/// the length, on the side of zero.
pub proof fn lemma_unit_component(c: int, len: int)
    requires
        1 <= len,
        abs(c) <= len,
    ensures
        ({
            let q = tdiv(c * ONE, len);
            &&& (q * len) * (q * len) <= (c * ONE) * (c * ONE)
            &&& (c * ONE) * (c * ONE) - 2 * ONE * (len * len) <= (q * len) * (q * len)
            &&& (q * len) * (q * len) == (q * q) * (len * len)
        }),
{
    let a = c * ONE;
    let q = tdiv(a, len);
    let r = trem(a, len);
    let p = q * len;
    lemma_trem(a, len);
    assert(p == a - r);
    assert(abs(a) <= ONE * len) by (nonlinear_arith)
        requires
            a == c * ONE,
            abs(c) <= len,
    ;
    assert(0 <= a * r && a * r <= ONE * (len * len) && r * r <= a * r) by (nonlinear_arith)
        requires
            abs(a) <= ONE * len,
            abs(r) < len,
            abs(r) <= abs(a),
            0 <= a ==> 0 <= r,
            a <= 0 ==> r <= 0,
    ;
    assert(p * p == a * a - 2 * (a * r) + r * r) by (nonlinear_arith)
        requires
            p == a - r,
    ;
    assert(p * p <= a * a && a * a - 2 * ONE * (len * len) <= p * p) by (nonlinear_arith)
        requires
            p * p == a * a - 2 * (a * r) + r * r,
            0 <= a * r,
            a * r <= ONE * (len * len),
            r * r <= a * r,
    ;
    assert((q * len) * (q * len) == (q * q) * (len * len)) by (nonlinear_arith);
}

/// A normalised vector that was not zero has the length one but for what
/// the rounding took: the square of its length is at most six millionths
/// below one and below the square of one and a millionth.
pub proof fn lemma_normalized_is_unit(v: V3)
    requires
        vdot(v, v) > 0,
    ensures
        ONE * ONE - 6 * ONE <= vdot(normalized(v), normalized(v)) < (ONE + 1) * (ONE + 1),
{
    lemma_refined_is_long(v);
    lemma_unit_of_is_unit(refined(v));
}

/// A vector divided by its length has the length one but for what the
/// rounding took: the square of its length is at most six millionths
/// below one; it is below the square of one and a millionth where the
/// vector is at least one long, and at most one where the square of the
/// vector's length is a perfect square.
pub proof fn lemma_unit_of_is_unit(v: V3)
    requires
        vdot(v, v) > 0,
    ensures
        ONE * ONE - 6 * ONE <= vdot(unit_of(v), unit_of(v)),
        vlength(v) >= ONE ==> vdot(unit_of(v), unit_of(v)) < (ONE + 1) * (ONE + 1),
        vdot(v, v) == vlength(v) * vlength(v) ==> vdot(unit_of(v), unit_of(v)) <= ONE * ONE,
{
    lemma_component_le_length(v);
    let len = vlength(v);
    let u = unit_of(v);
    lemma_unit_component(v.x, len);
    lemma_unit_component(v.y, len);
    lemma_unit_component(v.z, len);
    let sq = len * len;
    assert(sq > 0) by (nonlinear_arith)
        requires
            sq == len * len,
            len >= 1,
    ;
    let uu = vdot(u, u);
    let vv = vdot(v, v);
    assert(uu * sq == (u.x * u.x) * sq + (u.y * u.y) * sq + (u.z * u.z) * sq)
        by (nonlinear_arith)
        requires
            uu == u.x * u.x + u.y * u.y + u.z * u.z,
    ;
    assert((v.x * ONE) * (v.x * ONE) + (v.y * ONE) * (v.y * ONE) + (v.z * ONE) * (v.z * ONE) == (
    ONE * ONE) * vv) by (nonlinear_arith)
        requires
            vv == v.x * v.x + v.y * v.y + v.z * v.z,
    ;
    let (ax, ay, az) = ((u.x * u.x) * sq, (u.y * u.y) * sq, (u.z * u.z) * sq);
    let (bx, by, bz) = (
        (v.x * ONE) * (v.x * ONE),
        (v.y * ONE) * (v.y * ONE),
        (v.z * ONE) * (v.z * ONE),
    );
    assert(uu * sq >= (ONE * ONE) * vv - 6 * ONE * sq && uu * sq <= (ONE * ONE) * vv)
        by (nonlinear_arith)
        requires
            uu * sq == ax + ay + az,
            bx + by + bz == (ONE * ONE) * vv,
            bx - 2 * ONE * sq <= ax <= bx,
            by - 2 * ONE * sq <= ay <= by,
            bz - 2 * ONE * sq <= az <= bz,
            ONE == 1_000_000,
    ;
    // Below: the squares lose at most twice the length's square each.
    assert(uu >= ONE * ONE - 6 * ONE) by (nonlinear_arith)
        requires
            uu * sq >= (ONE * ONE) * vv - 6 * ONE * sq,
            vv >= sq,
            sq > 0,
            ONE == 1_000_000,
    ;
    // Above: no component gains by the rounding.
    if len >= ONE {
        assert(uu < (ONE + 1) * (ONE + 1)) by (nonlinear_arith)
            requires
                uu * sq <= (ONE * ONE) * vv,
                vv < (len + 1) * (len + 1),
                sq == len * len,
                len >= ONE,
                ONE == 1_000_000,
        ;
    }
    if vv == sq {
        assert(uu <= ONE * ONE) by (nonlinear_arith)
            requires
                uu * sq <= (ONE * ONE) * vv,
                vv == sq,
                sq > 0,
        ;
    }
}

/// One term of the dot product of a normalised vector with another
/// vector, times the length of the vector that was normalised, is the
/// term of the vector itself, scaled to one, but for what the rounding
/// took.
pub proof fn lemma_unit_term(c: int, len: int, w: int, bound: int)
    requires
        1 <= len,
        abs(w) <= bound,
    ensures
        abs((tdiv(c * ONE, len) * w) * len - ONE * (c * w)) <= bound * len,
{
    let a = c * ONE;
    let q = tdiv(a, len);
    let r = trem(a, len);
    lemma_trem(a, len);
    assert((q * w) * len - ONE * (c * w) == -(r * w)) by (nonlinear_arith)
        requires
            r == a - q * len,
            a == c * ONE,
    ;
    lemma_mul_bound(r, w, len, bound);
    assert(len * bound == bound * len) by (nonlinear_arith);
}

/// The dot product of a vector divided by its length with a bounded
/// vector, times that length, is the dot product of the vector itself,
/// scaled to one, but for what the rounding took.
pub proof fn lemma_unit_of_dot(v: V3, w: V3, bound: int)
    requires
        vdot(v, v) > 0,
        within(w, bound),
    ensures
        abs(vdot(unit_of(v), w) * vlength(v) - ONE * vdot(v, w)) <= 3 * (bound * vlength(v)),
{
    lemma_component_le_length(v);
    let len = vlength(v);
    let u = unit_of(v);
    lemma_unit_term(v.x, len, w.x, bound);
    lemma_unit_term(v.y, len, w.y, bound);
    lemma_unit_term(v.z, len, w.z, bound);
    assert(vdot(u, w) * len - ONE * vdot(v, w) == ((u.x * w.x) * len - ONE * (v.x * w.x)) + ((u.y
        * w.y) * len - ONE * (v.y * w.y)) + ((u.z * w.z) * len - ONE * (v.z * w.z)))
        by (nonlinear_arith)
        requires
            vdot(u, w) == u.x * w.x + u.y * w.y + u.z * w.z,
            vdot(v, w) == v.x * w.x + v.y * w.y + v.z * w.z,
    ;
}

/// The dot product of a vector `s a - k b` with a vector `c` is `s` times
/// that of `a` less `k` times that of `b`.
pub proof fn lemma_dot_of_difference(a: V3, b: V3, s: int, k: int, c: V3)
    ensures
        vdot(V3 { x: s * a.x - k * b.x, y: s * a.y - k * b.y, z: s * a.z - k * b.z }, c) == s
            * vdot(a, c) - k * vdot(b, c),
{
    lemma_term_of_difference(a.x, b.x, s, k, c.x);
    lemma_term_of_difference(a.y, b.y, s, k, c.y);
    lemma_term_of_difference(a.z, b.z, s, k, c.z);
    let (p, q, r) = (a.x * c.x, a.y * c.y, a.z * c.z);
    let (t, u, w) = (b.x * c.x, b.y * c.y, b.z * c.z);
    assert(s * (p + q + r) == s * p + s * q + s * r) by (nonlinear_arith);
    assert(k * (t + u + w) == k * t + k * u + k * w) by (nonlinear_arith);
}

/// The product of a scalar `s a - k b` with a scalar `c` is `s` times
/// that of `a` less `k` times that of `b`.
pub proof fn lemma_term_of_difference(a: int, b: int, s: int, k: int, c: int)
    ensures
        (s * a - k * b) * c == s * (a * c) - k * (b * c),
{
    assert((s * a - k * b) * c == s * (a * c) - k * (b * c)) by (nonlinear_arith);
}

/// The dot products of the mirror image of `d` about `n` with `n` and
/// with itself, by those of `d` and `n`.
pub proof fn lemma_mirror_products(d: V3, n: V3)
    ensures
        vdot(mirror(d, n), n) == (ONE * ONE) * vdot(d, n) - (2 * vdot(d, n)) * vdot(n, n),
        vdot(mirror(d, n), mirror(d, n)) == (ONE * ONE) * ((ONE * ONE) * vdot(d, d) - (2 * vdot(
            d,
            n,
        )) * vdot(d, n)) - (2 * vdot(d, n)) * ((ONE * ONE) * vdot(d, n) - (2 * vdot(d, n)) * vdot(
            n,
            n,
        )),
{
    let s = ONE * ONE;
    let dn = vdot(d, n);
    let k = 2 * dn;
    let m = mirror(d, n);
    assert(d.x * ONE * ONE == s * d.x && d.y * ONE * ONE == s * d.y && d.z * ONE * ONE == s * d.z)
        by (nonlinear_arith)
        requires
            s == ONE * ONE,
    ;
    assert(m == V3 { x: s * d.x - k * n.x, y: s * d.y - k * n.y, z: s * d.z - k * n.z });
    lemma_dot_of_difference(d, n, s, k, n);
    lemma_dot_of_difference(d, n, s, k, d);
    lemma_dot_of_difference(d, n, s, k, m);
    assert(vdot(n, d) == dn && vdot(d, m) == vdot(m, d) && vdot(n, m) == vdot(m, n))
        by (nonlinear_arith)
        requires
            dn == d.x * n.x + d.y * n.y + d.z * n.z,
            vdot(n, d) == n.x * d.x + n.y * d.y + n.z * d.z,
            vdot(d, m) == d.x * m.x + d.y * m.y + d.z * m.z,
            vdot(m, d) == m.x * d.x + m.y * d.y + m.z * d.z,
            vdot(n, m) == n.x * m.x + n.y * m.y + n.z * m.z,
            vdot(m, n) == m.x * n.x + m.y * n.y + m.z * n.z,
    ;
}

/// The mirror image of a unit vector about a unit normal has exactly the
/// length one, and its dot product with the normal is that of the vector,
/// negated.
pub proof fn lemma_mirror_of_units(d: V3, n: V3)
    requires
        vdot(d, d) == ONE * ONE,
        vdot(n, n) == ONE * ONE,
    ensures
        vdot(mirror(d, n), n) == -(ONE * ONE) * vdot(d, n),
        vdot(mirror(d, n), mirror(d, n)) == (ONE * ONE * ONE) * (ONE * ONE * ONE),
        vlength(mirror(d, n)) == ONE * ONE * ONE,
{
    let s = ONE * ONE;
    let dn = vdot(d, n);
    let k = 2 * dn;
    let m = mirror(d, n);
    lemma_mirror_products(d, n);
    let mn = vdot(m, n);
    let mm = vdot(m, m);
    assert(mn == -s * dn) by (nonlinear_arith)
        requires
            mn == s * dn - k * s,
            k == 2 * dn,
    ;
    assert(mm == s * s * s) by (nonlinear_arith)
        requires
            mm == s * (s * s - k * dn) - k * mn,
            mn == -s * dn,
            k == 2 * dn,
    ;
    let cube = ONE * ONE * ONE;
    assert(s * s * s == cube * cube && cube >= 0 && cube * cube < (cube + 1) * (cube + 1))
        by (nonlinear_arith)
        requires
            s == ONE * ONE,
            cube == ONE * ONE * ONE,
            ONE == 1_000_000,
    ;
    lemma_floor_sqrt_unique(cube, mm);
}

/// A perfect mirror reflects a vector that is unit but for the rounding
/// of a normalisation, about a normal that is so, into a vector that has
/// the length one as normalised vectors have it, and whose dot product
/// with the normal is that of the arriving vector, negated, within
/// thirty-two millionths.
pub proof fn lemma_reflection_of_near_units(d: V3, n: V3)
    requires
        ONE * ONE - 6 * ONE <= vdot(d, d) < (ONE + 1) * (ONE + 1),
        ONE * ONE - 6 * ONE <= vdot(n, n) < (ONE + 1) * (ONE + 1),
    ensures
        ONE * ONE - 6 * ONE <= vdot(normalized(mirror(d, n)), normalized(mirror(d, n))) < (ONE
            + 1) * (ONE + 1),
        abs(vdot(normalized(mirror(d, n)), n) + vdot(d, n)) <= 32 * ONE,
{
    let s = ONE * ONE;
    let (dd, nn, dn) = (vdot(d, d), vdot(n, n), vdot(d, n));
    let k = 2 * dn;
    let m = mirror(d, n);
    let r = normalized(m);
    lemma_mirror_products(d, n);
    lemma_cross_and_dot(d, n);
    let (mn, mm) = (vdot(m, n), vdot(m, m));
    let q = (ONE + 1) * (ONE + 1);
    let sq = dn * dn;
    assert(q == ONE * ONE + 2 * ONE + 1) by (nonlinear_arith)
        requires
            q == (ONE + 1) * (ONE + 1),
    ;
    assert(0 <= sq <= q * q && abs(dn) <= q) by (nonlinear_arith)
        requires
            sq == dn * dn,
            sq <= dd * nn,
            0 <= dd < q,
            0 <= nn < q,
            q == (ONE + 1) * (ONE + 1),
            ONE == 1_000_000,
    ;
    // The mirror image is long as the arriving vector, nearly.
    assert(mm == s * s * dd + 4 * (sq * (nn - s))) by (nonlinear_arith)
        requires
            mm == s * (s * dd - k * dn) - k * (s * dn - k * nn),
            k == 2 * dn,
            sq == dn * dn,
    ;
    let cube = ONE * ONE * ONE;
    let (low, high) = (cube - 16 * s, cube + 6 * s);
    assert(low * low <= mm <= high * high && 0 <= low && ONE * ONE <= mm) by (nonlinear_arith)
        requires
            mm == s * s * dd + 4 * (sq * (nn - s)),
            0 <= sq <= q * q,
            s - 6 * ONE <= dd < q,
            s - 6 * ONE <= nn < q,
            q == (ONE + 1) * (ONE + 1),
            s == ONE * ONE,
            cube == ONE * ONE * ONE,
            low == cube - 16 * s,
            high == cube + 6 * s,
            ONE == 1_000_000,
    ;
    lemma_floor_sqrt_between(mm, low, high);
    let len = vlength(m);
    assert(refined(m) == m);
    lemma_unit_of_is_unit(m);
    // Its dot product with the normal is that of the arriving vector.
    assert(abs(n.x) <= ONE && abs(n.y) <= ONE && abs(n.z) <= ONE) by (nonlinear_arith)
        requires
            n.x * n.x + n.y * n.y + n.z * n.z < (ONE + 1) * (ONE + 1),
            ONE == 1_000_000,
    ;
    lemma_unit_of_dot(m, n, ONE as int);
    let rn = vdot(r, n);
    let rest = rn * len - ONE * mn;
    lemma_mul_bound(dn, len - cube, q, 16 * s);
    lemma_mul_bound(dn, nn - s, q, 6 * ONE);
    let (shift, bend) = (dn * (len - cube), dn * (nn - s));
    assert((rn + dn) * len == rest + shift - 2 * ONE * bend) by (nonlinear_arith)
        requires
            rest == rn * len - ONE * mn,
            mn == s * dn - (2 * dn) * nn,
            shift == dn * (len - cube),
            bend == dn * (nn - s),
            cube == ONE * ONE * ONE,
            s == ONE * ONE,
    ;
    let sum = rn + dn;
    assert(abs(sum) <= 32 * ONE) by (nonlinear_arith)
        requires
            sum * len == rest + shift - 2 * ONE * bend,
            abs(rest) <= 3 * (ONE * len),
            abs(shift) <= q * (16 * s),
            abs(bend) <= q * (6 * ONE),
            cube - 16 * s <= len,
            q == (ONE + 1) * (ONE + 1),
            s == ONE * ONE,
            cube == ONE * ONE * ONE,
            ONE == 1_000_000,
    ;
}

/// A perfect mirror reflects a unit vector about a unit normal into a
/// vector that has the length one, and whose dot product with the normal
/// is that of the arriving vector, negated, each but for what the
/// rounding took: the square of the length is at most six millionths
/// below one and not above it, and the two dot products differ by at most
/// three millionths in magnitude.
pub proof fn lemma_reflection_of_units(d: V3, n: V3)
    requires
        vdot(d, d) == ONE * ONE,
        vdot(n, n) == ONE * ONE,
    ensures
        ONE * ONE - 6 * ONE <= vdot(normalized(mirror(d, n)), normalized(mirror(d, n))) <= ONE
            * ONE,
        abs(vdot(normalized(mirror(d, n)), n) + vdot(d, n)) <= 3 * ONE,
{
    let m = mirror(d, n);
    let r = normalized(m);
    let cube = ONE * ONE * ONE;
    lemma_mirror_of_units(d, n);
    assert(cube * cube > 0) by (nonlinear_arith)
        requires
            cube == ONE * ONE * ONE,
            ONE == 1_000_000,
    ;
    assert(cube * cube >= ONE * ONE) by (nonlinear_arith)
        requires
            cube == ONE * ONE * ONE,
            ONE == 1_000_000,
    ;
    assert(refined(m) == m);
    lemma_unit_of_is_unit(m);
    lemma_component_le_length(n);
    lemma_floor_sqrt_unique(ONE as int, ONE * ONE);
    lemma_unit_of_dot(m, n, ONE as int);
    let rn = vdot(r, n);
    let dn = vdot(d, n);
    assert(abs(rn + dn) <= 3 * ONE) by (nonlinear_arith)
        requires
            abs(rn * cube - ONE * (-(ONE * ONE) * dn)) <= 3 * (ONE * cube),
            cube == ONE * ONE * ONE,
            ONE == 1_000_000,
    ;
}

/// The point of the hemisphere that two draws select has its first two
/// coordinates at most one in magnitude, and its third between a
/// thousandth and one.
pub proof fn lemma_hemisphere_point_range(r1: int, r2: int)
    requires
        0 <= r1 < ONE,
        0 <= r2 < ONE,
    ensures
        abs(hemisphere_point(r1, r2).x) <= ONE,
        abs(hemisphere_point(r1, r2).y) <= ONE,
        1000 <= hemisphere_point(r1, r2).z <= ONE,
{
    lemma_turn_range(r1);
    assert(0 <= r2 * ONE <= ONE * ONE && 1000 * 1000 <= (ONE - r2) * ONE <= ONE * ONE && 0 * 0
        <= r2 * ONE) by (nonlinear_arith)
        requires
            0 <= r2 < ONE,
            ONE == 1_000_000,
    ;
    lemma_floor_sqrt_between(r2 * ONE, 0, ONE as int);
    lemma_floor_sqrt_between((ONE - r2) * ONE, 1000, ONE as int);
    lemma_unit_product_bound(cos_turn(r1), fixed_sqrt(r2));
    lemma_unit_product_bound(sin_turn(r1), fixed_sqrt(r2));
}

/// The cross product of two vectors is at right angles to the first.
pub proof fn lemma_cross_is_orthogonal(a: V3, b: V3)
    ensures
        vdot(vcross(a, b), a) == 0,
        vdot(vcross(a, b), b) == 0,
{
    assert((a.y * b.z - a.z * b.y) * a.x == (a.y * b.z) * a.x - (a.z * b.y) * a.x)
        by (nonlinear_arith);
    assert((a.z * b.x - a.x * b.z) * a.y == (a.z * b.x) * a.y - (a.x * b.z) * a.y)
        by (nonlinear_arith);
    assert((a.x * b.y - a.y * b.x) * a.z == (a.x * b.y) * a.z - (a.y * b.x) * a.z)
        by (nonlinear_arith);
    assert((a.y * b.z) * a.x == (a.x * b.z) * a.y && (a.z * b.y) * a.x == (a.x * b.y) * a.z && (
    a.z * b.x) * a.y == (a.y * b.x) * a.z) by (nonlinear_arith);
    assert((a.y * b.z - a.z * b.y) * b.x == (a.y * b.z) * b.x - (a.z * b.y) * b.x)
        by (nonlinear_arith);
    assert((a.z * b.x - a.x * b.z) * b.y == (a.z * b.x) * b.y - (a.x * b.z) * b.y)
        by (nonlinear_arith);
    assert((a.x * b.y - a.y * b.x) * b.z == (a.x * b.y) * b.z - (a.y * b.x) * b.z)
        by (nonlinear_arith);
    assert((a.y * b.z) * b.x == (a.y * b.x) * b.z && (a.z * b.y) * b.x == (a.z * b.x) * b.y && (
    a.x * b.z) * b.y == (a.x * b.y) * b.z) by (nonlinear_arith);
}

/// A vector at right angles to a vector `n` that has no component beyond
/// one stays so when it is normalised, but for what the rounding took:
/// three millionths at most.
pub proof fn lemma_normalized_stays_orthogonal(v: V3, n: V3)
    requires
        within(n, ONE as int),
        vdot(v, n) == 0,
    ensures
        abs(vdot(normalized(v), n)) <= 3 * ONE,
        within(normalized(v), ONE as int),
{
    lemma_normalized_within_one(v);
    lemma_refined_is_long(v);
    let w = refined(v);
    if vdot(v, v) > 0 {
        assert(vdot(w, n) == 0) by (nonlinear_arith)
            requires
                vdot(v, n) == v.x * n.x + v.y * n.y + v.z * n.z,
                vdot(v, n) == 0,
                vdot(w, n) == w.x * n.x + w.y * n.y + w.z * n.z,
                (w.x == v.x * ONE && w.y == v.y * ONE && w.z == v.z * ONE) || w == v,
        ;
        lemma_unit_of_dot(w, n, ONE as int);
        let un = vdot(unit_of(w), n);
        let len = vlength(w);
        assert(abs(un) <= 3 * ONE) by (nonlinear_arith)
            requires
                abs(un * len - ONE * 0) <= 3 * (ONE * len),
                len >= 1,
        ;
    }
}

/// The tangent and the bitangent of the frame of a normal with no
/// component beyond one have no component beyond one, and are at right
/// angles to the normal but for what the rounding took.
pub proof fn lemma_frame_is_orthogonal(n: V3)
    requires
        within(n, ONE as int),
    ensures
        within(frame_tangent(n), ONE as int),
        within(frame_bitangent(n), ONE as int),
        abs(vdot(frame_tangent(n), n)) <= 3 * ONE,
        abs(vdot(frame_bitangent(n), n)) <= 3 * ONE,
{
    lemma_cross_is_orthogonal(n, seed_axis(n));
    lemma_normalized_stays_orthogonal(vcross(n, seed_axis(n)), n);
    lemma_cross_is_orthogonal(frame_bitangent(n), n);
    lemma_normalized_stays_orthogonal(vcross(frame_bitangent(n), n), n);
}

/// One component of a vector given by coordinates of at most one in a
/// frame of vectors with no component beyond one is at most three in
/// magnitude, and its product with a scalar `w` is the sum of the
/// products of its three terms.
pub proof fn lemma_combination_term(t: int, b: int, n: int, local: V3, w: int)
    requires
        abs(t) <= ONE,
        abs(b) <= ONE,
        abs(n) <= ONE,
        within(local, ONE as int),
    ensures
        abs(t * local.x + b * local.y + n * local.z) <= 3 * (ONE * ONE),
        (t * local.x + b * local.y + n * local.z) * w == local.x * (t * w) + local.y * (b * w)
            + local.z * (n * w),
{
    lemma_mul_bound(t, local.x, ONE as int, ONE as int);
    lemma_mul_bound(b, local.y, ONE as int, ONE as int);
    lemma_mul_bound(n, local.z, ONE as int, ONE as int);
    let (p, q, r) = (t * local.x, b * local.y, n * local.z);
    assert((p + q + r) * w == p * w + q * w + r * w) by (nonlinear_arith);
    assert((t * local.x) * w == local.x * (t * w)) by (nonlinear_arith);
    assert((b * local.y) * w == local.y * (b * w)) by (nonlinear_arith);
    assert((n * local.z) * w == local.z * (n * w)) by (nonlinear_arith);
}

/// A product with a sum of three terms is the sum of the products.
pub proof fn lemma_distribute(k: int, a: int, b: int, c: int)
    ensures
        k * (a + b + c) == k * a + k * b + k * c,
{
    assert(k * (a + b + c) == k * a + k * b + k * c) by (nonlinear_arith);
}

/// The direction that two draws select has no component beyond three.
pub proof fn lemma_cosine_sample_range(n: V3, r1: int, r2: int)
    requires
        within(n, ONE as int),
        0 <= r1 < ONE,
        0 <= r2 < ONE,
    ensures
        within(cosine_sample(n, r1, r2), 3 * ONE),
{
    let t = frame_tangent(n);
    let b = frame_bitangent(n);
    let local = hemisphere_point(r1, r2);
    let raw = frame_combination(t, b, n, local);
    lemma_frame_is_orthogonal(n);
    lemma_hemisphere_point_range(r1, r2);
    lemma_combination_term(t.x, b.x, n.x, local, 0);
    lemma_combination_term(t.y, b.y, n.y, local, 0);
    lemma_combination_term(t.z, b.z, n.z, local, 0);
    lemma_rounded_bound(raw.x);
    lemma_rounded_bound(raw.y);
    lemma_rounded_bound(raw.z);
}

/// A scalar of at most three that counts millionths of millionths is at
/// most three when it is rounded to millionths.
pub proof fn lemma_rounded_bound(a: int)
    requires
        abs(a) <= 3 * (ONE * ONE),
    ensures
        abs(tdiv(a, ONE as int)) <= 3 * ONE,
{
    crate::fixed::lemma_tdiv_bound(a, ONE as int);
    let q = abs(tdiv(a, ONE as int));
    assert(q <= 3 * ONE) by (nonlinear_arith)
        requires
            q * ONE <= abs(a),
            abs(a) <= 3 * (ONE * ONE),
            ONE == 1_000_000,
    ;
}

/// One term of the dot product of a rounded vector with another vector,
/// scaled to one, is the term of the vector itself but for what the
/// rounding took.
pub proof fn lemma_rounded_term(a: int, w: int)
    requires
        abs(w) <= ONE,
    ensures
        abs((tdiv(a, ONE as int) * w) * ONE - a * w) <= ONE * ONE,
{
    let q = tdiv(a, ONE as int);
    let r = trem(a, ONE as int);
    lemma_trem(a, ONE as int);
    assert((q * w) * ONE - a * w == -(r * w)) by (nonlinear_arith)
        requires
            r == a - q * ONE,
    ;
    lemma_mul_bound(r, w, ONE as int, ONE as int);
}

/// The direction that two draws select above a surface leans toward the
/// surface's normal: their dot product is positive, and it is the cosine
/// that the second draw asks for, the square root of `1 - r2`, within
/// fifteen millionths; within nine where the normal is exactly unit. The
/// normal is a unit vector, or one that was normalised.
pub proof fn lemma_cosine_sample_is_above(n: V3, r1: int, r2: int)
    requires
        within(n, ONE as int),
        ONE * ONE - 6 * ONE <= vdot(n, n) < (ONE + 1) * (ONE + 1),
        0 <= r1 < ONE,
        0 <= r2 < ONE,
    ensures
        0 < vdot(cosine_sample(n, r1, r2), n),
        abs(vdot(cosine_sample(n, r1, r2), n) - fixed_sqrt(ONE - r2) * ONE) <= 15 * ONE,
        vdot(n, n) == ONE * ONE ==> abs(
            vdot(cosine_sample(n, r1, r2), n) - fixed_sqrt(ONE - r2) * ONE,
        ) <= 9 * ONE,
{
    let t = frame_tangent(n);
    let b = frame_bitangent(n);
    let local = hemisphere_point(r1, r2);
    let raw = frame_combination(t, b, n, local);
    let sample = cosine_sample(n, r1, r2);
    lemma_frame_is_orthogonal(n);
    lemma_hemisphere_point_range(r1, r2);
    lemma_combination_term(t.x, b.x, n.x, local, n.x);
    lemma_combination_term(t.y, b.y, n.y, local, n.y);
    lemma_combination_term(t.z, b.z, n.z, local, n.z);
    let tn = vdot(t, n);
    let bn = vdot(b, n);
    let nn = vdot(n, n);
    let rn = vdot(raw, n);
    let z = local.z;
    // The combination leans toward the normal by its third coordinate.
    lemma_distribute(local.x, t.x * n.x, t.y * n.y, t.z * n.z);
    lemma_distribute(local.y, b.x * n.x, b.y * n.y, b.z * n.z);
    lemma_distribute(local.z, n.x * n.x, n.y * n.y, n.z * n.z);
    assert(rn == local.x * tn + local.y * bn + z * nn);
    lemma_mul_bound(local.x, tn, ONE as int, 3 * ONE);
    lemma_mul_bound(local.y, bn, ONE as int, 3 * ONE);
    // Rounded, it loses at most a millionth in each component.
    lemma_rounded_term(raw.x, n.x);
    lemma_rounded_term(raw.y, n.y);
    lemma_rounded_term(raw.z, n.z);
    let sn = vdot(sample, n);
    assert(sn * ONE - rn == ((sample.x * n.x) * ONE - raw.x * n.x) + ((sample.y * n.y) * ONE
        - raw.y * n.y) + ((sample.z * n.z) * ONE - raw.z * n.z)) by (nonlinear_arith)
        requires
            sn == sample.x * n.x + sample.y * n.y + sample.z * n.z,
            rn == raw.x * n.x + raw.y * n.y + raw.z * n.z,
    ;
    assert(abs(z * nn - z * (ONE * ONE)) <= 6 * (ONE * ONE)) by (nonlinear_arith)
        requires
            0 <= z <= ONE,
            ONE * ONE - 6 * ONE <= nn < (ONE + 1) * (ONE + 1),
            ONE == 1_000_000,
    ;
    let target = z * ONE;
    assert(abs(sn - target) <= 15 * ONE && (nn == ONE * ONE ==> abs(sn - target) <= 9 * ONE))
        by (nonlinear_arith)
        requires
            abs(sn * ONE - rn) <= 3 * (ONE * ONE),
            rn == local.x * tn + local.y * bn + z * nn,
            abs(local.x * tn) <= ONE * (3 * ONE),
            abs(local.y * bn) <= ONE * (3 * ONE),
            abs(z * nn - z * (ONE * ONE)) <= 6 * (ONE * ONE),
            target == z * ONE,
            ONE == 1_000_000,
    ;
}

/// The step of one cell along the first of the two axes across which a
/// plane with the given normal is checkered.
pub open spec fn cell_step(normal: V3) -> V3 {
    if abs(normal.y) <= AXIS_DOMINANCE && abs(normal.x) > AXIS_DOMINANCE {
        V3 { x: 0, y: CHECK_SIZE as int, z: 0 }
    } else {
        V3 { x: CHECK_SIZE as int, y: 0, z: 0 }
    }
}

/// A coordinate one cell further on lies in the next cell.
pub proof fn lemma_next_cell(u: int)
    ensures
        (u + CHECK_SIZE) / (CHECK_SIZE as int) == u / (CHECK_SIZE as int) + 1,
{
    assert((u + 500_000) / 500_000 == u / 500_000 + 1) by (nonlinear_arith);
}

/// On a checkered plane two points one cell apart along an axis of the
/// checkerboard have different colours.
pub proof fn lemma_checker_neighbours_differ(plane: Plane, hit_point: V3)
    requires
        plane.is_checkered,
    ensures
        plane.color_at(vadd(hit_point, cell_step(plane.normal@))) != plane.color_at(hit_point),
{
    let (u, v) = plane_coordinates(plane.normal@, hit_point);
    let (p, q) = plane_coordinates(plane.normal@, vadd(hit_point, cell_step(plane.normal@)));
    assert(p == u + CHECK_SIZE && q == v);
    lemma_next_cell(u);
    assert(checker_cell(p, q) == checker_cell(u, v) + 1);
}

/// The product of two products, with the factors exchanged.
pub proof fn lemma_exchange(a: int, b: int, c: int, d: int)
    ensures
        (a * b) * (c * d) == (a * d) * (c * b),
        (a * a) * (b * b) == (a * b) * (a * b),
{
    assert((a * b) * (c * d) == (a * d) * (c * b)) by (nonlinear_arith);
    assert((a * a) * (b * b) == (a * b) * (a * b)) by (nonlinear_arith);
}

/// The square of a sum of three terms.
pub proof fn lemma_square_of_sum(p: int, q: int, r: int)
    ensures
        (p + q + r) * (p + q + r) == p * p + q * q + r * r + 2 * (p * q) + 2 * (p * r) + 2 * (q
            * r),
{
    assert((p + q + r) * (p + q + r) == p * p + q * q + r * r + 2 * (p * q) + 2 * (p * r) + 2
        * (q * r)) by (nonlinear_arith);
}

/// The square of a difference.
pub proof fn lemma_square_of_difference(p: int, q: int)
    ensures
        (p - q) * (p - q) == p * p + q * q - 2 * (p * q),
{
    assert((p - q) * (p - q) == p * p + q * q - 2 * (p * q)) by (nonlinear_arith);
}

/// The product of two sums of three terms.
pub proof fn lemma_product_of_sums(a: int, b: int, c: int, u: int, v: int, w: int)
    ensures
        (a + b + c) * (u + v + w) == a * u + a * v + a * w + b * u + b * v + b * w + c * u + c * v
            + c * w,
{
    assert((a + b + c) * (u + v + w) == a * u + a * v + a * w + b * u + b * v + b * w + c * u + c
        * v + c * w) by (nonlinear_arith);
}

/// The squares of the cross product and of the dot product of two
/// vectors add up to the product of the squares of their lengths. So the
/// square of the dot product is at most that product.
pub proof fn lemma_cross_and_dot(a: V3, b: V3)
    ensures
        vdot(vcross(a, b), vcross(a, b)) + vdot(a, b) * vdot(a, b) == vdot(a, a) * vdot(b, b),
        vdot(a, b) * vdot(a, b) <= vdot(a, a) * vdot(b, b),
        0 <= vdot(vcross(a, b), vcross(a, b)),
{
    let c = vcross(a, b);
    lemma_square_of_difference(a.y * b.z, a.z * b.y);
    lemma_square_of_difference(a.z * b.x, a.x * b.z);
    lemma_square_of_difference(a.x * b.y, a.y * b.x);
    lemma_square_of_sum(a.x * b.x, a.y * b.y, a.z * b.z);
    lemma_product_of_sums(a.x * a.x, a.y * a.y, a.z * a.z, b.x * b.x, b.y * b.y, b.z * b.z);
    lemma_exchange(a.y, b.z, a.z, b.y);
    lemma_exchange(a.z, b.x, a.x, b.z);
    lemma_exchange(a.x, b.y, a.y, b.x);
    lemma_exchange(a.x, b.x, a.x, b.x);
    lemma_exchange(a.x, b.y, a.x, b.y);
    lemma_exchange(a.x, b.z, a.x, b.z);
    lemma_exchange(a.y, b.x, a.y, b.x);
    lemma_exchange(a.y, b.y, a.y, b.y);
    lemma_exchange(a.y, b.z, a.y, b.z);
    lemma_exchange(a.z, b.x, a.z, b.x);
    lemma_exchange(a.z, b.y, a.z, b.y);
    lemma_exchange(a.z, b.z, a.z, b.z);
    assert((a.y * b.z) * (a.z * b.y) == (a.y * b.y) * (a.z * b.z));
    assert((a.z * b.x) * (a.x * b.z) == (a.x * b.x) * (a.z * b.z)) by (nonlinear_arith);
    assert((a.x * b.y) * (a.y * b.x) == (a.x * b.x) * (a.y * b.y));
    assert(c.x * c.x >= 0 && c.y * c.y >= 0 && c.z * c.z >= 0) by (nonlinear_arith);
}

/// The frame of a normal that is unit, or was normalised, is orthonormal
/// but for what the rounding took: the tangent and the bitangent have the
/// length one as normalised vectors have it, and the dot products of any
/// two of the three vectors are at most three millionths in magnitude.
pub proof fn lemma_frame_is_orthonormal(n: V3)
    requires
        within(n, ONE as int),
        ONE * ONE - 6 * ONE <= vdot(n, n),
    ensures
        within(frame_tangent(n), ONE as int),
        within(frame_bitangent(n), ONE as int),
        ONE * ONE - 6 * ONE <= vdot(frame_tangent(n), frame_tangent(n)) < (ONE + 1) * (ONE + 1),
        ONE * ONE - 6 * ONE <= vdot(frame_bitangent(n), frame_bitangent(n)) < (ONE + 1) * (ONE
            + 1),
        abs(vdot(frame_tangent(n), frame_bitangent(n))) <= 3 * ONE,
        abs(vdot(frame_tangent(n), n)) <= 3 * ONE,
        abs(vdot(frame_bitangent(n), n)) <= 3 * ONE,
{
    lemma_frame_is_orthogonal(n);
    let seed = seed_axis(n);
    let first = vcross(n, seed);
    let b = frame_bitangent(n);
    let t = frame_tangent(n);
    if abs(n.x) > AXIS_DOMINANCE {
        assert(first.z == n.x * ONE);
        assert(first.z * first.z > 0) by (nonlinear_arith)
            requires
                first.z == n.x * ONE,
                abs(n.x) > 900_000,
                ONE == 1_000_000,
        ;
        assert(first.x * first.x >= 0 && first.y * first.y >= 0) by (nonlinear_arith);
    } else {
        assert(first.x == 0 && first.y == n.z * ONE && first.z == -(n.y * ONE));
        assert(first.y * first.y + first.z * first.z > 0) by (nonlinear_arith)
            requires
                first.y == n.z * ONE,
                first.z == -(n.y * ONE),
                n.x * n.x + n.y * n.y + n.z * n.z >= ONE * ONE - 6 * ONE,
                abs(n.x) <= 900_000,
                ONE == 1_000_000,
        ;
    }
    lemma_normalized_is_unit(first);
    let second = vcross(b, n);
    lemma_cross_and_dot(b, n);
    let bb = vdot(b, b);
    let nn = vdot(n, n);
    let bn = vdot(b, n);
    assert(bb * nn - bn * bn > 0) by (nonlinear_arith)
        requires
            bb >= ONE * ONE - 6 * ONE,
            nn >= ONE * ONE - 6 * ONE,
            abs(bn) <= 3 * ONE,
            ONE == 1_000_000,
    ;
    lemma_normalized_is_unit(second);
    lemma_cross_is_orthogonal(b, n);
    lemma_normalized_stays_orthogonal(second, b);
}

/// A truncated quotient, times the divisor, has a square that is at most
/// that of the dividend, and less by at most twice the dividend's
/// magnitude times the divisor.
pub proof fn lemma_quotient_square(a: int, len: int)
    requires
        1 <= len,
    ensures
        (tdiv(a, len) * len) * (tdiv(a, len) * len) <= a * a,
        a * a - 2 * (abs(a) * len) <= (tdiv(a, len) * len) * (tdiv(a, len) * len),
        (tdiv(a, len) * len) * (tdiv(a, len) * len) == (tdiv(a, len) * tdiv(a, len)) * (len
            * len),
{
    let q = tdiv(a, len);
    let r = trem(a, len);
    let p = q * len;
    lemma_trem(a, len);
    assert(p == a - r);
    assert(0 <= a * r && a * r <= abs(a) * len && r * r <= a * r) by (nonlinear_arith)
        requires
            abs(r) < len,
            abs(r) <= abs(a),
            0 <= a ==> 0 <= r,
            a <= 0 ==> r <= 0,
    ;
    assert(p * p == a * a - 2 * (a * r) + r * r) by (nonlinear_arith)
        requires
            p == a - r,
    ;
    let bound = abs(a) * len;
    assert(p * p <= a * a && a * a - 2 * bound <= p * p) by (nonlinear_arith)
        requires
            p * p == a * a - 2 * (a * r) + r * r,
            0 <= a * r,
            a * r <= bound,
            r * r <= a * r,
    ;
    assert((q * len) * (q * len) == (q * q) * (len * len)) by (nonlinear_arith);
}

/// The point of the hemisphere that two draws select has the length one
/// but for what the rounding took: the square of its length is at most
/// twelve millionths below one, and not above it.
pub proof fn lemma_hemisphere_point_is_unit(r1: int, r2: int)
    requires
        0 <= r1 < ONE,
        0 <= r2 < ONE,
    ensures
        ONE * ONE - 12 * ONE <= vdot(hemisphere_point(r1, r2), hemisphere_point(r1, r2)) <= ONE
            * ONE,
{
    let c = cos_turn(r1);
    let s = sin_turn(r1);
    let st = fixed_sqrt(r2);
    let z = fixed_sqrt(ONE - r2);
    let local = hemisphere_point(r1, r2);
    let (x, y) = (local.x, local.y);
    lemma_turn_range(r1);
    lemma_hemisphere_point_range(r1, r2);
    assert(0 <= r2 * ONE && 0 <= (ONE - r2) * ONE) by (nonlinear_arith)
        requires
            0 <= r2 < ONE,
            ONE == 1_000_000,
    ;
    crate::fixed::lemma_floor_sqrt_exists(r2 * ONE);
    crate::fixed::lemma_floor_sqrt_exists((ONE - r2) * ONE);
    assert(0 * 0 <= r2 * ONE && r2 * ONE <= ONE * ONE) by (nonlinear_arith)
        requires
            0 <= r2 < ONE,
            ONE == 1_000_000,
    ;
    lemma_floor_sqrt_between(r2 * ONE, 0, ONE as int);
    // The two roots lose at most twice themselves and one.
    assert(r2 * ONE - 2 * ONE <= st * st <= r2 * ONE) by (nonlinear_arith)
        requires
            st * st <= r2 * ONE,
            r2 * ONE < (st + 1) * (st + 1),
            0 <= st <= ONE,
    ;
    assert((ONE - r2) * ONE - 2 * ONE <= z * z <= (ONE - r2) * ONE) by (nonlinear_arith)
        requires
            z * z <= (ONE - r2) * ONE,
            (ONE - r2) * ONE < (z + 1) * (z + 1),
            0 <= z <= ONE,
    ;
    // The two products lose at most two millionths each.
    lemma_quotient_square(c * st, ONE as int);
    lemma_quotient_square(s * st, ONE as int);
    lemma_mul_bound(c, st, ONE as int, ONE as int);
    lemma_mul_bound(s, st, ONE as int, ONE as int);
    let (pc, ps) = ((c * st) * (c * st), (s * st) * (s * st));
    let cs = c * c + s * s;
    assert(pc + ps == cs * (st * st)) by (nonlinear_arith)
        requires
            pc == (c * st) * (c * st),
            ps == (s * st) * (s * st),
            cs == c * c + s * s,
    ;
    let (ex, ey) = ((x * x) * (ONE * ONE), (y * y) * (ONE * ONE));
    let sq = st * st;
    assert((ONE * ONE) * sq - 8 * (ONE * ONE * ONE) <= ex + ey <= (ONE * ONE) * sq)
        by (nonlinear_arith)
        requires
            pc - 2 * (abs(c * st) * ONE) <= ex <= pc,
            ps - 2 * (abs(s * st) * ONE) <= ey <= ps,
            abs(c * st) <= ONE * ONE,
            abs(s * st) <= ONE * ONE,
            pc + ps == cs * sq,
            ONE * ONE - 4 * ONE <= cs <= ONE * ONE,
            0 <= sq <= ONE * ONE,
            ONE == 1_000_000,
    ;
    let xy = x * x + y * y;
    assert(sq - 8 * ONE <= xy <= sq) by (nonlinear_arith)
        requires
            (ONE * ONE) * sq - 8 * (ONE * ONE * ONE) <= ex + ey <= (ONE * ONE) * sq,
            ex == (x * x) * (ONE * ONE),
            ey == (y * y) * (ONE * ONE),
            xy == x * x + y * y,
            ONE == 1_000_000,
    ;
    assert(r2 * ONE + (ONE - r2) * ONE == ONE * ONE) by (nonlinear_arith);
}

/// The square of one component of a vector given by coordinates in a
/// frame, by the squares and products of the coordinates.
pub proof fn lemma_term_square(t: int, b: int, n: int, x: int, y: int, z: int)
    ensures
        (t * x + b * y + n * z) * (t * x + b * y + n * z) == (x * x) * (t * t) + (y * y) * (b * b)
            + (z * z) * (n * n) + 2 * ((x * y) * (t * b)) + 2 * ((x * z) * (t * n)) + 2 * ((y * z)
            * (b * n)),
{
    lemma_square_of_sum(t * x, b * y, n * z);
    assert((t * x) * (t * x) == (x * x) * (t * t) && (b * y) * (b * y) == (y * y) * (b * b) && (n
        * z) * (n * z) == (z * z) * (n * n)) by (nonlinear_arith);
    assert((t * x) * (b * y) == (x * y) * (t * b) && (t * x) * (n * z) == (x * z) * (t * n) && (b
        * y) * (n * z) == (y * z) * (b * n)) by (nonlinear_arith);
}

/// Twice the product of two scalars is at most the sum of their squares
/// in magnitude.
pub proof fn lemma_twice_product(x: int, y: int)
    ensures
        2 * abs(x * y) <= x * x + y * y,
        0 <= x * x,
        0 <= y * y,
{
    assert(2 * abs(x * y) <= x * x + y * y && 0 <= x * x && 0 <= y * y) by (nonlinear_arith);
}

/// The direction that two draws select above a surface has the length one
/// but for what the rounding took: the square of its length is at most
/// thirty-one millionths below one and at most nine above it. The normal
/// is a unit vector, or one that was normalised.
pub proof fn lemma_cosine_sample_is_unit(n: V3, r1: int, r2: int)
    requires
        within(n, ONE as int),
        ONE * ONE - 6 * ONE <= vdot(n, n) < (ONE + 1) * (ONE + 1),
        0 <= r1 < ONE,
        0 <= r2 < ONE,
    ensures
        ONE * ONE - 31 * ONE <= vdot(cosine_sample(n, r1, r2), cosine_sample(n, r1, r2)) <= ONE
            * ONE + 9 * ONE,
{
    let t = frame_tangent(n);
    let b = frame_bitangent(n);
    let local = hemisphere_point(r1, r2);
    let raw = frame_combination(t, b, n, local);
    let sample = cosine_sample(n, r1, r2);
    let (x, y, z) = (local.x, local.y, local.z);
    lemma_frame_is_orthonormal(n);
    lemma_hemisphere_point_is_unit(r1, r2);
    lemma_term_square(t.x, b.x, n.x, x, y, z);
    lemma_term_square(t.y, b.y, n.y, x, y, z);
    lemma_term_square(t.z, b.z, n.z, x, y, z);
    let (tt, bb, nn) = (vdot(t, t), vdot(b, b), vdot(n, n));
    let (tb, tn, bn) = (vdot(t, b), vdot(t, n), vdot(b, n));
    let (sx, sy, sz) = (x * x, y * y, z * z);
    let (xy, xz, yz) = (x * y, x * z, y * z);
    lemma_distribute(sx, t.x * t.x, t.y * t.y, t.z * t.z);
    lemma_distribute(sy, b.x * b.x, b.y * b.y, b.z * b.z);
    lemma_distribute(sz, n.x * n.x, n.y * n.y, n.z * n.z);
    lemma_distribute(xy, t.x * b.x, t.y * b.y, t.z * b.z);
    lemma_distribute(xz, t.x * n.x, t.y * n.y, t.z * n.z);
    lemma_distribute(yz, b.x * n.x, b.y * n.y, b.z * n.z);
    let rr = vdot(raw, raw);
    assert(rr == sx * tt + sy * bb + sz * nn + 2 * (xy * tb) + 2 * (xz * tn) + 2 * (yz * bn));
    // The mixed terms are small, the others nearly the squares.
    lemma_twice_product(x, y);
    lemma_twice_product(x, z);
    lemma_twice_product(y, z);
    lemma_mul_bound(xy, tb, abs(xy), 3 * ONE);
    lemma_mul_bound(xz, tn, abs(xz), 3 * ONE);
    lemma_mul_bound(yz, bn, abs(yz), 3 * ONE);
    let w = sx + sy + sz;
    let mixed = 2 * (xy * tb) + 2 * (xz * tn) + 2 * (yz * bn);
    assert(abs(mixed) <= 6 * (ONE * ONE * ONE)) by (nonlinear_arith)
        requires
            mixed == 2 * (xy * tb) + 2 * (xz * tn) + 2 * (yz * bn),
            abs(xy * tb) <= abs(xy) * (3 * ONE),
            abs(xz * tn) <= abs(xz) * (3 * ONE),
            abs(yz * bn) <= abs(yz) * (3 * ONE),
            2 * abs(xy) <= sx + sy,
            2 * abs(xz) <= sx + sz,
            2 * abs(yz) <= sy + sz,
            0 <= sx + sy + sz <= ONE * ONE,
            ONE == 1_000_000,
    ;
    let main = sx * tt + sy * bb + sz * nn;
    assert(w * (ONE * ONE - 6 * ONE) <= main <= w * ((ONE + 1) * (ONE + 1))) by (nonlinear_arith)
        requires
            main == sx * tt + sy * bb + sz * nn,
            w == sx + sy + sz,
            0 <= sx,
            0 <= sy,
            0 <= sz,
            ONE * ONE - 6 * ONE <= tt < (ONE + 1) * (ONE + 1),
            ONE * ONE - 6 * ONE <= bb < (ONE + 1) * (ONE + 1),
            ONE * ONE - 6 * ONE <= nn < (ONE + 1) * (ONE + 1),
    ;
    let fourth = ONE * ONE * ONE * ONE;
    let third = ONE * ONE * ONE;
    assert(fourth - 24 * third <= rr <= fourth + 9 * third) by (nonlinear_arith)
        requires
            rr == main + mixed,
            abs(mixed) <= 6 * (ONE * ONE * ONE),
            w * (ONE * ONE - 6 * ONE) <= main <= w * ((ONE + 1) * (ONE + 1)),
            ONE * ONE - 12 * ONE <= w <= ONE * ONE,
            fourth == ONE * ONE * ONE * ONE,
            third == ONE * ONE * ONE,
            ONE == 1_000_000,
    ;
    // Rounded, each component loses at most a millionth.
    let top = ONE * ONE + 5 * ONE;
    assert(abs(raw.x) <= top && abs(raw.y) <= top && abs(raw.z) <= top) by (nonlinear_arith)
        requires
            rr == raw.x * raw.x + raw.y * raw.y + raw.z * raw.z,
            rr <= fourth + 9 * third,
            fourth == ONE * ONE * ONE * ONE,
            third == ONE * ONE * ONE,
            top == ONE * ONE + 5 * ONE,
            ONE == 1_000_000,
    ;
    lemma_quotient_square(raw.x, ONE as int);
    lemma_quotient_square(raw.y, ONE as int);
    lemma_quotient_square(raw.z, ONE as int);
    let ss = vdot(sample, sample);
    let sq = ONE * ONE;
    let (px, py, pz) = (
        (sample.x * sample.x) * sq,
        (sample.y * sample.y) * sq,
        (sample.z * sample.z) * sq,
    );
    assert(ss * sq == px + py + pz) by (nonlinear_arith)
        requires
            ss == sample.x * sample.x + sample.y * sample.y + sample.z * sample.z,
            px == (sample.x * sample.x) * sq,
            py == (sample.y * sample.y) * sq,
            pz == (sample.z * sample.z) * sq,
    ;
    assert(ONE * ONE - 31 * ONE <= ss <= ONE * ONE + 9 * ONE) by (nonlinear_arith)
        requires
            ss * sq == px + py + pz,
            raw.x * raw.x - 2 * (abs(raw.x) * ONE) <= px <= raw.x * raw.x,
            raw.y * raw.y - 2 * (abs(raw.y) * ONE) <= py <= raw.y * raw.y,
            raw.z * raw.z - 2 * (abs(raw.z) * ONE) <= pz <= raw.z * raw.z,
            rr == raw.x * raw.x + raw.y * raw.y + raw.z * raw.z,
            abs(raw.x) <= top,
            abs(raw.y) <= top,
            abs(raw.z) <= top,
            top == ONE * ONE + 5 * ONE,
            fourth - 24 * third <= rr <= fourth + 9 * third,
            fourth == ONE * ONE * ONE * ONE,
            third == ONE * ONE * ONE,
            sq == ONE * ONE,
            ONE == 1_000_000,
    ;
}

/// In a scene in which nothing emits light no light arrives along any
/// ray, whatever the surfaces are like and whatever is drawn.
pub proof fn lemma_no_light_is_dark(
    scene: Seq<SceneObject>,
    origin: V3,
    direction: V3,
    bounces: int,
    draws: Seq<(i64, i64)>,
    first: int,
)
    requires
        forall|i: int| 0 <= i < scene.len() ==> !(#[trigger] scene[i]).emits(),
    ensures
        radiance_along(scene, origin, direction, bounces, draws, first) == vzero(),
    decreases bounces,
{
    if bounces > 0 {
        lemma_nearest_is_closest(scene, origin, direction, scene.len() as int);
        match nearest(scene, origin, direction) {
            None => {},
            Some(hit) => {
                let i = choose|i: int|
                    0 <= i < scene.len() && #[trigger] scene[i].hit(origin, direction) == Some(
                        hit.t,
                    ) && hit == surface(scene[i], origin, direction, hit.t);
                assert(!scene[i].emits());
                assert(!hit.emissive);
                let sample = cosine_sample(
                    hit.normal,
                    draws[first].0 as int,
                    draws[first].1 as int,
                );
                lemma_no_light_is_dark(
                    scene,
                    bounce_origin(hit),
                    bounce(direction, hit.normal, sample, hit.roughness),
                    bounces - 1,
                    draws,
                    first + 1,
                );
                let albedo = color_radiance(hit.color);
                assert(albedo.x * 0 == 0 && albedo.y * 0 == 0 && albedo.z * 0 == 0);
                assert(tdiv(0, ONE as int) == 0);
                assert(vmul(albedo, vzero()) == vzero());
                assert(shade(hit, vzero()) == vzero());
            },
        }
    }
}

/// One component of a unit vector that is mirrored twice about the same
/// unit normal comes back within twelve millionths.
pub proof fn lemma_back_component(
    di: int,
    ni: int,
    dn: int,
    rn: int,
    first: int,
    len: int,
    second: int,
)
    requires
        abs(di) <= ONE,
        abs(ni) <= ONE,
        abs(rn + dn) <= 3 * ONE,
        first == tdiv((ONE * ONE * di - 2 * dn * ni) * ONE, ONE * ONE * ONE),
        ONE * ONE * ONE - 4 * (ONE * ONE) <= len <= ONE * ONE * ONE,
        second == tdiv((ONE * ONE * first - 2 * rn * ni) * ONE, len),
    ensures
        abs(second - di) <= 12,
{
    let s = ONE * ONE;
    let cube = ONE * ONE * ONE;
    assert(s == 1_000_000_000_000 && cube == 1_000_000_000_000_000_000) by (nonlinear_arith)
        requires
            s == ONE * ONE,
            cube == ONE * ONE * ONE,
            ONE == 1_000_000,
    ;
    let m1 = s * di - 2 * dn * ni;
    let rem1 = trem(m1 * ONE, cube);
    lemma_trem(m1 * ONE, cube);
    let gap = s * first - m1;
    assert(abs(gap) < s) by (nonlinear_arith)
        requires
            rem1 == m1 * ONE - first * cube,
            abs(rem1) < cube,
            gap == s * first - m1,
            s == 1_000_000_000_000,
            cube == 1_000_000_000_000_000_000,
            ONE == 1_000_000,
    ;
    let m2 = s * first - 2 * rn * ni;
    lemma_mul_bound(rn + dn, ni, 3 * ONE, ONE as int);
    let turn = (rn + dn) * ni;
    let e = m2 - s * di;
    assert(e == gap - 2 * turn) by (nonlinear_arith)
        requires
            e == m2 - s * di,
            m2 == s * first - 2 * rn * ni,
            gap == s * first - m1,
            m1 == s * di - 2 * dn * ni,
            turn == (rn + dn) * ni,
    ;
    let rem2 = trem(m2 * ONE, len);
    lemma_trem(m2 * ONE, len);
    let off = second - di;
    let slack = di * (cube - len);
    lemma_mul_bound(di, cube - len, ONE as int, 4 * s);
    assert(off * len == slack + e * ONE - rem2) by (nonlinear_arith)
        requires
            off == second - di,
            rem2 == m2 * ONE - second * len,
            e == m2 - s * di,
            slack == di * (cube - len),
            s == 1_000_000_000_000,
            cube == 1_000_000_000_000_000_000,
            ONE == 1_000_000,
    ;
    assert(abs(off) <= 12) by (nonlinear_arith)
        requires
            off * len == slack + e * ONE - rem2,
            abs(slack) <= ONE * (4 * s),
            abs(e) <= s + 2 * ((3 * ONE) * ONE),
            abs(rem2) < len,
            cube - 4 * s <= len <= cube,
            s == 1_000_000_000_000,
            cube == 1_000_000_000_000_000_000,
            ONE == 1_000_000,
    ;
}

/// A unit vector that a perfect mirror reflects twice about the same unit
/// normal comes back: no component differs by more than twelve
/// millionths.
pub proof fn lemma_reflection_twice(d: V3, n: V3)
    requires
        vdot(d, d) == ONE * ONE,
        vdot(n, n) == ONE * ONE,
    ensures
        within(
            V3 {
                x: normalized(mirror(normalized(mirror(d, n)), n)).x - d.x,
                y: normalized(mirror(normalized(mirror(d, n)), n)).y - d.y,
                z: normalized(mirror(normalized(mirror(d, n)), n)).z - d.z,
            },
            12,
        ),
{
    let s = ONE * ONE;
    let cube = ONE * ONE * ONE;
    let m1 = mirror(d, n);
    let r1 = normalized(m1);
    let m2 = mirror(r1, n);
    let r2 = normalized(m2);
    let dn = vdot(d, n);
    let rn = vdot(r1, n);
    lemma_mirror_of_units(d, n);
    lemma_reflection_of_units(d, n);
    assert(cube * cube >= ONE * ONE && s == 1_000_000_000_000 && cube
        == 1_000_000_000_000_000_000) by (nonlinear_arith)
        requires
            cube == ONE * ONE * ONE,
            s == ONE * ONE,
            ONE == 1_000_000,
    ;
    assert(refined(m1) == m1);
    lemma_component_le_length(d);
    lemma_component_le_length(n);
    lemma_floor_sqrt_unique(ONE as int, ONE * ONE);
    // The second mirror image is as long as the first reflection.
    lemma_mirror_products(r1, n);
    let rr = vdot(r1, r1);
    let mm = vdot(m2, m2);
    assert(mm == s * s * rr) by (nonlinear_arith)
        requires
            mm == s * (s * rr - (2 * rn) * rn) - (2 * rn) * (s * rn - (2 * rn) * s),
    ;
    let low = cube - 4 * s;
    assert(low * low <= mm <= cube * cube && 0 <= low && ONE * ONE <= mm) by (nonlinear_arith)
        requires
            mm == s * s * rr,
            s - 6 * ONE <= rr <= s,
            low == cube - 4 * s,
            s == 1_000_000_000_000,
            cube == 1_000_000_000_000_000_000,
            ONE == 1_000_000,
    ;
    lemma_floor_sqrt_between(mm, low, cube);
    assert(refined(m2) == m2);
    let len = vlength(m2);
    lemma_mirror_form(d.x, n.x, dn);
    lemma_mirror_form(d.y, n.y, dn);
    lemma_mirror_form(d.z, n.z, dn);
    lemma_mirror_form(r1.x, n.x, rn);
    lemma_mirror_form(r1.y, n.y, rn);
    lemma_mirror_form(r1.z, n.z, rn);
    lemma_back_component(d.x, n.x, dn, rn, r1.x, len, r2.x);
    lemma_back_component(d.y, n.y, dn, rn, r1.y, len, r2.y);
    lemma_back_component(d.z, n.z, dn, rn, r1.z, len, r2.z);
}

/// One component of a mirror image, written with the square of one in
/// front.
pub proof fn lemma_mirror_form(di: int, ni: int, dn: int)
    ensures
        di * ONE * ONE - 2 * dn * ni == ONE * ONE * di - 2 * dn * ni,
{
    assert(di * ONE * ONE == ONE * ONE * di) by (nonlinear_arith);
}

/// Where the ray meets none of the first `n` shapes in front of its
/// origin, the search finds nothing among them.
pub proof fn lemma_nothing_met_is_none(
    scene: Seq<SceneObject>,
    origin: V3,
    direction: V3,
    n: int,
)
    requires
        0 <= n <= scene.len(),
        forall|j: int| 0 <= j < n ==> !met(#[trigger] scene[j].hit(origin, direction)),
    ensures
        nearest_among(scene, origin, direction, n) is None,
    decreases n,
{
    if n > 0 {
        lemma_nothing_met_is_none(scene, origin, direction, n - 1);
        assert(!met(scene[n - 1].hit(origin, direction)));
    }
}

/// No light arrives along a ray that meets no shape of the scene in front
/// of its origin, whatever the number of bounces and whatever is drawn.
pub proof fn lemma_nothing_met_is_dark(
    scene: Seq<SceneObject>,
    origin: V3,
    direction: V3,
    bounces: int,
    draws: Seq<(i64, i64)>,
    first: int,
)
    requires
        forall|j: int| 0 <= j < scene.len() ==> !met(#[trigger] scene[j].hit(origin, direction)),
    ensures
        radiance_along(scene, origin, direction, bounces, draws, first) == vzero(),
{
    lemma_nothing_met_is_none(scene, origin, direction, scene.len() as int);
}

} // verus!
