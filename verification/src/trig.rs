//! Sine and cosine of an angle given as a fraction of a full turn.
//!
//! The tangent of half the angle is taken from its power series, and the
//! point `((1 - t^2) / (1 + t^2), 2 t / (1 + t^2))` that it stands for lies
//! on the unit circle whatever `t` is, so that the squares of cosine and
//! sine add up to one but for the rounding of the two quotients.
use vstd::prelude::*;
use crate::fixed::{abs, div_trunc, tdiv, ONE};
use crate::theorems::lemma_unit_component;

verus! {

/// An eighth of a turn.
pub const EIGHTH_TURN: i64 = 125_000;

/// The scale at which the tangent is computed: a millionth of a
/// millionth.
pub const FINE: u128 = 1_000_000_000_000;

/// The circle number at the fine scale.
pub const FINE_PI: u128 = 3_141_592_653_590;

/// One step of the evaluation of the series: `c + q * acc`, at the fine
/// scale.
pub open spec fn series_step(q: int, acc: int, c: int) -> int {
    c + (q * acc) / (FINE as int)
}

/// The tangent of half the angle of `w` millionths of a turn, at the fine
/// scale, for an angle of at most an eighth of a turn: with `y` for half
/// the angle, `y + y^3/3 + 2y^5/15 + 17y^7/315 + 62y^9/2835 +
/// 1382y^11/155925 + 21844y^13/6081075`.
pub open spec fn half_tangent(w: int) -> int {
    let y = (FINE_PI * w) / (ONE as int);
    let q = (y * y) / (FINE as int);
    let a5 = series_step(q, 3_592_128_037, 8_863_235_530);
    let a4 = series_step(q, a5, 21_869_488_536);
    let a3 = series_step(q, a4, 53_968_253_968);
    let a2 = series_step(q, a3, 133_333_333_333);
    let a1 = series_step(q, a2, 333_333_333_333);
    let a0 = series_step(q, a1, FINE as int);
    (y * a0) / (FINE as int)
}

/// The cosine of the angle whose half has the tangent `t` at the fine
/// scale: `(1 - t^2) / (1 + t^2)`, rounded toward zero.
pub open spec fn cosine_from(t: int) -> int {
    tdiv((FINE * FINE - t * t) * ONE, FINE * FINE + t * t)
}

/// The sine of the angle whose half has the tangent `t` at the fine
/// scale: `2 t / (1 + t^2)`, rounded toward zero.
pub open spec fn sine_from(t: int) -> int {
    tdiv((2 * FINE * t) * ONE, FINE * FINE + t * t)
}

/// The angle within its eighth of the turn, counted from the nearer of
/// the two axes that bound the eighth.
pub open spec fn folded(u: int) -> int {
    if (u / (EIGHTH_TURN as int)) % 2 == 0 {
        u % (EIGHTH_TURN as int)
    } else {
        EIGHTH_TURN - u % (EIGHTH_TURN as int)
    }
}

/// Cosine and sine of `u` millionths of a turn, for `u` from zero up to a
/// million: those of the folded angle, exchanged and with the signs that
/// the eighth of the turn gives them.
pub open spec fn circle_point(u: int) -> (int, int) {
    let c = cosine_from(half_tangent(folded(u)));
    let s = sine_from(half_tangent(folded(u)));
    let eighth = u / (EIGHTH_TURN as int);
    if eighth == 0 {
        (c, s)
    } else if eighth == 1 {
        (s, c)
    } else if eighth == 2 {
        (-s, c)
    } else if eighth == 3 {
        (-c, s)
    } else if eighth == 4 {
        (-c, -s)
    } else if eighth == 5 {
        (-s, -c)
    } else if eighth == 6 {
        (s, -c)
    } else {
        (c, -s)
    }
}

/// The cosine of `u` millionths of a turn.
pub open spec fn cos_turn(u: int) -> int {
    circle_point(u).0
}

/// The sine of `u` millionths of a turn.
pub open spec fn sin_turn(u: int) -> int {
    circle_point(u).1
}

/// Cosine and sine from the tangent of the half angle are at most one in
/// magnitude, and their squares add up to one but for what the rounding
/// took: at most four millionths.
pub proof fn lemma_circle_is_unit(t: int)
    ensures
        abs(cosine_from(t)) <= ONE,
        abs(sine_from(t)) <= ONE,
        ONE * ONE - 4 * ONE <= cosine_from(t) * cosine_from(t) + sine_from(t) * sine_from(t)
            <= ONE * ONE,
{
    let a = FINE * FINE;
    let b = t * t;
    let den = a + b;
    let cnum = a - b;
    let snum = 2 * FINE * t;
    assert(b >= 0 && a == 1_000_000_000_000_000_000_000_000 && snum * snum == 4 * (a * b) && abs(
        snum,
    ) <= den) by (nonlinear_arith)
        requires
            a == FINE * FINE,
            b == t * t,
            den == a + b,
            snum == 2 * FINE * t,
            FINE == 1_000_000_000_000,
    ;
    assert(cnum * cnum + 4 * (a * b) == den * den) by (nonlinear_arith)
        requires
            cnum == a - b,
            den == a + b,
    ;
    lemma_unit_component(cnum, den);
    lemma_unit_component(snum, den);
    let c = cosine_from(t);
    let s = sine_from(t);
    let sq = den * den;
    assert(sq > 0) by (nonlinear_arith)
        requires
            sq == den * den,
            den >= 1,
    ;
    assert((cnum * ONE) * (cnum * ONE) + (snum * ONE) * (snum * ONE) == (ONE * ONE) * sq)
        by (nonlinear_arith)
        requires
            cnum * cnum + snum * snum == sq,
    ;
    let (pc, ps) = ((c * c) * sq, (s * s) * sq);
    let (qc, qs) = ((cnum * ONE) * (cnum * ONE), (snum * ONE) * (snum * ONE));
    assert((c * c + s * s) * sq == pc + ps) by (nonlinear_arith)
        requires
            pc == (c * c) * sq,
            ps == (s * s) * sq,
    ;
    let cs = c * c + s * s;
    assert(ONE * ONE - 4 * ONE <= cs <= ONE * ONE) by (nonlinear_arith)
        requires
            cs * sq == pc + ps,
            qc + qs == (ONE * ONE) * sq,
            qc - 2 * ONE * sq <= pc <= qc,
            qs - 2 * ONE * sq <= ps <= qs,
            sq > 0,
            ONE == 1_000_000,
    ;
    assert(abs(c) <= ONE && abs(s) <= ONE) by (nonlinear_arith)
        requires
            cs == c * c + s * s,
            cs <= ONE * ONE,
            ONE == 1_000_000,
    ;
}

/// The sine and the cosine of a fraction of a turn are at most one in
/// magnitude, and their squares add up to one but for what the rounding
/// took: at most four millionths.
pub proof fn lemma_turn_range(u: int)
    requires
        0 <= u < ONE,
    ensures
        abs(sin_turn(u)) <= ONE,
        abs(cos_turn(u)) <= ONE,
        ONE * ONE - 4 * ONE <= cos_turn(u) * cos_turn(u) + sin_turn(u) * sin_turn(u) <= ONE * ONE,
{
    let t = half_tangent(folded(u));
    lemma_circle_is_unit(t);
    let c = cosine_from(t);
    let s = sine_from(t);
    assert((-c) * (-c) == c * c && (-s) * (-s) == s * s) by (nonlinear_arith);
}

/// One step of the evaluation of the series.
fn series_step_of(q: u128, acc: u128, c: u128) -> (next: u128)
    requires
        q <= 200_000_000_000,
        acc <= 1_000_000_000_000,
        c <= 1_000_000_000_000,
    ensures
        next == series_step(q as int, acc as int, c as int),
        next <= c + q,
{
    assert(q * acc <= 200_000_000_000 * 1_000_000_000_000 && (q * acc) / 1_000_000_000_000 <= q)
        by (nonlinear_arith)
        requires
            0 <= q <= 200_000_000_000,
            0 <= acc <= 1_000_000_000_000,
    ;
    c + (q * acc) / FINE
}

/// The tangent of half the angle of `w` millionths of a turn, at the fine
/// scale.
fn half_tangent_of(w: u64) -> (t: u128)
    requires
        w <= EIGHTH_TURN,
    ensures
        t == half_tangent(w as int),
        t <= 1_000_000_000_000,
{
    let y: u128 = (FINE_PI * w as u128) / 1_000_000;
    assert(y <= 400_000_000_000);
    assert(y * y <= 400_000_000_000 * 400_000_000_000 && (y * y) / 1_000_000_000_000
        <= 160_000_000_000) by (nonlinear_arith)
        requires
            0 <= y <= 400_000_000_000,
    ;
    let q: u128 = (y * y) / FINE;
    let a5: u128 = series_step_of(q, 3_592_128_037, 8_863_235_530);
    let a4: u128 = series_step_of(q, a5, 21_869_488_536);
    let a3: u128 = series_step_of(q, a4, 53_968_253_968);
    let a2: u128 = series_step_of(q, a3, 133_333_333_333);
    let a1: u128 = series_step_of(q, a2, 333_333_333_333);
    let a0: u128 = series_step_of(q, a1, FINE);
    assert(y * a0 <= 400_000_000_000 * 2_000_000_000_000 && (y * a0) / 1_000_000_000_000
        <= 800_000_000_000) by (nonlinear_arith)
        requires
            0 <= y <= 400_000_000_000,
            0 <= a0 <= 2_000_000_000_000,
    ;
    (y * a0) / FINE
}

/// Cosine and sine of `u` millionths of a turn: accurate to about a
/// millionth, and on the unit circle but for the rounding of the two.
pub fn circle_point_of(u: i64) -> (point: (i64, i64))
    requires
        0 <= u < ONE,
    ensures
        point.0 == cos_turn(u as int),
        point.1 == sin_turn(u as int),
        abs(point.0 as int) <= ONE,
        abs(point.1 as int) <= ONE,
        ONE * ONE - 4 * ONE <= point.0 * point.0 + point.1 * point.1 <= ONE * ONE,
{
    let turn: u64 = u as u64;
    let eighth: u64 = turn / 125_000;
    let within_eighth: u64 = turn % 125_000;
    let fold: u64 = if eighth % 2 == 0 {
        within_eighth
    } else {
        125_000 - within_eighth
    };
    let t: u128 = half_tangent_of(fold);
    proof {
        lemma_turn_range(u as int);
        lemma_circle_is_unit(t as int);
        assert(t * t <= 1_000_000_000_000 * 1_000_000_000_000 && FINE * FINE
            == 1_000_000_000_000_000_000_000_000 && 2 * FINE * t <= 2 * (1_000_000_000_000
            * 1_000_000_000_000)) by (nonlinear_arith)
            requires
                0 <= t <= 1_000_000_000_000,
                FINE == 1_000_000_000_000,
        ;
    }
    let unit: i128 = 1_000_000_000_000_000_000_000_000;
    let square: i128 = (t * t) as i128;
    let den: i128 = unit + square;
    let c: i64 = div_trunc((unit - square) * ONE as i128, den) as i64;
    let s: i64 = div_trunc((2 * FINE * t) as i128 * ONE as i128, den) as i64;
    if eighth == 0 {
        (c, s)
    } else if eighth == 1 {
        (s, c)
    } else if eighth == 2 {
        (-s, c)
    } else if eighth == 3 {
        (-c, s)
    } else if eighth == 4 {
        (-c, -s)
    } else if eighth == 5 {
        (-s, -c)
    } else if eighth == 6 {
        (s, -c)
    } else {
        (c, -s)
    }
}

/// The sine of `u` millionths of a turn.
pub fn sine_of_turn(u: i64) -> (s: i64)
    requires
        0 <= u < ONE,
    ensures
        s == sin_turn(u as int),
        abs(s as int) <= ONE,
{
    circle_point_of(u).1
}

/// The cosine of `u` millionths of a turn.
pub fn cosine_of_turn(u: i64) -> (c: i64)
    requires
        0 <= u < ONE,
    ensures
        c == cos_turn(u as int),
        abs(c as int) <= ONE,
{
    circle_point_of(u).0
}

} // verus!
