//! Fixed-point scalars: an `i64` that counts millionths.
use vstd::prelude::*;

verus! {

/// The fixed-point representation of the real number one.
pub const ONE: i64 = 1_000_000;

/// The absolute value of an integer.
pub open spec fn abs(a: int) -> int {
    if a < 0 {
        -a
    } else {
        a
    }
}

/// The quotient of `a` by `b`, rounded toward zero.
pub open spec fn tdiv(a: int, b: int) -> int {
    if (a < 0) == (b < 0) {
        abs(a) / abs(b)
    } else {
        -(abs(a) / abs(b))
    }
}

/// `r` is the integer square root of `n`, rounded down.
pub open spec fn is_floor_sqrt(r: int, n: int) -> bool {
    0 <= r && r * r <= n && n < (r + 1) * (r + 1)
}

/// The integer square root of `n`, rounded down.
pub open spec fn floor_sqrt(n: int) -> int {
    choose|r: int| is_floor_sqrt(r, n)
}

/// At most one integer is the rounded-down square root of `n`.
pub proof fn lemma_floor_sqrt_unique(r: int, n: int)
    requires
        is_floor_sqrt(r, n),
    ensures
        floor_sqrt(n) == r,
{
    let s = floor_sqrt(n);
    assert(is_floor_sqrt(s, n));
    if s < r {
        assert((s + 1) * (s + 1) <= r * r) by (nonlinear_arith)
            requires
                0 <= s + 1 <= r,
        ;
    }
    if r < s {
        assert((r + 1) * (r + 1) <= s * s) by (nonlinear_arith)
            requires
                0 <= r + 1 <= s,
        ;
    }
}

/// Every natural number has a rounded-down square root.
pub proof fn lemma_floor_sqrt_exists(n: int)
    requires
        0 <= n,
    ensures
        is_floor_sqrt(floor_sqrt(n), n),
    decreases n,
{
    if n == 0 {
        assert(is_floor_sqrt(0, 0));
    } else {
        lemma_floor_sqrt_exists(n - 1);
        let r = floor_sqrt(n - 1);
        if (r + 1) * (r + 1) <= n {
            assert((r + 1) * (r + 1) == n);
            assert(n < (r + 2) * (r + 2)) by (nonlinear_arith)
                requires
                    (r + 1) * (r + 1) == n,
                    0 <= r,
            ;
            assert(is_floor_sqrt(r + 1, n));
        } else {
            assert(is_floor_sqrt(r, n));
        }
    }
}

/// The quotient of `a` by `b`, rounded toward zero.
pub fn div_trunc(a: i128, b: i128) -> (q: i128)
    requires
        b != 0,
        i128::MIN < a,
        i128::MIN < b,
    ensures
        q == tdiv(a as int, b as int),
{
    proof {
        lemma_tdiv_bound(a as int, b as int);
    }
    let ua: u128 = if a < 0 {
        (-a) as u128
    } else {
        a as u128
    };
    let ub: u128 = if b < 0 {
        (-b) as u128
    } else {
        b as u128
    };
    let uq: u128 = ua / ub;
    if (a < 0) == (b < 0) {
        uq as i128
    } else {
        -(uq as i128)
    }
}

/// A truncated quotient is no larger in magnitude than its dividend, and
/// has the sign that the signs of dividend and divisor give it.
pub proof fn lemma_tdiv_bound(a: int, b: int)
    requires
        b != 0,
    ensures
        abs(tdiv(a, b)) <= abs(a),
        abs(tdiv(a, b)) * abs(b) <= abs(a),
        abs(a) < (abs(tdiv(a, b)) + 1) * abs(b),
        (a < 0) == (b < 0) ==> tdiv(a, b) >= 0,
        (a < 0) != (b < 0) ==> tdiv(a, b) <= 0,
{
    let x = abs(a);
    let y = abs(b);
    let q = x / y;
    assert(0 <= q && q * y <= x && x < (q + 1) * y && q <= x) by (nonlinear_arith)
        requires
            q == x / y,
            0 <= x,
            0 < y,
    ;
}

/// The quotient of `a` by a positive `b`, rounded down.
pub fn div_floor(a: i64, b: i64) -> (q: i64)
    requires
        0 < b,
    ensures
        q == (a as int) / (b as int),
{
    if a >= 0 {
        a / b
    } else {
        let m: u64 = (-(a as i128)) as u64;
        let d: u64 = b as u64;
        let k: u64 = (m - 1) / d;
        proof {
            assert((a as int) / (b as int) == -(k as int) - 1) by (nonlinear_arith)
                requires
                    k == (m - 1) / (d as int),
                    a == -(m as int),
                    d == b,
                    0 < b,
                    1 <= m,
            ;
            assert(k <= m - 1) by (nonlinear_arith)
                requires
                    k == (m - 1) / (d as int),
                    0 < d,
                    1 <= m,
            ;
        }
        (-(k as i128) - 1) as i64
    }
}

/// The integer square root of `n`, rounded down.
pub fn isqrt(n: u128) -> (r: u64)
    ensures
        r == floor_sqrt(n as int),
        is_floor_sqrt(r as int, n as int),
{
    let mut lo: u128 = 0;
    let mut hi: u128 = 0x1_0000_0000_0000_0000;
    assert(n < hi * hi) by (nonlinear_arith)
        requires
            hi == 0x1_0000_0000_0000_0000,
            n <= u128::MAX,
    ;
    while hi - lo > 1
        invariant
            lo < hi <= 0x1_0000_0000_0000_0000,
            lo * lo <= n,
            n < hi * hi,
        decreases hi - lo,
    {
        let mid: u128 = lo + (hi - lo) / 2;
        assert(mid * mid <= u128::MAX) by (nonlinear_arith)
            requires
                0 <= mid < 0x1_0000_0000_0000_0000,
        ;
        if mid * mid <= n {
            lo = mid;
        } else {
            hi = mid;
        }
    }
    proof {
        lemma_floor_sqrt_unique(lo as int, n as int);
    }
    lo as u64
}

/// What a truncated division by `b` leaves of `a`.
pub open spec fn trem(a: int, b: int) -> int {
    a - tdiv(a, b) * b
}

/// What a truncated division by a positive `b` leaves is smaller than `b`
/// in magnitude and has the sign of the dividend.
pub proof fn lemma_trem(a: int, b: int)
    requires
        0 < b,
    ensures
        abs(trem(a, b)) < b,
        abs(trem(a, b)) <= abs(a),
        0 <= a ==> 0 <= trem(a, b),
        a <= 0 ==> trem(a, b) <= 0,
{
    let x = abs(a);
    let q = x / b;
    assert(0 <= x - q * b < b && 0 <= q * b) by (nonlinear_arith)
        requires
            q == x / b,
            0 < b,
            0 <= x,
    ;
    if a < 0 {
        assert((-q) * b == -(q * b)) by (nonlinear_arith);
    }
}

/// A multiple of a positive `b`, divided by `b`, is the multiplier.
pub proof fn lemma_tdiv_multiple(k: int, b: int)
    requires
        0 < b,
    ensures
        tdiv(k * b, b) == k,
{
    let x = abs(k * b);
    assert(x == abs(k) * b && x / b == abs(k) && (k * b < 0) == (k < 0)) by (nonlinear_arith)
        requires
            x == abs(k * b),
            0 < b,
    ;
}

/// The rounded-down square root lies between any two numbers whose
/// squares enclose its argument.
pub proof fn lemma_floor_sqrt_between(n: int, low: int, high: int)
    requires
        0 <= low,
        low * low <= n,
        0 <= high,
        n <= high * high,
    ensures
        low <= floor_sqrt(n) <= high,
{
    assert(0 <= low * low) by (nonlinear_arith);
    lemma_floor_sqrt_exists(n);
    let r = floor_sqrt(n);
    assert(low <= r) by (nonlinear_arith)
        requires
            0 <= low,
            0 <= r,
            low * low <= n,
            n < (r + 1) * (r + 1),
    ;
    assert(r <= high) by (nonlinear_arith)
        requires
            0 <= high,
            0 <= r,
            r * r <= n,
            n <= high * high,
    ;
}

/// The rounded-down square root of a number that is at least the square
/// of `low` is at least `low`.
pub proof fn lemma_floor_sqrt_at_least(n: int, low: int)
    requires
        0 <= low,
        low * low <= n,
    ensures
        low <= floor_sqrt(n),
{
    assert(0 <= low * low) by (nonlinear_arith);
    lemma_floor_sqrt_exists(n);
    let r = floor_sqrt(n);
    assert(low <= r) by (nonlinear_arith)
        requires
            0 <= low,
            0 <= r,
            low * low <= n,
            n < (r + 1) * (r + 1),
    ;
}

} // verus!
