//! Fixed-point planar geometry for the solvers.
//!
//! Coordinates are `i64` values in caller-chosen units (for example
//! thousandths of a world unit). Directions are never stored as unit
//! vectors; instead [`place_toward`] moves a point toward another by a
//! prescribed distance with one multiply-then-divide per axis, so the
//! rounding error of every step is provably bounded.

use vstd::prelude::*;
use vstd::arithmetic::div_mod::{
    lemma_fundamental_div_mod, lemma_mod_bound, lemma_div_pos_is_pos, lemma_div_is_ordered,
    lemma_div_multiples_vanish, lemma_div_nonincreasing,
};
use vstd::arithmetic::mul::{lemma_mul_nonnegative, lemma_mul_inequality, lemma_mul_is_commutative};

verus! {

/// Bound on root, target, tolerance and total-chain-length values.
pub const COORD_LIMIT: i64 = 5_000_000;

/// Bound on solved joint positions: a solve never places a point farther
/// than the total chain length from the root or the target, so positions
/// stay within twice [`COORD_LIMIT`].
pub const POS_LIMIT: i64 = 10_000_000;

/// A point (or displacement) of the plane, in fixed-point units.
#[derive(Clone, Copy, PartialEq, Eq, Structural, Debug)]
pub struct Point {
    pub x: i64,
    pub y: i64,
}

/// Absolute value over mathematical integers.
pub open spec fn iabs(v: int) -> int {
    if v >= 0 {
        v
    } else {
        -v
    }
}

/// Both coordinates of `p` lie within `lim` of the origin.
pub open spec fn in_bounds(p: Point, lim: int) -> bool {
    -lim <= p.x <= lim && -lim <= p.y <= lim
}

/// Squared Euclidean distance between two points, exactly.
pub open spec fn dist_sq_spec(a: Point, b: Point) -> int {
    (b.x - a.x) * (b.x - a.x) + (b.y - a.y) * (b.y - a.y)
}

proof fn lemma_square_nonneg(v: int)
    by (nonlinear_arith)
    ensures
        v * v >= 0,
        v != 0 ==> v * v >= 1,
{
}

/// The squared distance of any pair of points is non-negative.
pub proof fn lemma_dist_sq_nonneg(a: Point, b: Point)
    ensures
        dist_sq_spec(a, b) >= 0,
        a != b ==> dist_sq_spec(a, b) >= 1,
{
    lemma_square_nonneg(b.x - a.x);
    lemma_square_nonneg(b.y - a.y);
}

/// Squared distance, computed exactly in `i64`.
pub fn dist_sq(a: Point, b: Point) -> (r: i64)
    requires
        in_bounds(a, POS_LIMIT as int),
        in_bounds(b, POS_LIMIT as int),
    ensures
        r == dist_sq_spec(a, b),
{
    let dx: i64 = b.x - a.x;
    let dy: i64 = b.y - a.y;
    proof {
        assert(dx * dx <= 400_000_000_000_000 && dy * dy <= 400_000_000_000_000)
            by (nonlinear_arith)
            requires
                -20_000_000 <= dx <= 20_000_000,
                -20_000_000 <= dy <= 20_000_000,
        ;
        lemma_square_nonneg(dx as int);
        lemma_square_nonneg(dy as int);
    }
    dx * dx + dy * dy
}

/// Integer square root, rounded down: the greatest `r` with `r * r <= n`.
pub open spec fn sqrt_floor(n: int) -> int
    decreases n,
{
    if n <= 0 {
        0
    } else {
        let p: int = sqrt_floor(n - 1);
        if (p + 1) * (p + 1) <= n {
            p + 1
        } else {
            p
        }
    }
}

/// `sqrt_floor(n)` is the floor of the real square root of `n`.
pub proof fn lemma_sqrt_floor_bounds(n: int)
    requires
        n >= 0,
    ensures
        sqrt_floor(n) >= 0,
        sqrt_floor(n) * sqrt_floor(n) <= n,
        n < (sqrt_floor(n) + 1) * (sqrt_floor(n) + 1),
    decreases n,
{
    if n == 0 {
        assert(sqrt_floor(0) == 0);
    } else {
        lemma_sqrt_floor_bounds(n - 1);
        let p: int = sqrt_floor(n - 1);
        if (p + 1) * (p + 1) <= n {
            assert(sqrt_floor(n) == p + 1);
            assert(n < (p + 2) * (p + 2)) by (nonlinear_arith)
                requires
                    p >= 0,
                    n - 1 < (p + 1) * (p + 1),
            ;
        } else {
            assert(sqrt_floor(n) == p);
        }
    }
}

/// Any `r` in the square-root window of `n` equals `sqrt_floor(n)`.
pub proof fn lemma_sqrt_floor_unique(n: int, r: int)
    requires
        n >= 0,
        r >= 0,
        r * r <= n,
        n < (r + 1) * (r + 1),
    ensures
        r == sqrt_floor(n),
{
    lemma_sqrt_floor_bounds(n);
    let s: int = sqrt_floor(n);
    assert(r == s) by (nonlinear_arith)
        requires
            r >= 0,
            s >= 0,
            r * r <= n,
            n < (r + 1) * (r + 1),
            s * s <= n,
            n < (s + 1) * (s + 1),
    ;
}

/// `sqrt_floor` is monotonic.
pub proof fn lemma_sqrt_floor_monotonic(m: int, n: int)
    requires
        0 <= m <= n,
    ensures
        sqrt_floor(m) <= sqrt_floor(n),
{
    lemma_sqrt_floor_bounds(m);
    lemma_sqrt_floor_bounds(n);
    let a: int = sqrt_floor(m);
    let b: int = sqrt_floor(n);
    if a > b {
        assert(false) by (nonlinear_arith)
            requires
                a >= 0,
                b >= 0,
                a > b,
                a * a <= m,
                m <= n,
                n < (b + 1) * (b + 1),
        ;
    }
}

/// `sqrt_floor` of a perfect square recovers its root.
pub proof fn lemma_sqrt_floor_square(x: int)
    requires
        x >= 0,
    ensures
        sqrt_floor(x * x) == x,
{
    lemma_square_nonneg(x);
    assert(x * x < (x + 1) * (x + 1)) by (nonlinear_arith)
        requires
            x >= 0,
    ;
    lemma_sqrt_floor_unique(x * x, x);
}

/// Integer square root by bisection; exact floor of the real root.
pub fn isqrt(n: i64) -> (r: i64)
    requires
        0 <= n < 18_014_398_509_481_984,  // 2^54, so the search window squares without overflow
    ensures
        r == sqrt_floor(n as int),
        0 <= r <= 134_217_728,
{
    let nn: u64 = n as u64;
    let mut lo: u64 = 0;
    let mut hi: u64 = 134_217_728;  // 2^27
    proof {
        assert(134_217_728 * 134_217_728 == 18_014_398_509_481_984) by (nonlinear_arith);
    }
    while lo + 1 < hi
        invariant
            lo < hi <= 134_217_728,
            nn == n,
            lo * lo <= nn,
            nn < hi * hi,
        decreases hi - lo,
    {
        let mid: u64 = lo + (hi - lo) / 2;
        proof {
            assert(mid * mid < 18_446_744_073_709_551_615) by (nonlinear_arith)
                requires
                    mid <= 134_217_728,
            ;
        }
        if mid * mid <= nn {
            lo = mid;
        } else {
            hi = mid;
        }
    }
    proof {
        assert(nn < (lo + 1) * (lo + 1)) by (nonlinear_arith)
            requires
                lo + 1 >= hi,
                nn < hi * hi,
        ;
        lemma_sqrt_floor_unique(n as int, lo as int);
    }
    lo as i64
}

/// `v * m / d` over the integers, rounded toward zero.
pub open spec fn muldiv_spec(v: int, m: int, d: int) -> int {
    if v >= 0 {
        (v * m) / d
    } else {
        -(((-v) * m) / d)
    }
}

/// Sign, magnitude and remainder facts about [`muldiv_spec`].
pub proof fn lemma_muldiv_facts(v: int, m: int, d: int)
    requires
        d >= 1,
        m >= 0,
    ensures
        v >= 0 ==> muldiv_spec(v, m, d) >= 0 && 0 <= v * m - muldiv_spec(v, m, d) * d < d,
        v < 0 ==> muldiv_spec(v, m, d) <= 0 && -d < v * m - muldiv_spec(v, m, d) * d <= 0,
        iabs(v) <= d ==> iabs(muldiv_spec(v, m, d)) <= m,
{
    if v >= 0 {
        let x: int = v * m;
        lemma_mul_nonnegative(v, m);
        lemma_fundamental_div_mod(x, d);
        lemma_mod_bound(x, d);
        lemma_div_pos_is_pos(x, d);
        lemma_mul_is_commutative(d, x / d);
        if v <= d {
            lemma_mul_inequality(v, d, m);
            lemma_mul_is_commutative(d, m);
            lemma_div_is_ordered(x, d * m, d);
            lemma_div_multiples_vanish(m, d);
        }
    } else {
        let w: int = -v;
        let x: int = w * m;
        lemma_mul_nonnegative(w, m);
        lemma_fundamental_div_mod(x, d);
        lemma_mod_bound(x, d);
        lemma_div_pos_is_pos(x, d);
        lemma_mul_is_commutative(d, x / d);
        assert(v * m == -x) by (nonlinear_arith)
            requires
                x == (-v) * m,
        ;
        assert(-d < v * m - muldiv_spec(v, m, d) * d <= 0) by (nonlinear_arith)
            requires
                muldiv_spec(v, m, d) == -(x / d),
                x == d * (x / d) + x % d,
                0 <= x % d < d,
                v * m == -x,
        ;
        if w <= d {
            lemma_mul_inequality(w, d, m);
            lemma_mul_is_commutative(d, m);
            lemma_div_is_ordered(x, d * m, d);
            lemma_div_multiples_vanish(m, d);
        }
    }
}

/// `v * m / d` rounded toward zero, in machine integers.
pub fn mul_div(v: i64, m: i64, d: i64) -> (r: i64)
    requires
        1 <= d,
        0 <= m,
        iabs(v as int) * m <= 4_000_000_000_000_000_000,
    ensures
        r == muldiv_spec(v as int, m as int, d as int),
        iabs(v as int) <= d ==> iabs(r as int) <= m,
{
    proof {
        lemma_muldiv_facts(v as int, m as int, d as int);
    }
    if m == 0 {
        assert(muldiv_spec(v as int, 0, d as int) == 0) by {
            vstd::arithmetic::div_mod::lemma_div_of0(d as int);
            assert(v * 0 == 0) by (nonlinear_arith);
            assert((-v) * 0 == 0) by (nonlinear_arith);
        };
        return 0;
    }
    let a: u64 = if v < 0 {
        proof {
            assert(v > i64::MIN) by (nonlinear_arith)
                requires
                    v < 0,
                    m >= 1,
                    (-(v as int)) * m <= 4_000_000_000_000_000_000,
            ;
        }
        (-v) as u64
    } else {
        v as u64
    };
    proof {
        assert(a * m <= 4_000_000_000_000_000_000) by (nonlinear_arith)
            requires
                a == iabs(v as int),
                m >= 1,
                iabs(v as int) * m <= 4_000_000_000_000_000_000,
        ;
        lemma_mul_nonnegative(a as int, m as int);
        lemma_div_pos_is_pos(a as int * m as int, d as int);
        lemma_div_nonincreasing(a as int * m as int, d as int);
    }
    let q: u64 = (a * (m as u64)) / (d as u64);
    if v < 0 {
        -(q as i64)
    } else {
        q as i64
    }
}

/// X coordinate after moving `len` units from `b` straight toward `t`.
/// When the two points coincide there is no direction to follow; the
/// step then falls back to the rest convention and walks up the y axis.
pub open spec fn place_x(b: Point, t: Point, len: int) -> int {
    let dx: int = t.x - b.x;
    let dy: int = t.y - b.y;
    if dx == 0 && dy == 0 {
        b.x as int
    } else {
        b.x + muldiv_spec(dx, len, sqrt_floor(dx * dx + dy * dy))
    }
}

/// Y coordinate counterpart of [`place_x`].
pub open spec fn place_y(b: Point, t: Point, len: int) -> int {
    let dx: int = t.x - b.x;
    let dy: int = t.y - b.y;
    if dx == 0 && dy == 0 {
        b.y + len
    } else {
        b.y + muldiv_spec(dy, len, sqrt_floor(dx * dx + dy * dy))
    }
}

/// The placed point itself, as a value of [`Point`].
pub open spec fn place_pt(b: Point, t: Point, len: int) -> Point {
    Point { x: place_x(b, t, len) as i64, y: place_y(b, t, len) as i64 }
}

/// Squared distance is symmetric in its arguments.
pub proof fn lemma_dist_sq_symmetric(a: Point, b: Point)
    ensures
        dist_sq_spec(a, b) == dist_sq_spec(b, a),
{
    assert((b.x - a.x) * (b.x - a.x) == (a.x - b.x) * (a.x - b.x) && (b.y - a.y) * (b.y - a.y) == (
    a.y - b.y) * (a.y - b.y)) by (nonlinear_arith);
}

/// Squared length of the segment produced by one placement step.
pub open spec fn seg_sq(b: Point, t: Point, len: int) -> int {
    let qx: int = place_x(b, t, len);
    let qy: int = place_y(b, t, len);
    (qx - b.x) * (qx - b.x) + (qy - b.y) * (qy - b.y)
}

/// Per-axis bounds for a placement offset `q = muldiv_spec(v, len, d)`:
/// scaled by `d`, its square is within additive slack of the exact value.
proof fn lemma_axis_sq_bounds(v: int, len: int, d: int)
    requires
        d >= 1,
        len >= 0,
        -d <= v <= d,
    ensures
        muldiv_spec(v, len, d) * d * (muldiv_spec(v, len, d) * d) <= v * v * (len * len) + d * d,
        muldiv_spec(v, len, d) * d * (muldiv_spec(v, len, d) * d) >= v * v * (len * len) - 2 * (d
            * d) * len,
{
    lemma_muldiv_facts(v, len, d);
    let q: int = muldiv_spec(v, len, d);
    let r: int = v * len - q * d;
    assert(v * r >= 0 && -d < r < d) by (nonlinear_arith)
        requires
            r == v * len - q * d,
            v >= 0 ==> 0 <= r < d,
            v < 0 ==> -d < r <= 0,
    ;
    assert(q * d * (q * d) <= v * v * (len * len) + d * d) by (nonlinear_arith)
        requires
            r == v * len - q * d,
            -d < r < d,
            v * r >= 0,
            len >= 0,
            d >= 1,
    ;
    assert(q * d * (q * d) >= v * v * (len * len) - 2 * (d * d) * len) by (nonlinear_arith)
        requires
            r == v * len - q * d,
            -d < r < d,
            -d <= v <= d,
            len >= 0,
            d >= 1,
    ;
}

/// Length invariant of one placement step: the placed segment's squared
/// length is never much below `len * len`, and — whenever the step had at
/// least `len` of distance to work with — never much above it either.
/// A step whose source and guide point coincide is exact.
pub proof fn lemma_place_length(b: Point, t: Point, len: int)
    requires
        len >= 0,
    ensures
        seg_sq(b, t, len) >= len * len - 4 * len,
        dist_sq_spec(b, t) >= len * len ==> seg_sq(b, t, len) <= (len + 2) * (len + 2),
        dist_sq_spec(b, t) == 0 ==> seg_sq(b, t, len) == len * len,
{
    let dx: int = t.x - b.x;
    let dy: int = t.y - b.y;
    let n: int = dx * dx + dy * dy;
    lemma_square_nonneg(dx);
    lemma_square_nonneg(dy);
    if dx == 0 && dy == 0 {
        assert(seg_sq(b, t, len) == len * len);
        assert(len * len >= len * len - 4 * len);
        assert(len * len <= (len + 2) * (len + 2)) by (nonlinear_arith)
            requires
                len >= 0,
        ;
    } else {
        assert(n >= 1);
        lemma_sqrt_floor_bounds(n);
        let d: int = sqrt_floor(n);
        assert(d >= 1);
        lemma_sqrt_floor_square(iabs(dx));
        lemma_sqrt_floor_square(iabs(dy));
        assert(iabs(dx) * iabs(dx) == dx * dx && iabs(dy) * iabs(dy) == dy * dy)
            by (nonlinear_arith);
        lemma_sqrt_floor_monotonic(dx * dx, n);
        lemma_sqrt_floor_monotonic(dy * dy, n);
        assert(iabs(dx) <= d && iabs(dy) <= d);
        let qx: int = muldiv_spec(dx, len, d);
        let qy: int = muldiv_spec(dy, len, d);
        lemma_axis_sq_bounds(dx, len, d);
        lemma_axis_sq_bounds(dy, len, d);
        let s: int = seg_sq(b, t, len);
        assert(s == qx * qx + qy * qy);
        assert(s * (d * d) == qx * d * (qx * d) + qy * d * (qy * d)) by (nonlinear_arith)
            requires
                s == qx * qx + qy * qy,
        ;
        // Lower bound: s * d^2 >= n * len^2 - 4 d^2 len >= d^2 (len^2 - 4 len).
        assert(s * (d * d) >= (d * d) * (len * len - 4 * len)) by (nonlinear_arith)
            requires
                s * (d * d) == qx * d * (qx * d) + qy * d * (qy * d),
                qx * d * (qx * d) >= dx * dx * (len * len) - 2 * (d * d) * len,
                qy * d * (qy * d) >= dy * dy * (len * len) - 2 * (d * d) * len,
                n == dx * dx + dy * dy,
                n >= d * d,
                len >= 0,
        ;
        assert(s >= len * len - 4 * len) by (nonlinear_arith)
            requires
                s * (d * d) >= (d * d) * (len * len - 4 * len),
                d >= 1,
        ;
        // Upper bound, under the distance premise.
        if n >= len * len {
            lemma_sqrt_floor_monotonic(len * len, n);
            lemma_sqrt_floor_square(len);
            assert(len <= d);
            assert(n <= d * d + 2 * d) by (nonlinear_arith)
                requires
                    n < (d + 1) * (d + 1),
            ;
            assert(s * (d * d) <= n * (len * len) + 2 * (d * d)) by (nonlinear_arith)
                requires
                    s * (d * d) == qx * d * (qx * d) + qy * d * (qy * d),
                    qx * d * (qx * d) <= dx * dx * (len * len) + d * d,
                    qy * d * (qy * d) <= dy * dy * (len * len) + d * d,
                    n == dx * dx + dy * dy,
            ;
            assert(n * (len * len) + 2 * (d * d) <= (d * d) * ((len + 2) * (len + 2)))
                by (nonlinear_arith)
                requires
                    n <= d * d + 2 * d,
                    0 <= len <= d,
                    d >= 1,
            ;
            assert(s <= (len + 2) * (len + 2)) by (nonlinear_arith)
                requires
                    s * (d * d) <= (d * d) * ((len + 2) * (len + 2)),
                    d >= 1,
            ;
        }
    }
}

/// Move `len` units from `b` toward `t`, rounding each axis toward zero.
/// If `b` and `t` coincide the step walks up the y axis instead, so a
/// degenerate pair never derails a pass (and never divides by zero).
pub fn place_toward(b: Point, t: Point, len: i64) -> (q: Point)
    requires
        in_bounds(b, POS_LIMIT as int),
        in_bounds(t, POS_LIMIT as int),
        0 <= len <= COORD_LIMIT,
    ensures
        q == place_pt(b, t, len as int),
        q.x == place_x(b, t, len as int),
        q.y == place_y(b, t, len as int),
        iabs(q.x - b.x) <= len,
        iabs(q.y - b.y) <= len,
        dist_sq_spec(b, q) == seg_sq(b, t, len as int),
        dist_sq_spec(b, q) >= len * len - 4 * len,
        dist_sq_spec(b, t) >= len * len ==> dist_sq_spec(b, q) <= (len + 2) * (len + 2),
        dist_sq_spec(b, t) == 0 ==> dist_sq_spec(b, q) == len * len,
{
    proof {
        lemma_place_length(b, t, len as int);
    }
    let dx: i64 = t.x - b.x;
    let dy: i64 = t.y - b.y;
    if dx == 0 && dy == 0 {
        Point { x: b.x, y: b.y + len }
    } else {
        let nsq: i64 = dist_sq(b, t);
        proof {
            lemma_dist_sq_nonneg(b, t);
            assert(nsq < 18_014_398_509_481_984) by (nonlinear_arith)
                requires
                    nsq == dx * dx + dy * dy,
                    -20_000_000 <= dx <= 20_000_000,
                    -20_000_000 <= dy <= 20_000_000,
            ;
        }
        proof {
            lemma_square_nonneg(dx as int);
            lemma_square_nonneg(dy as int);
            assert(nsq >= 1);
        }
        let d: i64 = isqrt(nsq);
        proof {
            lemma_sqrt_floor_bounds(nsq as int);
            assert(d >= 1) by (nonlinear_arith)
                requires
                    nsq >= 1,
                    d >= 0,
                    nsq < (d + 1) * (d + 1),
            ;
            lemma_sqrt_floor_square(iabs(dx as int));
            lemma_sqrt_floor_square(iabs(dy as int));
            assert(iabs(dx as int) * iabs(dx as int) == dx * dx && iabs(dy as int) * iabs(
                dy as int,
            ) == dy * dy) by (nonlinear_arith);
            lemma_sqrt_floor_monotonic(dx * dx, nsq as int);
            lemma_sqrt_floor_monotonic(dy * dy, nsq as int);
            assert(iabs(dx as int) <= d && iabs(dy as int) <= d);
            assert(iabs(dx as int) * len <= 4_000_000_000_000_000_000 && iabs(dy as int) * len
                <= 4_000_000_000_000_000_000) by (nonlinear_arith)
                requires
                    0 <= iabs(dx as int) <= 40_000_000,
                    0 <= iabs(dy as int) <= 40_000_000,
                    0 <= len <= 5_000_000,
            ;
        }
        let ox: i64 = mul_div(dx, len, d);
        let oy: i64 = mul_div(dy, len, d);
        Point { x: b.x + ox, y: b.y + oy }
    }
}

} // verus!
