//! Fixed-point planar rotations.
//!
//! A rotation is stored as a [`Rotor`]: the cosine and sine of its angle,
//! scaled by [`ROT_ONE`]. Composing two rotors is complex multiplication
//! followed by renormalization, which keeps the magnitude pinned near
//! [`ROT_ONE`] so repeated composition cannot drift or overflow.

use vstd::prelude::*;
use crate::geom::{
    iabs, muldiv_spec, mul_div, isqrt, sqrt_floor, lemma_sqrt_floor_bounds,
    lemma_sqrt_floor_monotonic, lemma_sqrt_floor_square,
};

verus! {

/// Fixed-point scale of rotor components: a unit rotor has
/// `c * c + s * s` close to `ROT_ONE * ROT_ONE`.
pub const ROT_ONE: i64 = 4096;

/// A planar rotation: `c` and `s` are the cosine and sine of the angle,
/// scaled by [`ROT_ONE`].
#[derive(Clone, Copy, PartialEq, Eq, Structural, Debug)]
pub struct Rotor {
    pub c: i64,
    pub s: i64,
}

/// Component bound every library-made rotor satisfies.
pub open spec fn rotor_wf(r: Rotor) -> bool {
    -ROT_ONE <= r.c <= ROT_ONE && -ROT_ONE <= r.s <= ROT_ONE
}

/// The rotation by zero degrees.
pub fn rot_identity() -> (r: Rotor)
    ensures
        r.c == ROT_ONE,
        r.s == 0,
        rotor_wf(r),
{
    Rotor { c: ROT_ONE, s: 0 }
}

/// Rescale `(c, s)` to a unit rotor (magnitude [`ROT_ONE`]), rounding
/// each component toward zero. The zero vector has no direction and
/// falls back to the identity rotor.
pub open spec fn rot_norm_spec(c: int, s: int) -> Rotor {
    if c * c + s * s == 0 {
        Rotor { c: ROT_ONE, s: 0 }
    } else {
        let n: int = sqrt_floor(c * c + s * s);
        Rotor { c: muldiv_spec(c, ROT_ONE as int, n) as i64, s: muldiv_spec(s, ROT_ONE as int, n) as i64 }
    }
}

/// Composition of two rotations (complex product, then renormalized).
pub open spec fn rot_compose_spec(a: Rotor, b: Rotor) -> Rotor {
    rot_norm_spec(a.c * b.c - a.s * b.s, a.s * b.c + a.c * b.s)
}

/// Normalize a vector to a unit rotor, exactly as [`rot_norm_spec`].
pub fn rot_normalize(c: i64, s: i64) -> (r: Rotor)
    requires
        -60_000_000 <= c <= 60_000_000,
        -60_000_000 <= s <= 60_000_000,
    ensures
        r == rot_norm_spec(c as int, s as int),
        rotor_wf(r),
{
    proof {
        assert(0 <= c * c <= 3_600_000_000_000_000 && 0 <= s * s <= 3_600_000_000_000_000)
            by (nonlinear_arith)
            requires
                -60_000_000 <= c <= 60_000_000,
                -60_000_000 <= s <= 60_000_000,
        ;
    }
    let n2: i64 = c * c + s * s;
    if n2 == 0 {
        Rotor { c: ROT_ONE, s: 0 }
    } else {
        let n: i64 = isqrt(n2);
        proof {
            lemma_sqrt_floor_bounds(n2 as int);
            assert(n >= 1) by (nonlinear_arith)
                requires
                    n2 >= 1,
                    n >= 0,
                    n2 < (n + 1) * (n + 1),
            ;
            lemma_sqrt_floor_square(iabs(c as int));
            lemma_sqrt_floor_square(iabs(s as int));
            assert(iabs(c as int) * iabs(c as int) == c * c && iabs(s as int) * iabs(s as int) == s
                * s) by (nonlinear_arith);
            lemma_sqrt_floor_monotonic(c * c, n2 as int);
            lemma_sqrt_floor_monotonic(s * s, n2 as int);
            assert(iabs(c as int) <= n && iabs(s as int) <= n);
            assert(iabs(c as int) * ROT_ONE <= 4_000_000_000_000_000_000 && iabs(s as int)
                * ROT_ONE <= 4_000_000_000_000_000_000) by (nonlinear_arith)
                requires
                    0 <= iabs(c as int) <= 60_000_000,
                    0 <= iabs(s as int) <= 60_000_000,
        ;
        }
        let rc: i64 = mul_div(c, ROT_ONE, n);
        let rs: i64 = mul_div(s, ROT_ONE, n);
        Rotor { c: rc, s: rs }
    }
}

/// Compose two rotations, exactly as [`rot_compose_spec`].
pub fn rot_compose(a: Rotor, b: Rotor) -> (r: Rotor)
    requires
        rotor_wf(a),
        rotor_wf(b),
    ensures
        r == rot_compose_spec(a, b),
        rotor_wf(r),
{
    proof {
        assert(-16_777_216 <= a.c * b.c <= 16_777_216 && -16_777_216 <= a.s * b.s <= 16_777_216
            && -16_777_216 <= a.s * b.c <= 16_777_216 && -16_777_216 <= a.c * b.s <= 16_777_216)
            by (nonlinear_arith)
            requires
                -4096 <= a.c <= 4096,
                -4096 <= a.s <= 4096,
                -4096 <= b.c <= 4096,
                -4096 <= b.s <= 4096,
        ;
    }
    let rc: i64 = a.c * b.c - a.s * b.s;
    let rs: i64 = a.s * b.c + a.c * b.s;
    rot_normalize(rc, rs)
}

/// Offset, along one axis, of the rest direction (straight up) scaled
/// to `len` and rotated by `w`: the segment vector a bone of length
/// `len` contributes under world rotation `w`.
pub open spec fn rot_offset_x(w: Rotor, len: int) -> int {
    muldiv_spec(-(w.s as int), len, ROT_ONE as int)
}

/// Y counterpart of [`rot_offset_x`].
pub open spec fn rot_offset_y(w: Rotor, len: int) -> int {
    muldiv_spec(w.c as int, len, ROT_ONE as int)
}

/// Rotate the rest vector `(0, len)` by `w`, exactly as the offset
/// spec functions describe; each component is bounded by `len`.
pub fn rot_apply_len(w: Rotor, len: i64) -> (o: (i64, i64))
    requires
        rotor_wf(w),
        0 <= len <= crate::geom::COORD_LIMIT,
    ensures
        o.0 == rot_offset_x(w, len as int),
        o.1 == rot_offset_y(w, len as int),
        iabs(o.0 as int) <= len,
        iabs(o.1 as int) <= len,
{
    proof {
        assert(iabs(-w.s as int) * len <= 4_000_000_000_000_000_000 && iabs(w.c as int) * len
            <= 4_000_000_000_000_000_000) by (nonlinear_arith)
            requires
                -4096 <= w.c <= 4096,
                -4096 <= w.s <= 4096,
                0 <= len <= 5_000_000,
                iabs(-w.s as int) <= 4096,
                iabs(w.c as int) <= 4096,
        ;
    }
    let ox: i64 = mul_div(-w.s, len, ROT_ONE);
    let oy: i64 = mul_div(w.c, len, ROT_ONE);
    (ox, oy)
}

} // verus!
