//! Orientation derivation for position-based solves.
//!
//! A renderer or animator consumes per-joint rotations, not points.
//! Each segment's orientation is the rotation that takes the rest axis
//! (straight up, the pose a freshly spawned bone points along) onto the
//! segment's direction — the usual "angle of the segment minus ninety
//! degrees" convention, carried as a [`Rotor`] instead of an angle.

use vstd::prelude::*;
use crate::geom::{Point, in_bounds, POS_LIMIT};
use crate::rot::{Rotor, rotor_wf, rot_norm_spec, rot_normalize};

verus! {

/// Orientation of the segment from `a` to `b`: the rotation taking the
/// up axis `(0, 1)` onto the segment direction. A degenerate segment
/// (`a == b`) has no direction and yields the identity rotation.
pub open spec fn orient_spec(a: Point, b: Point) -> Rotor {
    rot_norm_spec(b.y - a.y, -(b.x - a.x))
}

/// Derive one orientation per segment of a solved position buffer,
/// exactly as [`orient_spec`] describes.
pub fn derive_orientations(positions: &Vec<Point>) -> (r: Vec<Rotor>)
    requires
        positions@.len() >= 1,
        forall|i: int|
            0 <= i < positions@.len() ==> in_bounds(#[trigger] positions@[i], POS_LIMIT as int),
    ensures
        r@.len() == positions@.len() - 1,
        forall|i: int|
            0 <= i < r@.len() ==> (#[trigger] r@[i]) == orient_spec(
                positions@[i],
                positions@[i + 1],
            ),
        forall|i: int| 0 <= i < r@.len() ==> rotor_wf(#[trigger] r@[i]),
{
    let n: usize = positions.len() - 1;
    let mut out: Vec<Rotor> = Vec::new();
    let mut i: usize = 0;
    while i < n
        invariant
            n + 1 == positions@.len(),
            0 <= i <= n,
            forall|k: int|
                0 <= k < positions@.len() ==> in_bounds(#[trigger] positions@[k], POS_LIMIT as int),
            out@.len() == i,
            forall|k: int|
                0 <= k < i ==> (#[trigger] out@[k]) == orient_spec(
                    positions@[k],
                    positions@[k + 1],
                ),
            forall|k: int| 0 <= k < i ==> rotor_wf(#[trigger] out@[k]),
        decreases n - i,
    {
        let a: Point = positions[i];
        let b: Point = positions[i + 1];
        let o: Rotor = rot_normalize(b.y - a.y, -(b.x - a.x));
        out.push(o);
        i = i + 1;
    }
    out
}

} // verus!
