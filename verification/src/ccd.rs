//! Cyclic Coordinate Descent inverse kinematics.
//!
//! CCD is rotation based: the chain is a sequence of per-joint rotations
//! (each relative to its parent), and every step rotates one joint so
//! the end effector swings toward the target, with the turn clamped to a
//! caller-chosen maximum per iteration. Joints are visited in chain
//! order, root to effector, and the effector's world position is
//! recomputed before every joint (it moves after each rotation).
//!
//! CCD never checks reachability and never fails: after the iteration
//! budget it returns whatever orientations it reached, a best-effort
//! contract distinct from FABRIK's converge-or-report one.

use vstd::prelude::*;
use crate::geom::{Point, in_bounds, dist_sq_spec, dist_sq, COORD_LIMIT, POS_LIMIT};
use crate::rot::{
    Rotor, rotor_wf, rot_norm_spec, rot_compose_spec, rot_offset_x, rot_offset_y, rot_normalize,
    rot_compose, rot_apply_len,
};
use crate::chain::{
    lengths_nonneg, sum_lengths, lemma_sum_element, lemma_sum_take_le, lemma_sum_nonneg,
};

verus! {

/// World rotation of segment `i`: the composition of the joint
/// rotations from the root up to and including joint `i`.
pub open spec fn fk_rot_spec(rots: Seq<Rotor>, i: int) -> Rotor
    decreases i,
{
    if i <= 0 {
        rots[0]
    } else {
        rot_compose_spec(fk_rot_spec(rots, i - 1), rots[i])
    }
}

/// World position of joint `i` (position `0` is the root, position
/// `lens.len()` the end effector): each bone contributes its rest
/// vector, straight up, rotated by its world rotation.
pub open spec fn fk_pos_spec(root: Point, rots: Seq<Rotor>, lens: Seq<i64>, i: int) -> Point
    decreases i,
{
    if i <= 0 {
        root
    } else {
        let prev: Point = fk_pos_spec(root, rots, lens, i - 1);
        let w: Rotor = fk_rot_spec(rots, i - 1);
        Point {
            x: (prev.x + rot_offset_x(w, lens[i - 1] as int)) as i64,
            y: (prev.y + rot_offset_y(w, lens[i - 1] as int)) as i64,
        }
    }
}

/// Every rotor of `rots` is within the component bound.
pub open spec fn rotors_wf(rots: Seq<Rotor>) -> bool {
    forall|i: int| 0 <= i < rots.len() ==> rotor_wf(#[trigger] rots[i])
}

/// Compute all joint world positions from the per-joint rotations,
/// exactly as [`fk_pos_spec`] describes.
pub fn fk_positions(root: Point, rots: &Vec<Rotor>, lens: &Vec<i64>) -> (r: Vec<Point>)
    requires
        rots@.len() == lens@.len(),
        lens@.len() >= 1,
        rotors_wf(rots@),
        lengths_nonneg(lens@),
        sum_lengths(lens@) <= COORD_LIMIT,
        in_bounds(root, COORD_LIMIT as int),
    ensures
        r@.len() == lens@.len() + 1,
        forall|i: int|
            0 <= i < r@.len() ==> (#[trigger] r@[i]) == fk_pos_spec(root, rots@, lens@, i),
        forall|i: int| 0 <= i < r@.len() ==> in_bounds(#[trigger] r@[i], POS_LIMIT as int),
{
    let n: usize = lens.len();
    let mut out: Vec<Point> = Vec::new();
    out.push(root);
    let mut pos: Point = root;
    let mut w: Rotor = rots[0];
    let mut i: usize = 0;
    while i < n
        invariant
            n == lens@.len(),
            n == rots@.len(),
            n >= 1,
            0 <= i <= n,
            rotors_wf(rots@),
            lengths_nonneg(lens@),
            sum_lengths(lens@) <= COORD_LIMIT,
            in_bounds(root, COORD_LIMIT as int),
            out@.len() == i + 1,
            forall|j: int|
                0 <= j <= i ==> (#[trigger] out@[j]) == fk_pos_spec(root, rots@, lens@, j),
            pos == fk_pos_spec(root, rots@, lens@, i as int),
            in_bounds(pos, COORD_LIMIT + sum_lengths(lens@.take(i as int))),
            forall|j: int| 0 <= j <= i ==> in_bounds(#[trigger] out@[j], POS_LIMIT as int),
            i < n ==> w == fk_rot_spec(rots@, i as int),
            rotor_wf(w),
        decreases n - i,
    {
        proof {
            lemma_sum_element(lens@, i as int);
            assert(lengths_nonneg(lens@.take(i as int)));
            lemma_sum_nonneg(lens@.take(i as int));
            lemma_sum_take_le(lens@, i as int);
            lemma_sum_take_le(lens@, i as int + 1);
            assert(lens@.take(i as int + 1).drop_last() =~= lens@.take(i as int));
            assert(lens@.take(i as int + 1).last() == lens@[i as int]);
        }
        let o: (i64, i64) = rot_apply_len(w, lens[i]);
        pos = Point { x: pos.x + o.0, y: pos.y + o.1 };
        out.push(pos);
        if i + 1 < n {
            w = rot_compose(w, rots[i + 1]);
        }
        i = i + 1;
    }
    out
}

/// One CCD joint update. The rotation that would align the
/// joint-to-hand direction with the joint-to-target direction is
/// clamped to the `clamp` rotor's angle and composed onto the joint's
/// previous rotation. The update is skipped — the previous rotation is
/// returned untouched — when the hand is already within `eps` of the
/// target or when the joint coincides with the hand or with the target
/// (a degenerate pair has no direction to rotate through).
pub open spec fn ccd_step_spec(
    joint: Point,
    hand: Point,
    target: Point,
    prev: Rotor,
    clamp: Rotor,
    eps: int,
) -> Rotor {
    if dist_sq_spec(hand, target) <= eps * eps {
        prev
    } else if hand == joint || target == joint {
        prev
    } else {
        let uh: Rotor = rot_norm_spec(hand.x - joint.x, hand.y - joint.y);
        let vh: Rotor = rot_norm_spec(target.x - joint.x, target.y - joint.y);
        let raw: Rotor = rot_norm_spec(
            uh.c * vh.c + uh.s * vh.s,
            uh.c * vh.s - uh.s * vh.c,
        );
        let lim: Rotor = if raw.c >= clamp.c {
            raw
        } else {
            Rotor { c: clamp.c, s: (if raw.s >= 0 { clamp.s as int } else { -(clamp.s as int) }) as i64 }
        };
        rot_compose_spec(lim, prev)
    }
}

/// One CCD joint update, exactly as [`ccd_step_spec`]; the skip guards
/// (already close enough, or a degenerate joint) leave the rotation
/// untouched, so a coincident target can never corrupt a joint.
pub fn ccd_joint_step(
    joint: Point,
    hand: Point,
    target: Point,
    prev: Rotor,
    clamp: Rotor,
    epsilon: i64,
) -> (r: Rotor)
    requires
        in_bounds(joint, POS_LIMIT as int),
        in_bounds(hand, POS_LIMIT as int),
        in_bounds(target, COORD_LIMIT as int),
        rotor_wf(prev),
        rotor_wf(clamp),
        clamp.c >= 0,
        clamp.s >= 0,
        0 <= epsilon <= COORD_LIMIT,
    ensures
        r == ccd_step_spec(joint, hand, target, prev, clamp, epsilon as int),
        rotor_wf(r),
        dist_sq_spec(hand, target) <= epsilon * epsilon ==> r == prev,
        hand == joint ==> r == prev,
        target == joint ==> r == prev,
{
    proof {
        assert(0 <= epsilon * epsilon <= 25_000_000_000_000) by (nonlinear_arith)
            requires
                0 <= epsilon <= 5_000_000,
        ;
    }
    let dht: i64 = dist_sq(hand, target);
    if dht <= epsilon * epsilon {
        return prev;
    }
    let ux: i64 = hand.x - joint.x;
    let uy: i64 = hand.y - joint.y;
    let vx: i64 = target.x - joint.x;
    let vy: i64 = target.y - joint.y;
    if (ux == 0 && uy == 0) || (vx == 0 && vy == 0) {
        return prev;
    }
    let uh: Rotor = rot_normalize(ux, uy);
    let vh: Rotor = rot_normalize(vx, vy);
    proof {
        assert(-16_777_216 <= uh.c * vh.c <= 16_777_216 && -16_777_216 <= uh.s * vh.s
            <= 16_777_216 && -16_777_216 <= uh.c * vh.s <= 16_777_216 && -16_777_216 <= uh.s * vh.c
            <= 16_777_216) by (nonlinear_arith)
            requires
                -4096 <= uh.c <= 4096,
                -4096 <= uh.s <= 4096,
                -4096 <= vh.c <= 4096,
                -4096 <= vh.s <= 4096,
        ;
    }
    let dc: i64 = uh.c * vh.c + uh.s * vh.s;
    let cs: i64 = uh.c * vh.s - uh.s * vh.c;
    let raw: Rotor = rot_normalize(dc, cs);
    let lim: Rotor = if raw.c >= clamp.c {
        raw
    } else {
        Rotor { c: clamp.c, s: if raw.s >= 0 { clamp.s } else { -clamp.s } }
    };
    rot_compose(lim, prev)
}

/// One full CCD sweep, joints `0 .. j`: each joint in turn is updated
/// by [`ccd_step_spec`] against the positions implied by the rotations
/// as updated so far (the effector position is recomputed per joint).
pub open spec fn ccd_sweep_spec(
    root: Point,
    rots: Seq<Rotor>,
    lens: Seq<i64>,
    target: Point,
    clamp: Rotor,
    eps: int,
    j: int,
) -> Seq<Rotor>
    decreases j,
{
    if j <= 0 {
        rots
    } else {
        let prev: Seq<Rotor> = ccd_sweep_spec(root, rots, lens, target, clamp, eps, j - 1);
        let joint: Point = fk_pos_spec(root, prev, lens, j - 1);
        let hand: Point = fk_pos_spec(root, prev, lens, lens.len() as int);
        prev.update(j - 1, ccd_step_spec(joint, hand, target, prev[j - 1], clamp, eps))
    }
}

/// The whole CCD solve: `iters` full sweeps over every joint.
pub open spec fn ccd_solve_spec(
    root: Point,
    rots: Seq<Rotor>,
    lens: Seq<i64>,
    target: Point,
    clamp: Rotor,
    eps: int,
    iters: int,
) -> Seq<Rotor>
    decreases iters,
{
    if iters <= 0 {
        rots
    } else {
        ccd_sweep_spec(
            root,
            ccd_solve_spec(root, rots, lens, target, clamp, eps, iters - 1),
            lens,
            target,
            clamp,
            eps,
            lens.len() as int,
        )
    }
}

/// Copy a rotation buffer (element for element, exactly).
fn copy_rotors(v: &Vec<Rotor>) -> (r: Vec<Rotor>)
    ensures
        r@ == v@,
{
    let mut r: Vec<Rotor> = Vec::new();
    let mut i: usize = 0;
    while i < v.len()
        invariant
            0 <= i <= v@.len(),
            r@.len() == i,
            forall|j: int| 0 <= j < i ==> #[trigger] r@[j] == v@[j],
        decreases v@.len() - i,
    {
        r.push(v[i]);
        i = i + 1;
    }
    proof {
        assert(r@ =~= v@);
    }
    r
}

/// Solve a chain toward `target` with CCD.
///
/// `orientations[i]` is joint `i`'s rotation relative to its parent;
/// world positions follow from them by [`fk_pos_spec`]. The solver runs
/// `max_iterations` full root-to-effector sweeps, each joint clamped to
/// the angle of the `clamp` rotor per sweep, and returns the updated
/// orientations; it never reports failure. The result is exactly
/// [`ccd_solve_spec`] applied to the input, and a chain whose effector
/// already lies within `epsilon` of the target is returned unchanged
/// (every joint update skips).
pub fn solve_ccd(
    root: Point,
    orientations: &Vec<Rotor>,
    lengths: &Vec<i64>,
    target: Point,
    max_iterations: u32,
    clamp: Rotor,
    epsilon: i64,
) -> (r: Vec<Rotor>)
    requires
        orientations@.len() == lengths@.len(),
        lengths@.len() >= 1,
        rotors_wf(orientations@),
        lengths_nonneg(lengths@),
        sum_lengths(lengths@) <= COORD_LIMIT,
        in_bounds(root, COORD_LIMIT as int),
        in_bounds(target, COORD_LIMIT as int),
        rotor_wf(clamp),
        clamp.c >= 0,
        clamp.s >= 0,
        0 <= epsilon <= COORD_LIMIT,
    ensures
        r@ == ccd_solve_spec(
            root,
            orientations@,
            lengths@,
            target,
            clamp,
            epsilon as int,
            max_iterations as int,
        ),
        r@.len() == orientations@.len(),
        rotors_wf(r@),
        dist_sq_spec(
            fk_pos_spec(root, orientations@, lengths@, lengths@.len() as int),
            target,
        ) <= epsilon * epsilon ==> r@ == orientations@,
{
    let n: usize = lengths.len();
    let ghost hand0 = fk_pos_spec(root, orientations@, lengths@, n as int);
    let ghost settled0 = dist_sq_spec(hand0, target) <= epsilon * epsilon;
    let mut cur: Vec<Rotor> = copy_rotors(orientations);
    let mut it: u32 = 0;
    while it < max_iterations
        invariant
            it <= max_iterations,
            n == lengths@.len(),
            n == orientations@.len(),
            n >= 1,
            cur@.len() == n,
            rotors_wf(cur@),
            rotors_wf(orientations@),
            lengths_nonneg(lengths@),
            sum_lengths(lengths@) <= COORD_LIMIT,
            in_bounds(root, COORD_LIMIT as int),
            in_bounds(target, COORD_LIMIT as int),
            rotor_wf(clamp),
            clamp.c >= 0,
            clamp.s >= 0,
            0 <= epsilon <= COORD_LIMIT,
            hand0 == fk_pos_spec(root, orientations@, lengths@, n as int),
            settled0 == (dist_sq_spec(hand0, target) <= epsilon * epsilon),
            settled0 ==> cur@ == orientations@,
            cur@ == ccd_solve_spec(
                root,
                orientations@,
                lengths@,
                target,
                clamp,
                epsilon as int,
                it as int,
            ),
        decreases max_iterations - it,
    {
        let ghost sweep_base = cur@;
        let mut j: usize = 0;
        while j < n
            invariant
                n == lengths@.len(),
                n == orientations@.len(),
                n >= 1,
                0 <= j <= n,
                cur@.len() == n,
                rotors_wf(cur@),
                rotors_wf(orientations@),
                lengths_nonneg(lengths@),
                sum_lengths(lengths@) <= COORD_LIMIT,
                in_bounds(root, COORD_LIMIT as int),
                in_bounds(target, COORD_LIMIT as int),
                rotor_wf(clamp),
                clamp.c >= 0,
                clamp.s >= 0,
                0 <= epsilon <= COORD_LIMIT,
                hand0 == fk_pos_spec(root, orientations@, lengths@, n as int),
                settled0 == (dist_sq_spec(hand0, target) <= epsilon * epsilon),
                settled0 ==> cur@ == orientations@,
                sweep_base == ccd_solve_spec(
                    root,
                    orientations@,
                    lengths@,
                    target,
                    clamp,
                    epsilon as int,
                    it as int,
                ),
                cur@ == ccd_sweep_spec(
                    root,
                    sweep_base,
                    lengths@,
                    target,
                    clamp,
                    epsilon as int,
                    j as int,
                ),
            decreases n - j,
        {
            let positions: Vec<Point> = fk_positions(root, &cur, lengths);
            let joint: Point = positions[j];
            let hand: Point = positions[n];
            let updated: Rotor = ccd_joint_step(joint, hand, target, cur[j], clamp, epsilon);
            let ghost cur_before = cur@;
            cur[j] = updated;
            proof {
                assert(cur@ =~= cur_before.update(j as int, updated));
                assert(cur@ == ccd_sweep_spec(
                    root,
                    sweep_base,
                    lengths@,
                    target,
                    clamp,
                    epsilon as int,
                    j as int + 1,
                ));
                if settled0 {
                    assert(hand == fk_pos_spec(root, orientations@, lengths@, n as int));
                    assert(updated == cur_before[j as int]);
                    assert(cur@ =~= cur_before);
                }
            }
            j = j + 1;
        }
        it = it + 1;
    }
    cur
}

} // verus!
