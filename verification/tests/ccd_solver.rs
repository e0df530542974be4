// CCD scenarios at a fixed-point scale of 1000 units per world unit.
// The per-iteration clamp rotor below is about ten degrees:
// cos 10 deg * 4096 = 4034, sin 10 deg * 4096 = 711.

use ik2d::ccd::{ccd_joint_step, fk_positions, solve_ccd};
use ik2d::geom::{dist_sq, Point};
use ik2d::rot::{rot_compose, rot_identity, rot_normalize, Rotor, ROT_ONE};

fn clamp_ten_degrees() -> Rotor {
    Rotor { c: 4034, s: 711 }
}

#[test]
fn rotor_normalize_exact_values() {
    let r = rot_normalize(3, 4);
    assert_eq!(r.c, 2457); // 3 * 4096 / 5
    assert_eq!(r.s, 3276); // 4 * 4096 / 5
    let id = rot_normalize(0, 0);
    assert_eq!(id.c, ROT_ONE);
    assert_eq!(id.s, 0);
}

#[test]
fn rotor_compose_identity() {
    let id = rot_identity();
    let r = Rotor { c: 2457, s: 3276 };
    let c1 = rot_compose(id, r);
    assert!((c1.c - r.c).abs() <= 1);
    assert!((c1.s - r.s).abs() <= 1);
    let c2 = rot_compose(r, id);
    assert!((c2.c - r.c).abs() <= 1);
    assert!((c2.s - r.s).abs() <= 1);
}

#[test]
fn forward_kinematics_rest_pose_stacks_up() {
    let root = Point { x: 10, y: 20 };
    let rots = vec![rot_identity(), rot_identity()];
    let lens: Vec<i64> = vec![100_000, 50_000];
    let ps = fk_positions(root, &rots, &lens);
    assert_eq!(ps.len(), 3);
    assert_eq!(ps[0].x, 10);
    assert_eq!(ps[0].y, 20);
    assert_eq!(ps[1].x, 10);
    assert_eq!(ps[1].y, 100_020);
    assert_eq!(ps[2].x, 10);
    assert_eq!(ps[2].y, 150_020);
}

#[test]
fn step_skips_when_hand_is_close_enough() {
    let prev = Rotor { c: 2457, s: 3276 };
    let joint = Point { x: 0, y: 0 };
    let hand = Point { x: 1000, y: 5 };
    let target = Point { x: 1000, y: 0 };
    let r = ccd_joint_step(joint, hand, target, prev, clamp_ten_degrees(), 10);
    assert_eq!(r.c, prev.c);
    assert_eq!(r.s, prev.s);
}

#[test]
fn step_skips_degenerate_joint_on_hand() {
    let prev = Rotor { c: 2457, s: 3276 };
    let joint = Point { x: 500, y: 500 };
    let target = Point { x: 9000, y: 0 };
    let r = ccd_joint_step(joint, joint, target, prev, clamp_ten_degrees(), 10);
    assert_eq!(r.c, prev.c);
    assert_eq!(r.s, prev.s);
}

#[test]
fn step_skips_degenerate_joint_on_target() {
    let prev = Rotor { c: 2457, s: 3276 };
    let joint = Point { x: 500, y: 500 };
    let hand = Point { x: 9000, y: 0 };
    let r = ccd_joint_step(joint, hand, joint, prev, clamp_ten_degrees(), 10);
    assert_eq!(r.c, prev.c);
    assert_eq!(r.s, prev.s);
}

#[test]
fn step_clamps_large_turns() {
    // hand straight up, target straight right: ninety degrees apart,
    // so one step may turn by at most the clamp angle
    let joint = Point { x: 0, y: 0 };
    let hand = Point { x: 0, y: 100_000 };
    let target = Point { x: 100_000, y: 0 };
    let r = ccd_joint_step(joint, hand, target, rot_identity(), clamp_ten_degrees(), 10);
    // the turn is the clamp angle (renormalization may round by a unit),
    // clockwise, toward the target
    assert!((r.c - 4034).abs() <= 2);
    assert!((r.s + 711).abs() <= 2);
    assert!(r.s < 0);
}

#[test]
fn distance_not_increased_over_iterations() {
    let root = Point { x: 0, y: 0 };
    let rots = vec![rot_identity(), rot_identity(), rot_identity()];
    let lens: Vec<i64> = vec![200_000, 100_000, 150_000];
    let target = Point { x: 100_000, y: 50_000 };
    let d0 = dist_sq(fk_positions(root, &rots, &lens)[3], target);
    let mut prev = d0;
    let mut cur = rots;
    for _ in 0..15 {
        cur = solve_ccd(root, &cur, &lens, target, 1, clamp_ten_degrees(), 10);
        let d = dist_sq(fk_positions(root, &cur, &lens)[3], target);
        assert!(d <= prev);
        prev = d;
    }
    assert!(prev <= d0);
}

#[test]
fn reaches_target_within_budget() {
    let root = Point { x: 0, y: 0 };
    let rots = vec![rot_identity(), rot_identity(), rot_identity()];
    let lens: Vec<i64> = vec![200_000, 100_000, 150_000];
    let target = Point { x: 100_000, y: 50_000 };
    let cur = solve_ccd(root, &rots, &lens, target, 15, clamp_ten_degrees(), 10);
    let hand = fk_positions(root, &cur, &lens)[3];
    assert!(dist_sq(hand, target) <= 10 * 10);
}

#[test]
fn settled_chain_is_returned_unchanged() {
    let root = Point { x: 0, y: 0 };
    let rots = vec![rot_identity(), rot_identity()];
    let lens: Vec<i64> = vec![100_000, 100_000];
    // target exactly on the rest hand position: within epsilon, so
    // every joint update skips and the orientations come back bit for bit
    let target = Point { x: 0, y: 200_000 };
    let cur = solve_ccd(root, &rots, &lens, target, 15, clamp_ten_degrees(), 10);
    for r in &cur {
        assert_eq!(r.c, ROT_ONE);
        assert_eq!(r.s, 0);
    }
}

#[test]
fn target_on_root_never_turns_the_root_joint() {
    // the root joint's position coincides with the target for the whole
    // solve: its rotation must never change, and nothing degenerates
    let root = Point { x: 0, y: 0 };
    let rots = vec![rot_identity(), rot_identity()];
    let lens: Vec<i64> = vec![100_000, 100_000];
    let cur = solve_ccd(root, &rots, &lens, root, 5, clamp_ten_degrees(), 10);
    assert_eq!(cur[0].c, ROT_ONE);
    assert_eq!(cur[0].s, 0);
}
