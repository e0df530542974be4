// Scenarios at a fixed-point scale of 1000 units per world unit, so the
// customary tolerance of 0.01 world units is 10 units here.

use ik2d::chain::{build_chain, Chain};
use ik2d::fabrik::{fabrik_backward_pass, fabrik_forward_pass, solve_fabrik, SolveResult};
use ik2d::geom::{dist_sq, isqrt, Point};
use ik2d::orient::derive_orientations;
use ik2d::rot::ROT_ONE;

fn solved(r: SolveResult) -> Chain {
    match r {
        SolveResult::Solved(c) => c,
        SolveResult::Unreachable => panic!("expected a solved chain"),
    }
}

#[test]
fn reachability_two_joint_chain() {
    let root = Point { x: 0, y: 0 };
    let c = build_chain(root, vec![100_000, 100_000]).unwrap();
    // distance 150 <= reach 200: solved
    let near = solve_fabrik(&c, Point { x: 150_000, y: 0 }, 15, 10);
    assert!(matches!(near, SolveResult::Solved(_)));
    // distance 300 > reach 200: unreachable
    let far = solve_fabrik(&c, Point { x: 300_000, y: 0 }, 15, 10);
    assert!(matches!(far, SolveResult::Unreachable));
}

#[test]
fn reachability_boundary_is_reachable() {
    let root = Point { x: 0, y: 0 };
    let c = build_chain(root, vec![100_000, 100_000]).unwrap();
    // distance exactly equal to the reach counts as reachable
    let r = solve_fabrik(&c, Point { x: 200_000, y: 0 }, 15, 10);
    assert!(matches!(r, SolveResult::Solved(_)));
}

#[test]
fn converges_within_budget() {
    let root = Point { x: 0, y: 0 };
    let target = Point { x: 100_000, y: 50_000 };
    let c = build_chain(root, vec![200_000, 100_000, 150_000]).unwrap();
    let out = solved(solve_fabrik(&c, target, 15, 10));
    let eff = out.positions[out.positions.len() - 1];
    assert!(dist_sq(eff, target) <= 10 * 10);
}

#[test]
fn root_stays_pinned() {
    let root = Point { x: 1234, y: -777 };
    let target = Point { x: 90_000, y: 40_000 };
    let c = build_chain(root, vec![200_000, 100_000, 150_000]).unwrap();
    let out = solved(solve_fabrik(&c, target, 15, 10));
    assert_eq!(out.positions[0].x, root.x);
    assert_eq!(out.positions[0].y, root.y);
}

#[test]
fn segment_lengths_kept_after_solve() {
    let root = Point { x: 0, y: 0 };
    let target = Point { x: 100_000, y: 50_000 };
    let c = build_chain(root, vec![200_000, 100_000, 150_000]).unwrap();
    let out = solved(solve_fabrik(&c, target, 15, 10));
    for i in 0..out.lengths.len() {
        let seg = isqrt(dist_sq(out.positions[i], out.positions[i + 1]));
        assert!((seg - out.lengths[i]).abs() <= 2);
    }
}

#[test]
fn resolving_converged_chain_is_identity() {
    let root = Point { x: 0, y: 0 };
    let target = Point { x: 100_000, y: 50_000 };
    let c = build_chain(root, vec![200_000, 100_000, 150_000]).unwrap();
    let once = solved(solve_fabrik(&c, target, 15, 10));
    let twice = solved(solve_fabrik(&once, target, 15, 10));
    assert_eq!(once.positions.len(), twice.positions.len());
    for i in 0..once.positions.len() {
        assert_eq!(once.positions[i].x, twice.positions[i].x);
        assert_eq!(once.positions[i].y, twice.positions[i].y);
    }
}

#[test]
fn unreachable_target_leaves_chain_alone() {
    let root = Point { x: 0, y: 0 };
    let c = build_chain(root, vec![100_000, 100_000]).unwrap();
    let r = solve_fabrik(&c, Point { x: 300_000, y: 0 }, 15, 10);
    assert!(matches!(r, SolveResult::Unreachable));
    // the caller's chain was only borrowed; it still sits at rest
    for p in &c.positions {
        assert_eq!(p.x, 0);
        assert_eq!(p.y, 0);
    }
}

#[test]
fn target_on_root_converges_at_rest() {
    // the rest chain's effector already coincides with a target on the
    // root, so the solve is a no-op and nothing degenerates
    let root = Point { x: 0, y: 0 };
    let c = build_chain(root, vec![100_000, 100_000]).unwrap();
    let out = solved(solve_fabrik(&c, root, 15, 10));
    for p in &out.positions {
        assert_eq!(p.x, 0);
        assert_eq!(p.y, 0);
    }
}

#[test]
fn zero_iteration_budget_returns_input() {
    let root = Point { x: 0, y: 0 };
    let target = Point { x: 100_000, y: 50_000 };
    let c = build_chain(root, vec![200_000, 100_000, 150_000]).unwrap();
    let out = solved(solve_fabrik(&c, target, 0, 10));
    for p in &out.positions {
        assert_eq!(p.x, 0);
        assert_eq!(p.y, 0);
    }
}

#[test]
fn orientations_follow_solved_segments() {
    let root = Point { x: 0, y: 0 };
    let target = Point { x: 0, y: 300_000 };
    let c = build_chain(root, vec![200_000, 100_000]).unwrap();
    let out = solved(solve_fabrik(&c, target, 15, 10));
    let rots = derive_orientations(&out.positions);
    assert_eq!(rots.len(), 2);
    // a fully extended straight-up chain is the rest pose: identity
    for r in &rots {
        assert!((r.c - ROT_ONE).abs() <= 1);
        assert!(r.s.abs() <= 1);
    }
}

#[test]
fn orientation_convention_quarter_turns() {
    // segment straight up: identity; straight right: minus ninety degrees
    let up = vec![Point { x: 0, y: 0 }, Point { x: 0, y: 100 }];
    let r_up = derive_orientations(&up);
    assert_eq!(r_up[0].c, ROT_ONE);
    assert_eq!(r_up[0].s, 0);
    let right = vec![Point { x: 0, y: 0 }, Point { x: 100, y: 0 }];
    let r_right = derive_orientations(&right);
    assert_eq!(r_right[0].c, 0);
    assert_eq!(r_right[0].s, -ROT_ONE);
}

#[test]
fn forward_pass_pins_effector_on_target() {
    let lens: Vec<i64> = vec![100_000, 100_000];
    let start = vec![
        Point { x: 0, y: 0 },
        Point { x: 0, y: 100_000 },
        Point { x: 0, y: 200_000 },
    ];
    let target = Point { x: 150_000, y: 0 };
    let after = fabrik_forward_pass(start, &lens, target);
    assert_eq!(after.len(), 3);
    assert_eq!(after[2].x, target.x);
    assert_eq!(after[2].y, target.y);
    for i in 0..2 {
        let seg = isqrt(dist_sq(after[i], after[i + 1]));
        assert!((seg - lens[i]).abs() <= 2);
    }
}

#[test]
fn backward_pass_pins_root_on_anchor() {
    let lens: Vec<i64> = vec![100_000, 100_000];
    let start = vec![
        Point { x: 50_000, y: 0 },
        Point { x: 0, y: 100_000 },
        Point { x: 0, y: 200_000 },
    ];
    let root = Point { x: 0, y: 0 };
    let after = fabrik_backward_pass(start, &lens, root);
    assert_eq!(after[0].x, root.x);
    assert_eq!(after[0].y, root.y);
    for i in 0..2 {
        let seg = isqrt(dist_sq(after[i], after[i + 1]));
        assert!((seg - lens[i]).abs() <= 2);
    }
}

#[test]
fn chain_accessors() {
    let root = Point { x: 3, y: 4 };
    let c = build_chain(root, vec![100, 200]).unwrap();
    assert_eq!(c.joint_count(), 2);
    let eff = c.effector();
    assert_eq!(eff.x, root.x);
    assert_eq!(eff.y, root.y);
}
