use ik2d::chain::{
    build_chain, total_length, BuildError, Joint, DEFAULT_JOINT_LENGTH, DEFAULT_MOTION_RANGE,
};
use ik2d::geom::Point;

#[test]
fn joint_default_values() {
    let j = Joint::default();
    assert_eq!(j.length, DEFAULT_JOINT_LENGTH);
    assert_eq!(j.motion_range_min, DEFAULT_MOTION_RANGE);
    assert_eq!(j.motion_range_max, DEFAULT_MOTION_RANGE);
}

#[test]
fn build_rejects_zero_joints() {
    let r = build_chain(Point { x: 0, y: 0 }, vec![]);
    assert!(matches!(r, Err(BuildError::MissingEffector)));
}

#[test]
fn build_rejects_negative_length() {
    let r = build_chain(Point { x: 0, y: 0 }, vec![100, -1, 50]);
    assert!(matches!(r, Err(BuildError::NegativeLength)));
}

#[test]
fn build_rejects_excessive_reach() {
    let r = build_chain(Point { x: 0, y: 0 }, vec![4_000_000, 4_000_000]);
    assert!(matches!(r, Err(BuildError::LimitExceeded)));
}

#[test]
fn build_rejects_out_of_range_root() {
    let r = build_chain(Point { x: 6_000_000, y: 0 }, vec![100]);
    assert!(matches!(r, Err(BuildError::LimitExceeded)));
}

#[test]
fn build_rest_state_sits_on_root() {
    let root = Point { x: 42, y: -7 };
    let c = build_chain(root, vec![100_000, 50_000, 25_000]).unwrap();
    assert_eq!(c.positions.len(), 4);
    assert_eq!(c.lengths.len(), 3);
    for p in &c.positions {
        assert_eq!(p.x, root.x);
        assert_eq!(p.y, root.y);
    }
}

#[test]
fn build_accepts_zero_length_bones() {
    let root = Point { x: 0, y: 0 };
    let c = build_chain(root, vec![0, 100, 0]).unwrap();
    assert_eq!(total_length(&c.lengths), 100);
}

#[test]
fn total_length_sums_exactly() {
    let lens: Vec<i64> = vec![200_000, 100_000, 150_000];
    assert_eq!(total_length(&lens), 450_000);
}
