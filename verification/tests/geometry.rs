use ik2d::geom::{dist_sq, isqrt, mul_div, place_toward, Point};

#[test]
fn dist_sq_exact_values() {
    let a = Point { x: 0, y: 0 };
    let b = Point { x: 3, y: 4 };
    assert_eq!(dist_sq(a, b), 25);
    assert_eq!(dist_sq(b, a), 25);
    assert_eq!(dist_sq(a, a), 0);
    let c = Point { x: -3, y: 4 };
    assert_eq!(dist_sq(a, c), 25);
}

#[test]
fn isqrt_exact_values() {
    assert_eq!(isqrt(0), 0);
    assert_eq!(isqrt(1), 1);
    assert_eq!(isqrt(3), 1);
    assert_eq!(isqrt(4), 2);
    assert_eq!(isqrt(99), 9);
    assert_eq!(isqrt(100), 10);
    assert_eq!(isqrt(1_000_000_000_000), 1_000_000);
    assert_eq!(isqrt(2_000_000_000_000), 1_414_213);
}

#[test]
fn mul_div_truncates_toward_zero() {
    assert_eq!(mul_div(7, 3, 2), 10); // 21 / 2
    assert_eq!(mul_div(-7, 3, 2), -10); // symmetric, not floored to -11
    assert_eq!(mul_div(5, 0, 9), 0);
    assert_eq!(mul_div(10, 10, 5), 20);
}

#[test]
fn place_toward_exact_on_pythagorean_direction() {
    let b = Point { x: 0, y: 0 };
    let t = Point { x: 3, y: 4 };
    // distance 5; walking 5000 units lands exactly on (3000, 4000)
    let q = place_toward(b, t, 5000);
    assert_eq!(q.x, 3000);
    assert_eq!(q.y, 4000);
    assert_eq!(dist_sq(b, q), 5000 * 5000);
}

#[test]
fn place_toward_degenerate_pair_walks_up() {
    // coincident points have no direction: the step falls back to the
    // rest axis and still produces a segment of exactly the asked length
    let b = Point { x: 7, y: -2 };
    let q = place_toward(b, b, 1000);
    assert_eq!(q.x, 7);
    assert_eq!(q.y, 998);
    assert_eq!(dist_sq(b, q), 1000 * 1000);
}

#[test]
fn place_toward_length_window() {
    // an awkward direction cannot land exactly; the squared length must
    // still sit within the contract's window around len * len
    let b = Point { x: 0, y: 0 };
    let t = Point { x: 1_000_003, y: 777_771 };
    let len: i64 = 250_000;
    let q = place_toward(b, t, len);
    let d = isqrt(dist_sq(b, q));
    assert!((d - len).abs() <= 2);
}
