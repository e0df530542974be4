//! Forward-And-Backward-Reaching inverse kinematics.
//!
//! One iteration is a forward pass (effector to root: pin the effector
//! on the target, then re-place every earlier joint at its bone length)
//! followed by a backward pass (root to effector: pin the root, then
//! re-place every later joint). The solve loop runs iterations until the
//! effector is within tolerance of the target or the budget is spent.
//!
//! Reachability is checked once, before the loop: a target farther from
//! the root than the total chain length is reported as
//! [`SolveResult::Unreachable`] and the chain is left untouched.

use vstd::prelude::*;
use crate::geom::{
    Point, in_bounds, dist_sq_spec, dist_sq, place_pt, place_toward, seg_sq,
    lemma_dist_sq_symmetric, iabs, COORD_LIMIT, POS_LIMIT,
};
use crate::chain::{
    Chain, lengths_nonneg, sum_lengths, sum_suffix, lemma_sum_element, lemma_sum_take_le,
    lemma_sum_suffix_bounds, lemma_sum_nonneg,
};

verus! {

/// Outcome of a FABRIK solve: a chain updated in place, or a report
/// that the target lies beyond the chain's reach (in which case the
/// caller's chain is not modified).
#[derive(Debug)]
pub enum SolveResult {
    Solved(Chain),
    Unreachable,
}

/// The target is within reach: the total chain length is at least the
/// root-to-target distance (compared through squares, which is exact
/// for non-negative operands).
pub open spec fn reachable(c: Chain, target: Point) -> bool {
    sum_lengths(c.lengths@) * sum_lengths(c.lengths@) >= dist_sq_spec(c.root, target)
}

/// The rigid-link invariant for one solved segment: its squared length
/// sits in a narrow window around `len * len` (the window accounts for
/// the fixed-point rounding of one placement step).
pub open spec fn segment_ok(a: Point, b: Point, len: int) -> bool {
    len * len - 4 * len <= dist_sq_spec(a, b) <= 2 * (len * len)
}

/// Every segment of `ps` respects [`segment_ok`] for its bone length.
pub open spec fn segments_ok(ps: Seq<Point>, ls: Seq<i64>) -> bool {
    forall|i: int|
        0 <= i < ls.len() ==> #[trigger] segment_ok(ps[i], ps[i + 1], ls[i] as int)
}

/// Position `i` after a forward pass: the effector (index
/// `lens.len()`) sits on the target, and every earlier joint is placed
/// at its bone length from its successor's new position, guided by its
/// own old position in `ps`.
pub open spec fn forward_pos_spec(ps: Seq<Point>, lens: Seq<i64>, target: Point, i: int) -> Point
    decreases lens.len() - i,
{
    if i >= lens.len() {
        target
    } else {
        place_pt(forward_pos_spec(ps, lens, target, i + 1), ps[i], lens[i] as int)
    }
}

/// The whole position buffer after a forward pass over `ps`.
pub open spec fn forward_pass_spec(ps: Seq<Point>, lens: Seq<i64>, target: Point) -> Seq<Point> {
    Seq::new(ps.len(), |i: int| forward_pos_spec(ps, lens, target, i))
}

/// Position `i` after a backward pass: the root (index 0) sits on its
/// anchor, and every later joint is placed at its bone length from its
/// predecessor's new position, guided by its own old position in `ps`.
pub open spec fn backward_pos_spec(ps: Seq<Point>, lens: Seq<i64>, root: Point, i: int) -> Point
    decreases i,
{
    if i <= 0 {
        root
    } else {
        place_pt(backward_pos_spec(ps, lens, root, i - 1), ps[i], lens[i - 1] as int)
    }
}

/// The whole position buffer after a backward pass over `ps`.
pub open spec fn backward_pass_spec(ps: Seq<Point>, lens: Seq<i64>, root: Point) -> Seq<Point> {
    Seq::new(ps.len(), |i: int| backward_pos_spec(ps, lens, root, i))
}

/// One full FABRIK iteration (forward pass, then backward pass),
/// repeated `k` times or until the effector reaches the target's
/// tolerance circle, whichever comes first.
pub open spec fn fabrik_iterate_spec(
    ps: Seq<Point>,
    lens: Seq<i64>,
    root: Point,
    target: Point,
    tol: int,
    k: int,
) -> Seq<Point>
    decreases k,
{
    if k <= 0 {
        ps
    } else if dist_sq_spec(ps[ps.len() - 1], target) <= tol * tol {
        ps
    } else {
        fabrik_iterate_spec(
            backward_pass_spec(forward_pass_spec(ps, lens, target), lens, root),
            lens,
            root,
            target,
            tol,
            k - 1,
        )
    }
}

/// A buffer that satisfies the forward pass's pointwise description
/// equals [`forward_pos_spec`] at every index.
proof fn lemma_forward_pointwise(
    r: Seq<Point>,
    ps: Seq<Point>,
    lens: Seq<i64>,
    target: Point,
    i: int,
)
    requires
        r.len() == lens.len() + 1,
        0 <= i <= lens.len(),
        r[lens.len() as int] == target,
        forall|j: int|
            0 <= j < lens.len() ==> (#[trigger] r[j]) == place_pt(r[j + 1], ps[j], lens[j] as int),
    ensures
        r[i] == forward_pos_spec(ps, lens, target, i),
    decreases lens.len() - i,
{
    if i < lens.len() {
        lemma_forward_pointwise(r, ps, lens, target, i + 1);
    }
}

/// A buffer that satisfies the backward pass's pointwise description
/// equals [`backward_pos_spec`] at every index.
proof fn lemma_backward_pointwise(
    r: Seq<Point>,
    ps: Seq<Point>,
    lens: Seq<i64>,
    root: Point,
    i: int,
)
    requires
        r.len() == lens.len() + 1,
        0 <= i <= lens.len(),
        r[0] == root,
        forall|j: int|
            0 <= j < lens.len() ==> (#[trigger] r[j + 1]) == place_pt(
                r[j],
                ps[j + 1],
                lens[j] as int,
            ),
    ensures
        r[i] == backward_pos_spec(ps, lens, root, i),
    decreases i,
{
    if i > 0 {
        lemma_backward_pointwise(r, ps, lens, root, i - 1);
        assert(r[(i - 1) + 1] == place_pt(r[i - 1], ps[(i - 1) + 1], lens[i - 1] as int));
    }
}

/// One placement step keeps the segment inside its length window.
proof fn lemma_step_segment_ok(next: Point, guide: Point, q: Point, len: int)
    requires
        len >= 0,
        q == place_pt(next, guide, len),
        dist_sq_spec(next, q) == seg_sq(next, guide, len),
        dist_sq_spec(next, q) >= len * len - 4 * len,
        iabs(q.x - next.x) <= len,
        iabs(q.y - next.y) <= len,
    ensures
        segment_ok(q, next, len),
        segment_ok(next, q, len),
{
    assert(dist_sq_spec(next, q) <= 2 * (len * len)) by (nonlinear_arith)
        requires
            -len <= q.x - next.x <= len,
            -len <= q.y - next.y <= len,
            dist_sq_spec(next, q) == (q.x - next.x) * (q.x - next.x) + (q.y - next.y) * (q.y
                - next.y),
    ;
    lemma_dist_sq_symmetric(next, q);
}

/// Forward reaching pass (effector to root): pins the end effector on
/// the target, then walks down to the root re-placing each joint at its
/// bone length from its (already re-placed) successor.
pub fn fabrik_forward_pass(positions: Vec<Point>, lengths: &Vec<i64>, target: Point) -> (r: Vec<
    Point,
>)
    requires
        positions@.len() == lengths@.len() + 1,
        lengths@.len() >= 1,
        lengths_nonneg(lengths@),
        sum_lengths(lengths@) <= COORD_LIMIT,
        in_bounds(target, COORD_LIMIT as int),
        forall|i: int|
            0 <= i < positions@.len() ==> in_bounds(#[trigger] positions@[i], POS_LIMIT as int),
    ensures
        r@.len() == positions@.len(),
        r@[lengths@.len() as int] == target,
        forall|i: int|
            0 <= i < lengths@.len() ==> (#[trigger] r@[i]) == place_pt(
                r@[i + 1],
                positions@[i],
                lengths@[i] as int,
            ),
        forall|i: int| 0 <= i < r@.len() ==> in_bounds(#[trigger] r@[i], POS_LIMIT as int),
        segments_ok(r@, lengths@),
        r@ == forward_pass_spec(positions@, lengths@, target),
{
    let n: usize = lengths.len();
    let ghost p0 = positions@;
    let mut ps: Vec<Point> = positions;
    ps[n] = target;
    proof {
        lemma_sum_suffix_bounds(lengths@, n as int);
    }
    let mut i: usize = n;
    while i > 0
        invariant
            n == lengths@.len(),
            ps@.len() == n + 1,
            p0.len() == n + 1,
            0 <= i <= n,
            lengths_nonneg(lengths@),
            sum_lengths(lengths@) <= COORD_LIMIT,
            in_bounds(target, COORD_LIMIT as int),
            forall|j: int| 0 <= j < p0.len() ==> in_bounds(#[trigger] p0[j], POS_LIMIT as int),
            ps@[n as int] == target,
            forall|j: int| 0 <= j < i ==> #[trigger] ps@[j] == p0[j],
            forall|j: int|
                i <= j < n ==> (#[trigger] ps@[j]) == place_pt(
                    ps@[j + 1],
                    p0[j],
                    lengths@[j] as int,
                ),
            forall|j: int|
                i <= j <= n ==> in_bounds(
                    #[trigger] ps@[j],
                    COORD_LIMIT + sum_suffix(lengths@, j),
                ),
            forall|j: int|
                i <= j < n ==> #[trigger] segment_ok(ps@[j], ps@[j + 1], lengths@[j] as int),
        decreases i,
    {
        i = i - 1;
        proof {
            lemma_sum_element(lengths@, i as int);
            lemma_sum_suffix_bounds(lengths@, i as int);
            lemma_sum_suffix_bounds(lengths@, i as int + 1);
        }
        let next: Point = ps[i + 1];
        let guide: Point = ps[i];
        let len: i64 = lengths[i];
        let q: Point = place_toward(next, guide, len);
        proof {
            lemma_step_segment_ok(next, guide, q, len as int);
        }
        ps[i] = q;
    }
    proof {
        assert forall|j: int| 0 <= j < ps@.len() implies in_bounds(
            #[trigger] ps@[j],
            POS_LIMIT as int,
        ) by {
            lemma_sum_suffix_bounds(lengths@, j);
        }
        assert forall|j: int| 0 <= j < ps@.len() implies #[trigger] ps@[j] == forward_pos_spec(
            p0,
            lengths@,
            target,
            j,
        ) by {
            lemma_forward_pointwise(ps@, p0, lengths@, target, j);
        }
        assert(ps@ =~= forward_pass_spec(p0, lengths@, target));
    }
    ps
}

/// Backward reaching pass (root to effector): pins the root back on its
/// anchor, then walks up to the effector re-placing each joint at its
/// bone length from its (already re-placed) predecessor.
pub fn fabrik_backward_pass(positions: Vec<Point>, lengths: &Vec<i64>, root: Point) -> (r: Vec<
    Point,
>)
    requires
        positions@.len() == lengths@.len() + 1,
        lengths@.len() >= 1,
        lengths_nonneg(lengths@),
        sum_lengths(lengths@) <= COORD_LIMIT,
        in_bounds(root, COORD_LIMIT as int),
        forall|i: int|
            0 <= i < positions@.len() ==> in_bounds(#[trigger] positions@[i], POS_LIMIT as int),
    ensures
        r@.len() == positions@.len(),
        r@[0] == root,
        forall|i: int|
            0 <= i < lengths@.len() ==> (#[trigger] r@[i + 1]) == place_pt(
                r@[i],
                positions@[i + 1],
                lengths@[i] as int,
            ),
        forall|i: int| 0 <= i < r@.len() ==> in_bounds(#[trigger] r@[i], POS_LIMIT as int),
        segments_ok(r@, lengths@),
        r@ == backward_pass_spec(positions@, lengths@, root),
{
    let n: usize = lengths.len();
    let ghost p0 = positions@;
    let mut ps: Vec<Point> = positions;
    ps[0] = root;
    let mut i: usize = 0;
    while i < n
        invariant
            n == lengths@.len(),
            ps@.len() == n + 1,
            p0.len() == n + 1,
            0 <= i <= n,
            lengths_nonneg(lengths@),
            sum_lengths(lengths@) <= COORD_LIMIT,
            in_bounds(root, COORD_LIMIT as int),
            forall|j: int| 0 <= j < p0.len() ==> in_bounds(#[trigger] p0[j], POS_LIMIT as int),
            ps@[0] == root,
            forall|j: int| i < j <= n ==> #[trigger] ps@[j] == p0[j],
            forall|j: int|
                0 <= j < i ==> (#[trigger] ps@[j + 1]) == place_pt(
                    ps@[j],
                    p0[j + 1],
                    lengths@[j] as int,
                ),
            forall|j: int|
                0 <= j <= i ==> in_bounds(
                    #[trigger] ps@[j],
                    COORD_LIMIT + sum_lengths(lengths@.take(j)),
                ),
            forall|j: int|
                0 <= j < i ==> #[trigger] segment_ok(ps@[j], ps@[j + 1], lengths@[j] as int),
        decreases n - i,
    {
        proof {
            lemma_sum_element(lengths@, i as int);
            assert(lengths_nonneg(lengths@.take(i as int)));
            lemma_sum_nonneg(lengths@.take(i as int));
            lemma_sum_take_le(lengths@, i as int);
            lemma_sum_take_le(lengths@, i as int + 1);
            assert(lengths@.take(i as int + 1).drop_last() =~= lengths@.take(i as int));
            assert(lengths@.take(i as int + 1).last() == lengths@[i as int]);
        }
        let base: Point = ps[i];
        let guide: Point = ps[i + 1];
        let len: i64 = lengths[i];
        let q: Point = place_toward(base, guide, len);
        proof {
            lemma_step_segment_ok(base, guide, q, len as int);
            lemma_dist_sq_symmetric(base, q);
        }
        ps[i + 1] = q;
        i = i + 1;
    }
    proof {
        assert forall|j: int| 0 <= j < ps@.len() implies in_bounds(
            #[trigger] ps@[j],
            POS_LIMIT as int,
        ) by {
            assert(lengths_nonneg(lengths@.take(j)));
            lemma_sum_nonneg(lengths@.take(j));
            lemma_sum_take_le(lengths@, j);
        }
        assert forall|j: int| 0 <= j < ps@.len() implies #[trigger] ps@[j] == backward_pos_spec(
            p0,
            lengths@,
            root,
            j,
        ) by {
            lemma_backward_pointwise(ps@, p0, lengths@, root, j);
        }
        assert(ps@ =~= backward_pass_spec(p0, lengths@, root));
    }
    ps
}

/// Copy a position buffer (element for element, exactly).
fn copy_points(v: &Vec<Point>) -> (r: Vec<Point>)
    ensures
        r@ == v@,
{
    let mut r: Vec<Point> = Vec::new();
    let mut i: usize = 0;
    while i < v.len()
        invariant
            0 <= i <= v@.len(),
            r@.len() == i,
            forall|j: int| 0 <= j < i ==> #[trigger] r@[j] == v@[j],
        decreases v@.len() - i,
    {
        r.push(v[i]);
        i = i + 1;
    }
    proof {
        assert(r@ =~= v@);
    }
    r
}

/// Copy a length buffer (element for element, exactly).
fn copy_lengths(v: &Vec<i64>) -> (r: Vec<i64>)
    ensures
        r@ == v@,
{
    let mut r: Vec<i64> = Vec::new();
    let mut i: usize = 0;
    while i < v.len()
        invariant
            0 <= i <= v@.len(),
            r@.len() == i,
            forall|j: int| 0 <= j < i ==> #[trigger] r@[j] == v@[j],
        decreases v@.len() - i,
    {
        r.push(v[i]);
        i = i + 1;
    }
    proof {
        assert(r@ =~= v@);
    }
    r
}

/// Solve a chain toward `target` with FABRIK.
///
/// The target is first tested for reachability; an out-of-reach target
/// returns [`SolveResult::Unreachable`] without touching the chain.
/// Otherwise iterations run until the effector is within `tolerance` of
/// the target (checked before every iteration, so an already-converged
/// chain is returned unchanged) or `max_iterations` passes have run.
///
/// The solved positions are exactly [`fabrik_iterate_spec`] applied to
/// the input. The contract additionally spells out what matters most to
/// callers: the root stays pinned (`positions[0] == root`), an
/// already-converged input is returned bit for bit, and — as soon as
/// one iteration has run — every segment's squared length lies in the
/// [`segment_ok`] window of its bone length.
pub fn solve_fabrik(chain: &Chain, target: Point, max_iterations: u32, tolerance: i64) -> (r:
    SolveResult)
    requires
        chain.wf(),
        chain.lengths@.len() >= 1,
        in_bounds(target, COORD_LIMIT as int),
        0 <= tolerance <= COORD_LIMIT,
    ensures
        !reachable(*chain, target) ==> r matches SolveResult::Unreachable,
        reachable(*chain, target) ==> (r matches SolveResult::Solved(out) && {
            &&& out.wf()
            &&& out.root == chain.root
            &&& out.lengths@ == chain.lengths@
            &&& out.positions@.len() == chain.positions@.len()
            &&& out.positions@[0] == chain.root
            &&& out.positions@ == fabrik_iterate_spec(
                chain.positions@,
                chain.lengths@,
                chain.root,
                target,
                tolerance as int,
                max_iterations as int,
            )
            &&& (dist_sq_spec(chain.positions@.last(), target) <= tolerance * tolerance
                ==> out.positions@ == chain.positions@)
            &&& (dist_sq_spec(chain.positions@.last(), target) > tolerance * tolerance
                && max_iterations > 0 ==> segments_ok(out.positions@, out.lengths@))
        }),
{
    let n: usize = chain.lengths.len();
    let total: i64 = crate::chain::total_length(&chain.lengths);
    let droot: i64 = dist_sq(chain.root, target);
    proof {
        assert(total * total <= COORD_LIMIT * COORD_LIMIT) by (nonlinear_arith)
            requires
                0 <= total <= COORD_LIMIT,
                COORD_LIMIT == 5_000_000,
        ;
    }
    if total * total < droot {
        return SolveResult::Unreachable;
    }
    let ghost eff0 = chain.positions@.last();
    let ghost converged0 = dist_sq_spec(eff0, target) <= tolerance * tolerance;
    let mut current: Vec<Point> = copy_points(&chain.positions);
    let mut iter: u32 = 0;
    let mut done: bool = false;
    proof {
        assert(tolerance * tolerance <= COORD_LIMIT * COORD_LIMIT) by (nonlinear_arith)
            requires
                0 <= tolerance <= COORD_LIMIT,
                COORD_LIMIT == 5_000_000,
        ;
    }
    let tol2: i64 = tolerance * tolerance;
    while !done && iter < max_iterations
        invariant
            iter <= max_iterations,
            n == chain.lengths@.len(),
            n >= 1,
            chain.wf(),
            in_bounds(target, COORD_LIMIT as int),
            0 <= tolerance <= COORD_LIMIT,
            current@.len() == n + 1,
            forall|j: int| 0 <= j < current@.len() ==> in_bounds(#[trigger] current@[j], POS_LIMIT as int),
            iter == 0 ==> current@ == chain.positions@,
            converged0 ==> current@ == chain.positions@,
            iter > 0 ==> current@[0] == chain.root && segments_ok(current@, chain.lengths@),
            done ==> iter > 0 || converged0,
            fabrik_iterate_spec(
                current@,
                chain.lengths@,
                chain.root,
                target,
                tolerance as int,
                (max_iterations - iter) as int,
            ) == fabrik_iterate_spec(
                chain.positions@,
                chain.lengths@,
                chain.root,
                target,
                tolerance as int,
                max_iterations as int,
            ),
            done ==> dist_sq_spec(current@[n as int], target) <= tolerance * tolerance,
            tol2 == tolerance * tolerance,
            eff0 == chain.positions@.last(),
            converged0 == (dist_sq_spec(eff0, target) <= tolerance * tolerance),
        decreases (if done { 0int } else { 1int }), max_iterations - iter,
    {
        let eff: Point = current[n];
        let dd: i64 = dist_sq(eff, target);
        if dd <= tol2 {
            done = true;
        } else {
            let ghost before = current@;
            let fwd: Vec<Point> = fabrik_forward_pass(current, &chain.lengths, target);
            let bwd: Vec<Point> = fabrik_backward_pass(fwd, &chain.lengths, chain.root);
            current = bwd;
            proof {
                assert(current@ == backward_pass_spec(
                    forward_pass_spec(before, chain.lengths@, target),
                    chain.lengths@,
                    chain.root,
                ));
                assert(fabrik_iterate_spec(
                    before,
                    chain.lengths@,
                    chain.root,
                    target,
                    tolerance as int,
                    (max_iterations - iter) as int,
                ) == fabrik_iterate_spec(
                    current@,
                    chain.lengths@,
                    chain.root,
                    target,
                    tolerance as int,
                    (max_iterations - iter - 1) as int,
                ));
            }
            iter = iter + 1;
        }
    }
    let out = Chain {
        root: chain.root,
        lengths: copy_lengths(&chain.lengths),
        positions: current,
    };
    proof {
        assert(out.positions@[0] == chain.root);
        assert(out.wf());
        if done {
            assert(fabrik_iterate_spec(
                current@,
                chain.lengths@,
                chain.root,
                target,
                tolerance as int,
                (max_iterations - iter) as int,
            ) == current@);
        }
        assert(out.positions@ == fabrik_iterate_spec(
            chain.positions@,
            chain.lengths@,
            chain.root,
            target,
            tolerance as int,
            max_iterations as int,
        ));
    }
    SolveResult::Solved(out)
}

} // verus!
