//! The kinematic chain: root point, joint metadata, bone lengths and the
//! derived joint positions that the solvers mutate.

use vstd::prelude::*;
use crate::geom::{Point, in_bounds, COORD_LIMIT, POS_LIMIT};

verus! {

/// Default bone length, in fixed-point units (100 world units at a
/// thousandths scale).
pub const DEFAULT_JOINT_LENGTH: i64 = 100_000;

/// Default motion range half-angle, in thousandths of a degree.
pub const DEFAULT_MOTION_RANGE: i64 = 180_000;

/// A hinge of the chain. `length` is the distance to the next joint
/// (0 for the root). The motion-range fields are inert metadata: no
/// solver enforces them.
#[derive(Clone, Copy, PartialEq, Eq, Structural, Debug)]
pub struct Joint {
    pub length: i64,
    pub motion_range_min: i64,
    pub motion_range_max: i64,
}

impl Default for Joint {
    /// The stock joint: default length, unrestricted motion range.
    fn default() -> (j: Joint)
        ensures
            j.length == DEFAULT_JOINT_LENGTH,
            j.motion_range_min == DEFAULT_MOTION_RANGE,
            j.motion_range_max == DEFAULT_MOTION_RANGE,
    {
        Joint {
            length: DEFAULT_JOINT_LENGTH,
            motion_range_min: DEFAULT_MOTION_RANGE,
            motion_range_max: DEFAULT_MOTION_RANGE,
        }
    }
}

/// Sum of a sequence of bone lengths, as a mathematical integer.
pub open spec fn sum_lengths(s: Seq<i64>) -> int
    decreases s.len(),
{
    if s.len() == 0 {
        0
    } else {
        sum_lengths(s.drop_last()) + s.last()
    }
}

/// Every entry of `s` is a legal bone length.
pub open spec fn lengths_nonneg(s: Seq<i64>) -> bool {
    forall|i: int| 0 <= i < s.len() ==> 0 <= #[trigger] s[i]
}

/// A sum of non-negative lengths is non-negative.
pub proof fn lemma_sum_nonneg(s: Seq<i64>)
    requires
        lengths_nonneg(s),
    ensures
        sum_lengths(s) >= 0,
    decreases s.len(),
{
    if s.len() > 0 {
        assert(lengths_nonneg(s.drop_last()));
        lemma_sum_nonneg(s.drop_last());
    }
}

/// A prefix sum of non-negative lengths never exceeds the full sum.
pub proof fn lemma_sum_take_le(s: Seq<i64>, k: int)
    requires
        lengths_nonneg(s),
        0 <= k <= s.len(),
    ensures
        sum_lengths(s.take(k)) <= sum_lengths(s),
    decreases s.len() - k,
{
    if k == s.len() {
        assert(s.take(k) =~= s);
    } else {
        lemma_sum_take_le(s, k + 1);
        assert(s.take(k + 1).drop_last() =~= s.take(k));
        assert(s.take(k + 1).last() == s[k]);
    }
}

/// Sum of the lengths from index `k` on.
pub open spec fn sum_suffix(s: Seq<i64>, k: int) -> int
    decreases s.len() - k,
{
    if k < 0 || k >= s.len() {
        0
    } else {
        s[k] + sum_suffix(s, k + 1)
    }
}

/// The full sum splits into a prefix sum and a suffix sum.
pub proof fn lemma_sum_split(s: Seq<i64>, k: int)
    requires
        0 <= k <= s.len(),
    ensures
        sum_lengths(s) == sum_lengths(s.take(k)) + sum_suffix(s, k),
    decreases s.len() - k,
{
    if k == s.len() {
        assert(s.take(k) =~= s);
    } else {
        lemma_sum_split(s, k + 1);
        assert(s.take(k + 1).drop_last() =~= s.take(k));
        assert(s.take(k + 1).last() == s[k]);
    }
}

/// Suffix sums of non-negative lengths stay between 0 and the full sum.
pub proof fn lemma_sum_suffix_bounds(s: Seq<i64>, k: int)
    requires
        lengths_nonneg(s),
        0 <= k <= s.len(),
    ensures
        0 <= sum_suffix(s, k) <= sum_lengths(s),
{
    lemma_sum_split(s, k);
    lemma_sum_take_le(s, k);
    assert(lengths_nonneg(s.take(k)));
    lemma_sum_nonneg(s.take(k));
}

/// Each entry of a non-negative sequence is at most the full sum.
pub proof fn lemma_sum_element(s: Seq<i64>, i: int)
    requires
        lengths_nonneg(s),
        0 <= i < s.len(),
    ensures
        s[i] <= sum_lengths(s),
{
    lemma_sum_take_le(s, i + 1);
    assert(s.take(i + 1).drop_last() =~= s.take(i));
    assert(s.take(i + 1).last() == s[i]);
    assert(lengths_nonneg(s.take(i)));
    lemma_sum_nonneg(s.take(i));
}

/// An ordered kinematic chain.
///
/// `positions` always has one more entry than `lengths`: entry 0 is the
/// root, the last entry is the end effector ("hand"), and `lengths[i]`
/// is the rigid distance constraint between `positions[i]` and
/// `positions[i + 1]`.
#[derive(Debug)]
pub struct Chain {
    pub root: Point,
    pub lengths: Vec<i64>,
    pub positions: Vec<Point>,
}

impl Chain {
    /// Structural invariant: counts line up, the first position is
    /// pinned to the root, and every value is within the machine
    /// limits that keep the solvers' arithmetic exact.
    pub open spec fn wf(&self) -> bool {
        &&& self.positions@.len() == self.lengths@.len() + 1
        &&& self.positions@[0] == self.root
        &&& in_bounds(self.root, COORD_LIMIT as int)
        &&& lengths_nonneg(self.lengths@)
        &&& sum_lengths(self.lengths@) <= COORD_LIMIT
        &&& forall|i: int|
            0 <= i < self.positions@.len() ==> in_bounds(#[trigger] self.positions@[i], POS_LIMIT as int)
    }

    /// Number of joints (bones) in the chain.
    pub fn joint_count(&self) -> (n: usize)
        ensures
            n == self.lengths@.len(),
    {
        self.lengths.len()
    }

    /// Current end-effector ("hand") position.
    pub fn effector(&self) -> (p: Point)
        requires
            self.wf(),
        ensures
            p == self.positions@.last(),
    {
        self.positions[self.positions.len() - 1]
    }
}

/// Why a chain could not be built.
#[derive(Clone, Copy, PartialEq, Eq, Structural, Debug)]
pub enum BuildError {
    /// No joints were given, so the chain has no end effector to drive.
    MissingEffector,
    /// Some bone length was negative.
    NegativeLength,
    /// The root or the total chain length exceeds the fixed-point range.
    LimitExceeded,
}

/// Build a chain at rest: every position starts at the root (zero
/// extension), the state prior to the first solver pass.
///
/// Exactly one of the following holds:
/// - no joints: `Err(MissingEffector)`;
/// - otherwise, some negative length: `Err(NegativeLength)`;
/// - otherwise, root or total length out of range: `Err(LimitExceeded)`;
/// - otherwise `Ok`, and the chain is well formed with all positions at
///   the root.
pub fn build_chain(root: Point, lengths: Vec<i64>) -> (r: Result<Chain, BuildError>)
    ensures
        r matches Err(BuildError::MissingEffector) <==> lengths@.len() == 0,
        r matches Err(BuildError::NegativeLength) <==> lengths@.len() > 0 && !lengths_nonneg(
            lengths@,
        ),
        r matches Err(BuildError::LimitExceeded) <==> lengths@.len() > 0 && lengths_nonneg(
            lengths@,
        ) && (!in_bounds(root, COORD_LIMIT as int) || sum_lengths(lengths@) > COORD_LIMIT),
        r matches Ok(c) ==> {
            &&& c.wf()
            &&& c.root == root
            &&& c.lengths@ == lengths@
            &&& c.positions@.len() == lengths@.len() + 1
            &&& forall|i: int| 0 <= i < c.positions@.len() ==> #[trigger] c.positions@[i] == root
        },
        r matches Ok(_) <==> lengths@.len() > 0 && lengths_nonneg(lengths@) && in_bounds(
            root,
            COORD_LIMIT as int,
        ) && sum_lengths(lengths@) <= COORD_LIMIT,
{
    let n: usize = lengths.len();
    if n == 0 {
        return Err(BuildError::MissingEffector);
    }
    let mut i: usize = 0;
    while i < n
        invariant
            n == lengths@.len(),
            0 <= i <= n,
            forall|j: int| 0 <= j < i ==> 0 <= #[trigger] lengths@[j],
        decreases n - i,
    {
        if lengths[i] < 0 {
            return Err(BuildError::NegativeLength);
        }
        i = i + 1;
    }
    if !(-COORD_LIMIT <= root.x && root.x <= COORD_LIMIT && -COORD_LIMIT <= root.y && root.y
        <= COORD_LIMIT) {
        return Err(BuildError::LimitExceeded);
    }
    // Accumulate the total length, bailing out as soon as it can no
    // longer stay within range (the remaining lengths are non-negative).
    let mut total: i64 = 0;
    let mut k: usize = 0;
    while k < n
        invariant
            n == lengths@.len(),
            0 <= k <= n,
            lengths_nonneg(lengths@),
            total == sum_lengths(lengths@.take(k as int)),
            0 <= total <= COORD_LIMIT,
        decreases n - k,
    {
        let l: i64 = lengths[k];
        proof {
            assert(lengths@.take(k as int + 1).drop_last() =~= lengths@.take(k as int));
            assert(lengths@.take(k as int + 1).last() == lengths@[k as int]);
        }
        if l > COORD_LIMIT - total {
            proof {
                lemma_sum_take_le(lengths@, k as int + 1);
            }
            return Err(BuildError::LimitExceeded);
        }
        total = total + l;
        k = k + 1;
    }
    proof {
        assert(lengths@.take(n as int) =~= lengths@);
    }
    let mut positions: Vec<Point> = Vec::new();
    positions.push(root);
    let mut p: usize = 0;
    while p < n
        invariant
            0 <= p <= n,
            positions@.len() == p + 1,
            forall|j: int| 0 <= j < p + 1 ==> #[trigger] positions@[j] == root,
        decreases n - p,
    {
        positions.push(root);
        p = p + 1;
    }
    let c = Chain { root, lengths, positions };
    proof {
        assert(in_bounds(c.root, COORD_LIMIT as int));
        assert(forall|j: int|
            0 <= j < c.positions@.len() ==> in_bounds(#[trigger] c.positions@[j], POS_LIMIT as int));
    }
    Ok(c)
}

/// Total chain length (the reach), summed exactly.
pub fn total_length(lengths: &Vec<i64>) -> (t: i64)
    requires
        lengths_nonneg(lengths@),
        sum_lengths(lengths@) <= COORD_LIMIT,
    ensures
        t == sum_lengths(lengths@),
        0 <= t <= COORD_LIMIT,
{
    let n: usize = lengths.len();
    let mut total: i64 = 0;
    let mut k: usize = 0;
    while k < n
        invariant
            n == lengths@.len(),
            0 <= k <= n,
            lengths_nonneg(lengths@),
            sum_lengths(lengths@) <= COORD_LIMIT,
            total == sum_lengths(lengths@.take(k as int)),
            0 <= total <= COORD_LIMIT,
        decreases n - k,
    {
        proof {
            assert(lengths@.take(k as int + 1).drop_last() =~= lengths@.take(k as int));
            assert(lengths@.take(k as int + 1).last() == lengths@[k as int]);
            lemma_sum_take_le(lengths@, k as int + 1);
            assert(lengths_nonneg(lengths@.take(k as int + 1)));
            lemma_sum_nonneg(lengths@.take(k as int + 1));
        }
        total = total + lengths[k];
        k = k + 1;
    }
    proof {
        assert(lengths@.take(n as int) =~= lengths@);
        lemma_sum_nonneg(lengths@);
    }
    total
}

} // verus!
