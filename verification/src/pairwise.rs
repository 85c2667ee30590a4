//! Decisions of the pairwise registration and of the pose solver: when there
//! is enough to go on, and which correspondences remain.
use vstd::prelude::*;

verus! {

/// Fewest corners that an image may have.
pub const MIN_CORNERS: usize = 20;

/// What is known of a pair of images so far.
#[derive(Clone, Copy, Debug, PartialEq, Eq, Structural)]
pub struct PairProgress {
    pub corners_a: usize,
    pub corners_b: usize,
    /// Matches between the two, once they were made.
    pub matches: Option<usize>,
    /// Epipolar inliers, once a model was found.
    pub inliers: Option<usize>,
}

#[derive(Clone, Copy, Debug, PartialEq, Eq, Structural)]
pub enum PairStep {
    /// Match the descriptors of the two images.
    Match,
    /// Search for an epipolar model of the matches.
    Verify,
    /// The inliers are the verified correspondences.
    Accept,
    /// The pair has no correspondences.
    Reject,
}

/// What comes next for a pair.
pub fn next_step(p: PairProgress, min_inliers: usize) -> (s: PairStep)
    ensures
        s == (if p.corners_a < 20 || p.corners_b < 20 {
            PairStep::Reject
        } else {
            match p.matches {
                None => PairStep::Match,
                Some(m) => if m < min_inliers {
                    PairStep::Reject
                } else {
                    match p.inliers {
                        None => PairStep::Verify,
                        Some(i) => if i < min_inliers {
                            PairStep::Reject
                        } else {
                            PairStep::Accept
                        },
                    }
                },
            }
        }),
{
    if p.corners_a < MIN_CORNERS || p.corners_b < MIN_CORNERS {
        return PairStep::Reject;
    }
    match p.matches {
        None => PairStep::Match,
        Some(m) => {
            if m < min_inliers {
                return PairStep::Reject;
            }
            match p.inliers {
                None => PairStep::Verify,
                Some(i) => {
                    if i < min_inliers {
                        PairStep::Reject
                    } else {
                        PairStep::Accept
                    }
                },
            }
        },
    }
}

/// The matches that are inliers, in the inliers' order.
pub fn verified_pairs(pairs: &[(usize, usize)], inliers: &[usize]) -> (out: Vec<(usize, usize)>)
    requires
        forall|k: int| 0 <= k < inliers@.len() ==> (#[trigger] inliers@[k]) < pairs@.len(),
    ensures
        out@.len() == inliers@.len(),
        forall|k: int| 0 <= k < out@.len() ==> (#[trigger] out@[k]) == pairs@[inliers@[k] as int],
{
    let mut out: Vec<(usize, usize)> = Vec::new();
    let mut k: usize = 0;
    while k < inliers.len()
        invariant
            k <= inliers@.len(),
            forall|k: int| 0 <= k < inliers@.len() ==> (#[trigger] inliers@[k]) < pairs@.len(),
            out@.len() == k,
            forall|j: int|
                0 <= j < k ==> (#[trigger] out@[j]) == pairs@[inliers@[j] as int],
        decreases inliers@.len() - k,
    {
        assert(inliers@[k as int] < pairs@.len());
        out.push(pairs[inliers[k]]);
        k = k + 1;
    }
    out
}

/// The numbers of all points: every one is active at first.
pub fn all_active(n: usize) -> (active: Vec<usize>)
    ensures
        active@ == Seq::new(n as nat, |i: int| i as usize),
{
    let mut active: Vec<usize> = Vec::new();
    let mut i: usize = 0;
    while i < n
        invariant
            i <= n,
            active@.len() == i,
            forall|k: int| 0 <= k < i ==> (#[trigger] active@[k]) == k as usize,
        decreases n - i,
    {
        active.push(i);
        i = i + 1;
    }
    assert(active@ =~= Seq::new(n as nat, |i: int| i as usize));
    active
}

} // verus!
