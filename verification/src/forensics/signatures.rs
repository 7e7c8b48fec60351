//! Forensic signatures of Byzantine evasion.

use vstd::prelude::*;
use crate::forensics::tda::{TdaEngine, bottleneck, window_betti};

verus! {

/// Forensic alert kinds.
#[derive(Debug, PartialEq, Eq, Structural)]
pub enum ForensicAlert {
    /// Sub-threshold commitment attempt.
    QuorumUnderflow,
    /// Identity forgery by mirroring.
    RedundantCognitiveHash,
    /// Low-entropy telemetry injection.
    TdaPersistentStasis,
    /// Delayed witness disclosure.
    SystematicLatencyOutlier,
}

/// Largest bottleneck distance tolerated before persistent stasis is
/// reported.
pub const STASIS_DISTANCE: usize = 2;

/// Evaluates a telemetry window: persistent stasis is reported when the
/// window's Betti numbers lie further than `STASIS_DISTANCE` from the
/// engine's baseline.
pub fn evaluate_forensics<P>(engine: &TdaEngine, window: &[P]) -> (r: Option<ForensicAlert>)
    ensures
        r == if bottleneck(engine.baseline, window_betti()) > STASIS_DISTANCE {
            Some(ForensicAlert::TdaPersistentStasis)
        } else {
            None
        },
{
    let current_betti = engine.evaluate_manifold(window);
    let d_b = engine.bottleneck_distance(&current_betti);
    if d_b > STASIS_DISTANCE {
        return Some(ForensicAlert::TdaPersistentStasis);
    }
    None
}

} // verus!
