//! The constants of a scoring run, as one value handed to the engine.

use vstd::prelude::*;
use crate::geometry::UNIT;

verus! {

/// The fixed-point representation of 1 for scores, totals and penalties: a
/// hundredth of `UNIT`, so that a shape score times a percentage is exact.
pub const SCORE_UNIT: u64 = 100_000_000;

/// The largest amount by which one detection can change a total.
pub const MAX_STEP: u64 = 0x7fff_ffff_ffff_ffff;

/// False positive detection penalty.
pub const FP_PENALTY: u64 = 300_000_000;

/// Thresholds and penalty of a scoring run.
#[derive(Debug, Clone, Copy, PartialEq, Eq, Structural)]
pub struct ScoreConfig {
    /// Overlap ratio below which a pair is no match, in parts of `UNIT`.
    pub iou_low: u64,
    /// Overlap ratio above which the shape of a match is perfect, in parts of
    /// `UNIT`.
    pub iou_high: u64,
    /// What a detection without a match costs, in parts of `SCORE_UNIT`.
    pub fp_penalty: u64,
}

impl ScoreConfig {
    /// The thresholds are ordered and lie in (0, 1]; the penalty fits a step.
    pub open spec fn wf(self) -> bool {
        &&& 0 < self.iou_low < self.iou_high <= UNIT
        &&& self.fp_penalty <= MAX_STEP
    }

    /// Whether the thresholds are ordered and lie in (0, 1] and the penalty
    /// fits a step.
    pub fn is_wf(&self) -> (r: bool)
        ensures
            r == self.wf(),
    {
        0 < self.iou_low && self.iou_low < self.iou_high && self.iou_high <= UNIT
            && self.fp_penalty <= MAX_STEP
    }

    /// A configuration with the given thresholds and the standard penalty, if
    /// the thresholds are ordered and lie in (0, 1].
    pub fn new(iou_low: u64, iou_high: u64) -> (r: Option<ScoreConfig>)
        ensures
            r is Some <==> 0 < iou_low < iou_high <= UNIT,
            r matches Some(c) ==> c.wf() && c == (ScoreConfig {
                iou_low,
                iou_high,
                fp_penalty: FP_PENALTY,
            }),
    {
        if 0 < iou_low && iou_low < iou_high && iou_high <= UNIT {
            Some(ScoreConfig { iou_low, iou_high, fp_penalty: FP_PENALTY })
        } else {
            None
        }
    }
}

} // verus!
