//! The ways in which scoring can refuse its input.

use vstd::prelude::*;
use crate::sign_class::SignClass;

verus! {

/// A broken promise between the parts of the scoring, as opposed to a pair
/// that does not match or a detection that finds no partner.
#[derive(Debug, Clone, Copy, PartialEq, Eq, Structural)]
pub enum ScoreError {
    /// A shape score was asked for an overlap ratio below the low threshold.
    IouBelowThreshold,
    /// A ground-truth annotation has a single-segment class other than the
    /// umbrella class.
    UnexpectedAnnotationClass(SignClass),
}

} // verus!
