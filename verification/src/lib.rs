//! Scoring of road-sign detections against ground-truth annotations.
//!
//! A frame holds ground-truth annotations and detections. Every compatible
//! pair of one annotation and one detection whose boxes overlap enough is a
//! candidate; the candidates are resolved greedily, by overlap, into a
//! one-to-one assignment; each assigned detection adds its score to the
//! totals, and each detection left over costs a penalty.
//!
//! All quantities are exact fixed-point integers. Coordinates are whole
//! numbers of any uniform unit. Overlap ratios, thresholds and shape scores
//! count parts of `geometry::UNIT`; scores, totals and penalties count parts
//! of `config::SCORE_UNIT`, a hundredth of that, so that a shape score times
//! a percentage is exact. The only roundings are those of the overlap ratio
//! and of the fourth root in the shape score, both downwards and both stated
//! in the contracts.

pub mod config;
pub mod error;
pub mod geometry;
pub mod index;
pub mod matching;
pub mod records;
pub mod report;
pub mod rules;
pub mod score;
pub mod selection;
pub mod shape;
pub mod sign_class;
pub mod table;
pub mod text;
