//! The candidates of a frame: its compatible pairs of one annotation and one
//! detection whose overlap reaches the low threshold, each with its score.

use vstd::prelude::*;
use crate::config::{ScoreConfig, SCORE_UNIT};
use crate::error::ScoreError;
use crate::geometry::{compute_iou, iou, lemma_iou_bounds, lemma_iou_identical, UNIT};
use crate::records::{text_of, IndexItem, SignAnnotation, SignDetection};
use crate::rules::{
    class_modifier, compute_final_score, compute_k1, compute_k2, compute_k3, data_modifier,
    final_score, temporary_modifier,
};
use crate::shape::{iou2score, lemma_shape_score_monotonic, shape_score};
use crate::sign_class::SignClass;

verus! {

/// A compatible pairing of one ground-truth annotation with one detection
/// whose overlap reaches the low threshold.
#[derive(Debug, Clone, Copy, PartialEq, Eq, Structural)]
pub struct Hit {
    /// Index of the annotation in the frame's ground truth.
    pub gt_idx: usize,
    /// Index of the detection in the frame's detections.
    pub sol_idx: usize,
    /// Overlap ratio, in parts of `UNIT`.
    pub iou: u64,
    /// Final score, in parts of `SCORE_UNIT`.
    pub score: u64,
    /// Shape score, in parts of `UNIT`.
    pub s: u64,
    pub k1: i32,
    pub k2: i32,
    pub k3: i32,
}

/// The shape score of a pair: not counted against a ground truth without a
/// class.
pub open spec fn pair_shape(gt: SignAnnotation, ratio: int, cfg: ScoreConfig) -> int {
    if gt.class is Na {
        0
    } else {
        shape_score(ratio, cfg.iou_low as int, cfg.iou_high as int)
    }
}

/// The candidate that a pair gives, if its classes are compatible and its
/// overlap reaches the low threshold.
pub open spec fn pair_hit(
    gt: SignAnnotation,
    det: SignDetection,
    gi: int,
    si: int,
    cfg: ScoreConfig,
) -> Option<Hit> {
    let ratio = iou(gt.bbox, det.bbox);
    match class_modifier(gt.class, det.class) {
        Some(k1) if ratio >= cfg.iou_low => {
            let s = pair_shape(gt, ratio, cfg);
            let k2 = data_modifier(text_of(gt.data), text_of(det.data));
            let k3 = temporary_modifier(gt.temporary, det.temporary);
            Some(
                Hit {
                    gt_idx: gi as usize,
                    sol_idx: si as usize,
                    iou: ratio as u64,
                    score: final_score(s, k1 + k2 + k3) as u64,
                    s: s as u64,
                    k1: k1 as i32,
                    k2: k2 as i32,
                    k3: k3 as i32,
                },
            )
        },
        _ => None,
    }
}

/// The candidates of one annotation against the first `n` detections, in the
/// order of the detections.
pub open spec fn row_hits(
    gt: SignAnnotation,
    gi: int,
    dets: Seq<SignDetection>,
    cfg: ScoreConfig,
    n: int,
) -> Seq<Hit>
    decreases n,
{
    if n <= 0 {
        Seq::empty()
    } else {
        let before = row_hits(gt, gi, dets, cfg, n - 1);
        match pair_hit(gt, dets[n - 1], gi, n - 1, cfg) {
            Some(h) => before.push(h),
            None => before,
        }
    }
}

/// The candidates of the first `m` annotations, annotation by annotation.
pub open spec fn frame_hits(
    gts: Seq<SignAnnotation>,
    dets: Seq<SignDetection>,
    cfg: ScoreConfig,
    m: int,
) -> Seq<Hit>
    decreases m,
{
    if m <= 0 {
        Seq::empty()
    } else {
        frame_hits(gts, dets, cfg, m - 1) + row_hits(gts[m - 1], m - 1, dets, cfg, dets.len() as int)
    }
}

/// All candidates of a frame.
pub open spec fn candidates(
    gts: Seq<SignAnnotation>,
    dets: Seq<SignDetection>,
    cfg: ScoreConfig,
) -> Seq<Hit> {
    frame_hits(gts, dets, cfg, gts.len() as int)
}

/// Some annotation carries a class that ground truth must not carry.
pub open spec fn has_stray(gts: Seq<SignAnnotation>) -> bool {
    exists|i: int| 0 <= i < gts.len() && (#[trigger] gts[i]).class.is_stray_single()
}

/// `i` is the first annotation with a class that ground truth must not carry.
pub open spec fn is_first_stray(gts: Seq<SignAnnotation>, i: int) -> bool {
    &&& 0 <= i < gts.len()
    &&& gts[i].class.is_stray_single()
    &&& forall|j: int| 0 <= j < i ==> !(#[trigger] gts[j]).class.is_stray_single()
}

/// Scoring the frame meets a class that ground truth must not carry: there is
/// one, and there is a detection to hold against it.
pub open spec fn frame_fails(gts: Seq<SignAnnotation>, dets: Seq<SignDetection>) -> bool {
    dets.len() > 0 && has_stray(gts)
}

/// The numbers of a candidate are within their ranges.
pub open spec fn hit_in_range(h: Hit) -> bool {
    &&& h.iou <= UNIT
    &&& h.s <= UNIT
    &&& h.score <= 400 * UNIT
}

/// What `pair_hit` gives is built from values within their ranges, so that
/// none of its fields is cut off.
pub proof fn lemma_pair_hit_fields(
    gt: SignAnnotation,
    det: SignDetection,
    gi: int,
    si: int,
    cfg: ScoreConfig,
)
    requires
        gt.bbox.wf(),
        det.bbox.wf(),
        cfg.wf(),
        0 <= gi <= usize::MAX,
        0 <= si <= usize::MAX,
    ensures
        pair_hit(gt, det, gi, si, cfg) matches Some(h) ==> {
            &&& h.gt_idx == gi
            &&& h.sol_idx == si
            &&& h.iou == iou(gt.bbox, det.bbox)
            &&& cfg.iou_low <= h.iou
            &&& h.s == pair_shape(gt, h.iou as int, cfg)
            &&& class_modifier(gt.class, det.class) == Some(h.k1 as int)
            &&& h.k2 == data_modifier(text_of(gt.data), text_of(det.data))
            &&& h.k3 == temporary_modifier(gt.temporary, det.temporary)
            &&& h.score == final_score(h.s as int, h.k1 + h.k2 + h.k3)
            &&& hit_in_range(h)
        },
{
    lemma_iou_bounds(gt.bbox, det.bbox);
    let ratio = iou(gt.bbox, det.bbox);
    if pair_hit(gt, det, gi, si, cfg) is Some {
        lemma_shape_score_monotonic(
            ratio,
            ratio,
            cfg.iou_low as int,
            cfg.iou_high as int,
        );
        let s = pair_shape(gt, ratio, cfg);
        let k1 = class_modifier(gt.class, det.class)->0;
        let k2 = data_modifier(text_of(gt.data), text_of(det.data));
        let k3 = temporary_modifier(gt.temporary, det.temporary);
        let k = k1 + k2 + k3;
        assert(0 <= final_score(s, k) <= 400 * UNIT) by (nonlinear_arith)
            requires
                0 <= s <= UNIT,
                -170 <= k <= 300,
                final_score(s, k) == if k > -100 {
                    s * (100 + k)
                } else {
                    0
                },
        ;
    }
}

/// A candidate against a ground truth without a class scores nothing,
/// whatever the overlap and the other modifiers.
pub proof fn lemma_unclassed_scores_nothing(
    gt: SignAnnotation,
    det: SignDetection,
    gi: int,
    si: int,
    cfg: ScoreConfig,
)
    requires
        gt.class is Na,
    ensures
        pair_hit(gt, det, gi, si, cfg) is Some <==> iou(gt.bbox, det.bbox) >= cfg.iou_low,
        pair_hit(gt, det, gi, si, cfg) matches Some(h) ==> h.score == 0 && h.s == 0,
{
}

proof fn lemma_row_members(
    gt: SignAnnotation,
    gi: int,
    dets: Seq<SignDetection>,
    cfg: ScoreConfig,
    n: int,
    h: Hit,
)
    ensures
        row_hits(gt, gi, dets, cfg, n).contains(h) <==> exists|si: int|
            0 <= si < n && #[trigger] pair_hit(gt, dets[si], gi, si, cfg) == Some(h),
    decreases n,
{
    let row = row_hits(gt, gi, dets, cfg, n);
    if n > 0 {
        let before = row_hits(gt, gi, dets, cfg, n - 1);
        lemma_row_members(gt, gi, dets, cfg, n - 1, h);
        if exists|si: int| 0 <= si < n && #[trigger] pair_hit(gt, dets[si], gi, si, cfg) == Some(h) {
            let si = choose|si: int|
                0 <= si < n && #[trigger] pair_hit(gt, dets[si], gi, si, cfg) == Some(h);
            if si < n - 1 {
                let i = choose|i: int| 0 <= i < before.len() && before[i] == h;
                assert(row[i] == h);
            } else {
                assert(row[row.len() - 1] == h);
            }
        }
    }
}

proof fn lemma_frame_members(
    gts: Seq<SignAnnotation>,
    dets: Seq<SignDetection>,
    cfg: ScoreConfig,
    m: int,
    h: Hit,
)
    ensures
        frame_hits(gts, dets, cfg, m).contains(h) <==> exists|gi: int, si: int|
            0 <= gi < m && 0 <= si < dets.len() && #[trigger] pair_hit(
                gts[gi],
                dets[si],
                gi,
                si,
                cfg,
            ) == Some(h),
    decreases m,
{
    let all = frame_hits(gts, dets, cfg, m);
    if m > 0 {
        let before = frame_hits(gts, dets, cfg, m - 1);
        let row = row_hits(gts[m - 1], m - 1, dets, cfg, dets.len() as int);
        lemma_frame_members(gts, dets, cfg, m - 1, h);
        lemma_row_members(gts[m - 1], m - 1, dets, cfg, dets.len() as int, h);
        if exists|gi: int, si: int|
            0 <= gi < m && 0 <= si < dets.len() && #[trigger] pair_hit(
                gts[gi],
                dets[si],
                gi,
                si,
                cfg,
            ) == Some(h) {
            let (gi, si) = choose|gi: int, si: int|
                0 <= gi < m && 0 <= si < dets.len() && #[trigger] pair_hit(
                    gts[gi],
                    dets[si],
                    gi,
                    si,
                    cfg,
                ) == Some(h);
            if gi < m - 1 {
                let i = choose|i: int| 0 <= i < before.len() && before[i] == h;
                assert(all[i] == h);
            } else {
                let i = choose|i: int| 0 <= i < row.len() && row[i] == h;
                assert(all[before.len() + i] == h);
            }
        }
    }
}

/// The candidates of a frame are exactly what its pairs give.
pub proof fn lemma_candidates_members(
    gts: Seq<SignAnnotation>,
    dets: Seq<SignDetection>,
    cfg: ScoreConfig,
    h: Hit,
)
    ensures
        candidates(gts, dets, cfg).contains(h) <==> exists|gi: int, si: int|
            0 <= gi < gts.len() && 0 <= si < dets.len() && #[trigger] pair_hit(
                gts[gi],
                dets[si],
                gi,
                si,
                cfg,
            ) == Some(h),
{
    lemma_frame_members(gts, dets, cfg, gts.len() as int, h);
}

/// Every candidate of a frame names an annotation and a detection of the
/// frame, and its numbers are within their ranges.
pub proof fn lemma_candidates_in_range(
    gts: Seq<SignAnnotation>,
    dets: Seq<SignDetection>,
    cfg: ScoreConfig,
)
    requires
        forall|i: int| 0 <= i < gts.len() ==> (#[trigger] gts[i]).bbox.wf(),
        forall|i: int| 0 <= i < dets.len() ==> (#[trigger] dets[i]).bbox.wf(),
        cfg.wf(),
        gts.len() <= usize::MAX,
        dets.len() <= usize::MAX,
    ensures
        forall|h: Hit| #[trigger]
            candidates(gts, dets, cfg).contains(h) ==> {
                &&& h.gt_idx < gts.len()
                &&& h.sol_idx < dets.len()
                &&& hit_in_range(h)
                &&& pair_hit(
                    gts[h.gt_idx as int],
                    dets[h.sol_idx as int],
                    h.gt_idx as int,
                    h.sol_idx as int,
                    cfg,
                ) == Some(h)
            },
{
    assert forall|h: Hit| #[trigger] candidates(gts, dets, cfg).contains(h) implies {
        &&& h.gt_idx < gts.len()
        &&& h.sol_idx < dets.len()
        &&& hit_in_range(h)
        &&& pair_hit(
            gts[h.gt_idx as int],
            dets[h.sol_idx as int],
            h.gt_idx as int,
            h.sol_idx as int,
            cfg,
        ) == Some(h)
    } by {
        lemma_candidates_members(gts, dets, cfg, h);
        let (gi, si) = choose|gi: int, si: int|
            0 <= gi < gts.len() && 0 <= si < dets.len() && #[trigger] pair_hit(
                gts[gi],
                dets[si],
                gi,
                si,
                cfg,
            ) == Some(h);
        lemma_pair_hit_fields(gts[gi], dets[si], gi, si, cfg);
    }
}

/// A frame in which the classes of every pair are incompatible has no
/// candidates, whatever the overlaps.
pub proof fn lemma_incompatible_frame(
    gts: Seq<SignAnnotation>,
    dets: Seq<SignDetection>,
    cfg: ScoreConfig,
)
    requires
        forall|gi: int, si: int|
            0 <= gi < gts.len() && 0 <= si < dets.len() ==> class_modifier(
                (#[trigger] gts[gi]).class,
                (#[trigger] dets[si]).class,
            ) is None,
    ensures
        candidates(gts, dets, cfg) == Seq::<Hit>::empty(),
{
    let all = candidates(gts, dets, cfg);
    if all.len() > 0 {
        let h = all[0];
        lemma_candidates_members(gts, dets, cfg, h);
    }
}

/// An annotation of a two-segment class and a detection of the same class
/// with the same box of positive area, neither with a temporary flag set nor
/// with auxiliary text, give a candidate with all modifiers at 0 and the
/// full score.
pub proof fn lemma_identical_pair(
    gt: SignAnnotation,
    det: SignDetection,
    gi: int,
    si: int,
    cfg: ScoreConfig,
)
    requires
        gt.class is Double,
        det.class == gt.class,
        det.bbox == gt.bbox,
        gt.bbox.wf(),
        gt.bbox.area() > 0,
        !gt.temporary,
        det.temporary is None,
        gt.data is None,
        det.data is None,
        cfg.wf(),
        0 <= gi <= usize::MAX,
        0 <= si <= usize::MAX,
    ensures
        pair_hit(gt, det, gi, si, cfg) == Some(
            Hit {
                gt_idx: gi as usize,
                sol_idx: si as usize,
                iou: UNIT,
                score: SCORE_UNIT,
                s: UNIT,
                k1: 0,
                k2: 0,
                k3: 0,
            },
        ),
{
    lemma_iou_identical(gt.bbox);
    lemma_shape_score_monotonic(UNIT as int, UNIT as int, cfg.iou_low as int, cfg.iou_high as int);
    assert(class_modifier(gt.class, det.class) == Some(0int));
    assert(pair_shape(gt, UNIT as int, cfg) == UNIT);
    assert(final_score(UNIT as int, 0) == SCORE_UNIT);
}

/// The candidate of one pair.
///
/// `Ok(None)` says that the pair is no candidate; the error is that of the
/// class modifier.
pub fn score_pair(
    gt: &SignAnnotation,
    det: &SignDetection,
    gt_idx: usize,
    sol_idx: usize,
    cfg: &ScoreConfig,
) -> (r: Result<Option<Hit>, ScoreError>)
    requires
        gt.bbox.wf(),
        det.bbox.wf(),
        cfg.wf(),
    ensures
        gt.class.is_stray_single() <==> r is Err,
        r is Err ==> r == Err::<Option<Hit>, ScoreError>(
            ScoreError::UnexpectedAnnotationClass(gt.class),
        ),
        r matches Ok(h) ==> h == pair_hit(*gt, *det, gt_idx as int, sol_idx as int, *cfg),
{
    let k1 = match compute_k1(gt.class, det.class) {
        Ok(Some(k)) => k,
        Ok(None) => {
            return Ok(None);
        },
        Err(e) => {
            return Err(e);
        },
    };
    let ratio = compute_iou(gt.bbox, det.bbox);
    if ratio < cfg.iou_low {
        return Ok(None);
    }
    let is_na = match gt.class {
        SignClass::Na => true,
        _ => false,
    };
    let s = if is_na {
        0
    } else {
        match iou2score(ratio, cfg.iou_low, cfg.iou_high) {
            Ok(s) => s,
            Err(e) => {
                return Err(e);
            },
        }
    };
    let k2 = compute_k2(gt, det);
    let k3 = compute_k3(gt, det);
    let score = compute_final_score(s, k1, k2, k3);
    Ok(Some(Hit { gt_idx, sol_idx, iou: ratio, score, s, k1, k2, k3 }))
}

/// Collects the candidates of a frame: every compatible pair whose overlap
/// reaches the low threshold, annotation by annotation and, for each, in the
/// order of the detections.
pub fn collect_hits(item: &IndexItem, cfg: &ScoreConfig) -> (r: Result<Vec<Hit>, ScoreError>)
    requires
        item.wf(),
        cfg.wf(),
    ensures
        r is Err <==> frame_fails(item.gtruth@, item.solutions@),
        r matches Err(e) ==> exists|i: int|
            is_first_stray(item.gtruth@, i) && e == ScoreError::UnexpectedAnnotationClass(
                item.gtruth@[i].class,
            ),
        r matches Ok(hits) ==> hits@ == candidates(item.gtruth@, item.solutions@, *cfg),
{
    let ghost gts = item.gtruth@;
    let ghost dets = item.solutions@;
    let mut hits: Vec<Hit> = Vec::new();
    let mut gi: usize = 0;
    while gi < item.gtruth.len()
        invariant
            0 <= gi <= gts.len(),
            gts == item.gtruth@,
            dets == item.solutions@,
            item.wf(),
            cfg.wf(),
            hits@ == frame_hits(gts, dets, *cfg, gi as int),
            dets.len() > 0 ==> forall|j: int|
                0 <= j < gi ==> !(#[trigger] gts[j]).class.is_stray_single(),
        decreases gts.len() - gi,
    {
        let gt = &item.gtruth[gi];
        let ghost before = hits@;
        let mut si: usize = 0;
        while si < item.solutions.len()
            invariant
                0 <= si <= dets.len(),
                0 <= gi < gts.len(),
                gts == item.gtruth@,
                dets == item.solutions@,
                *gt == gts[gi as int],
                item.wf(),
                cfg.wf(),
                hits@ == before + row_hits(*gt, gi as int, dets, *cfg, si as int),
                si > 0 ==> !gt.class.is_stray_single(),
                dets.len() > 0 ==> forall|j: int|
                    0 <= j < gi ==> !(#[trigger] gts[j]).class.is_stray_single(),
            decreases dets.len() - si,
        {
            let det = &item.solutions[si];
            match score_pair(gt, det, gi, si, cfg) {
                Ok(Some(h)) => {
                    hits.push(h);
                },
                Ok(None) => {},
                Err(e) => {
                    assert(is_first_stray(gts, gi as int));
                    return Err(e);
                },
            }
            si += 1;
        }
        gi += 1;
    }
    Ok(hits)
}

} // verus!
