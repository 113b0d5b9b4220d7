//! Folding the outcome of a frame into the running totals.

use vstd::prelude::*;
use crate::config::{ScoreConfig, MAX_STEP, SCORE_UNIT};
use crate::error::ScoreError;
use crate::geometry::{iou, UNIT};
use crate::matching::{
    candidates, collect_hits, frame_fails, frame_hits, hit_in_range, is_first_stray,
    lemma_candidates_in_range, lemma_identical_pair, lemma_incompatible_frame,
    lemma_unclassed_scores_nothing, pair_hit, row_hits, Hit,
};
use crate::records::{IndexItem, SignDetection};
use crate::rules::class_modifier;
use crate::selection::{
    lemma_prune_shrinks, lemma_select_one_to_one, lemma_select_subset, prune, select, select_hits,
};
use crate::sign_class::SignClass;
use crate::table::{
    bump, class_penalty, class_score, class_set, distinct_classes, entries_within, find_class,
    lemma_class_totals, penalty_within, score_within, table_view, ClassScore,
};

verus! {

/// Solution score and statistics, in parts of `SCORE_UNIT`.
#[derive(Debug, Clone)]
pub struct ScoreStats {
    pub score: i128,
    pub penalty: i128,
    /// Number of detections scored so far.
    pub detections: u64,
    /// Score and penalty of each class that a scored detection has claimed;
    /// no class has two entries.
    pub per_class: Vec<ClassScore>,
}

/// The totals as mathematical values, with the per-class table as a map.
pub struct StatsView {
    pub score: int,
    pub penalty: int,
    pub detections: nat,
    pub per_class: Map<SignClass, (int, int)>,
}

impl View for ScoreStats {
    type V = StatsView;

    open spec fn view(&self) -> StatsView {
        StatsView {
            score: self.score as int,
            penalty: self.penalty as int,
            detections: self.detections as nat,
            per_class: table_view(self.per_class@),
        }
    }
}

/// The class under which a detection is reported: its own, cut to two
/// segments.
pub open spec fn report_class(dets: Seq<SignDetection>, j: int) -> SignClass {
    dets[j].class.truncated()
}

/// Detection `j` is the detection of a selected candidate.
pub open spec fn matched(sel: Seq<Hit>, j: int) -> bool {
    exists|k: int| 0 <= k < sel.len() && (#[trigger] sel[k]).sol_idx == j
}

/// The selected candidate of detection `j`, if it has one (the first, should
/// there be several).
pub open spec fn hit_for(sel: Seq<Hit>, j: int) -> Option<Hit>
    decreases sel.len(),
{
    if sel.len() == 0 {
        None
    } else {
        match hit_for(sel.drop_last(), j) {
            Some(h) => Some(h),
            None => if sel.last().sol_idx == j {
                Some(sel.last())
            } else {
                None
            },
        }
    }
}

/// For each of `n` detections its selected candidate, if it has one.
pub open spec fn outcomes(sel: Seq<Hit>, n: int) -> Seq<Option<Hit>> {
    Seq::new(n as nat, |j: int| hit_for(sel, j))
}

/// How many of the first `n` detections have no selected candidate.
pub open spec fn unmatched_count(sel: Seq<Hit>, n: int) -> int
    decreases n,
{
    if n <= 0 {
        0
    } else {
        unmatched_count(sel, n - 1) + if matched(sel, n - 1) {
            0int
        } else {
            1int
        }
    }
}

/// How many of the first `n` detections have no selected candidate and are
/// reported under class `c`.
pub open spec fn class_unmatched(sel: Seq<Hit>, dets: Seq<SignDetection>, c: SignClass, n: int) -> int
    decreases n,
{
    if n <= 0 {
        0
    } else {
        class_unmatched(sel, dets, c, n - 1) + if !matched(sel, n - 1) && report_class(dets, n - 1)
            == c {
            1int
        } else {
            0int
        }
    }
}

/// The sum of the final scores of the selected candidates.
pub open spec fn sum_scores(sel: Seq<Hit>) -> int
    decreases sel.len(),
{
    if sel.len() == 0 {
        0
    } else {
        sum_scores(sel.drop_last()) + sel.last().score
    }
}

/// The sum of the final scores of the selected candidates whose detection is
/// reported under class `c`.
pub open spec fn class_gain(sel: Seq<Hit>, dets: Seq<SignDetection>, c: SignClass) -> int
    decreases sel.len(),
{
    if sel.len() == 0 {
        0
    } else {
        class_gain(sel.drop_last(), dets, c) + if report_class(dets, sel.last().sol_idx as int)
            == c {
            sel.last().score as int
        } else {
            0
        }
    }
}

/// Some detection is reported under class `c`.
pub open spec fn claims_class(dets: Seq<SignDetection>, c: SignClass) -> bool {
    exists|j: int| 0 <= j < dets.len() && (#[trigger] dets[j]).class.truncated() == c
}

/// What the totals hold for a class: nothing where the class has no entry.
pub open spec fn held(v: StatsView, c: SignClass) -> (int, int) {
    if v.per_class.dom().contains(c) {
        v.per_class[c]
    } else {
        (0, 0)
    }
}

/// What a frame adds to a class.
pub open spec fn class_delta(sel: Seq<Hit>, dets: Seq<SignDetection>, pen: int, c: SignClass) -> (
    int,
    int,
) {
    let lost = class_unmatched(sel, dets, c, dets.len() as int);
    (class_gain(sel, dets, c) - pen * lost, pen * lost)
}

/// The totals after a frame with detections `dets`, of which the candidates
/// `sel` were selected: each selected candidate adds its final score, each
/// detection without one costs the penalty, and both go to the class under
/// which the detection is reported.
pub open spec fn absorb(v: StatsView, sel: Seq<Hit>, dets: Seq<SignDetection>, pen: int) -> StatsView {
    let n = dets.len() as int;
    StatsView {
        score: v.score + sum_scores(sel) - pen * unmatched_count(sel, n),
        penalty: v.penalty + pen * unmatched_count(sel, n),
        detections: v.detections + dets.len(),
        per_class: Map::new(
            |c: SignClass| v.per_class.dom().contains(c) || claims_class(dets, c),
            |c: SignClass|
                (
                    held(v, c).0 + class_delta(sel, dets, pen, c).0,
                    held(v, c).1 + class_delta(sel, dets, pen, c).1,
                ),
        ),
    }
}

/// The selected candidates of a frame.
pub open spec fn frame_selection(item: IndexItem, cfg: ScoreConfig) -> Seq<Hit> {
    select(candidates(item.gtruth@, item.solutions@, cfg))
}

impl ScoreStats {
    /// No class has two entries, and no total is beyond what the detections
    /// scored so far can have brought about.
    pub open spec fn wf(self) -> bool {
        &&& distinct_classes(self.per_class@)
        &&& score_within(self.score as int, self.detections as int)
        &&& penalty_within(self.penalty as int, self.detections as int)
        &&& entries_within(self.per_class@, self.detections as int)
    }

    /// Totals before the first frame.
    pub fn new() -> (r: ScoreStats)
        ensures
            r.wf(),
            r@.score == 0,
            r@.penalty == 0,
            r@.detections == 0,
            r@.per_class == Map::<SignClass, (int, int)>::empty(),
    {
        let r = ScoreStats { score: 0, penalty: 0, detections: 0, per_class: Vec::new() };
        r
    }
}

impl ScoreStats {
    /// Whether no class has two entries and no total is beyond what the
    /// detections scored so far can have brought about.
    pub fn is_wf(&self) -> (r: bool)
        ensures
            r == self.wf(),
    {
        let bound: i128 = (self.detections as i128) * (MAX_STEP as i128);
        if self.score < -bound || self.score > bound || self.penalty < 0 || self.penalty > bound {
            return false;
        }
        let n = self.per_class.len();
        let mut i: usize = 0;
        while i < n
            invariant
                0 <= i <= n,
                n == self.per_class@.len(),
                bound == self.detections * MAX_STEP,
                forall|a: int, b: int|
                    0 <= a < b < n && a < i ==> (#[trigger] self.per_class@[a]).class != (
                    #[trigger] self.per_class@[b]).class,
                forall|a: int|
                    0 <= a < i ==> score_within(
                        (#[trigger] self.per_class@[a]).score as int,
                        self.detections as int,
                    ) && penalty_within(self.per_class@[a].penalty as int, self.detections as int),
            decreases n - i,
        {
            let e = self.per_class[i];
            if e.score < -bound || e.score > bound || e.penalty < 0 || e.penalty > bound {
                return false;
            }
            let mut k: usize = i + 1;
            while k < n
                invariant
                    0 <= i < k <= n,
                    n == self.per_class@.len(),
                    e == self.per_class@[i as int],
                    forall|b: int| i < b < k ==> e.class != (#[trigger] self.per_class@[b]).class,
                decreases n - k,
            {
                if self.per_class[k].class == e.class {
                    return false;
                }
                k += 1;
            }
            i += 1;
        }
        true
    }
}

impl ScoreStats {
    /// Score and penalty held for a class, if the class has an entry.
    pub fn class_totals(&self, class: SignClass) -> (r: Option<(i128, i128)>)
        requires
            self.wf(),
        ensures
            r is Some <==> self@.per_class.dom().contains(class),
            r matches Some(t) ==> self@.per_class[class] == (t.0 as int, t.1 as int),
    {
        proof {
            lemma_class_totals(self.per_class@, class);
        }
        match find_class(&self.per_class, class) {
            Some(i) => {
                let e = self.per_class[i];
                Some((e.score, e.penalty))
            },
            None => None,
        }
    }
}

impl Default for ScoreStats {
    fn default() -> (r: ScoreStats)
        ensures
            r.wf(),
            r@.score == 0,
            r@.penalty == 0,
            r@.detections == 0,
            r@.per_class == Map::<SignClass, (int, int)>::empty(),
    {
        ScoreStats::new()
    }
}

proof fn lemma_matched_push(front: Seq<Hit>, last: Hit, j: int)
    ensures
        matched(front.push(last), j) <==> matched(front, j) || last.sol_idx == j,
{
    let sel = front.push(last);
    if matched(front, j) {
        let k = choose|k: int| 0 <= k < front.len() && (#[trigger] front[k]).sol_idx == j;
        assert(sel[k].sol_idx == j);
    }
    if last.sol_idx == j {
        assert(sel[front.len() as int].sol_idx == j);
    }
}

proof fn lemma_unmatched_push(front: Seq<Hit>, last: Hit, n: int)
    requires
        !matched(front, last.sol_idx as int),
    ensures
        unmatched_count(front.push(last), n) == unmatched_count(front, n) - if last.sol_idx < n {
            1int
        } else {
            0int
        },
    decreases n,
{
    if n > 0 {
        lemma_unmatched_push(front, last, n - 1);
        lemma_matched_push(front, last, n - 1);
    }
}

/// Without selected candidates every detection is unmatched.
pub proof fn lemma_unmatched_all(n: int)
    requires
        0 <= n,
    ensures
        unmatched_count(Seq::<Hit>::empty(), n) == n,
    decreases n,
{
    if n > 0 {
        lemma_unmatched_all(n - 1);
    }
}

proof fn lemma_unmatched_monotonic(sel: Seq<Hit>, a: int, b: int)
    requires
        0 <= a <= b,
    ensures
        0 <= unmatched_count(sel, a) <= unmatched_count(sel, b),
        unmatched_count(sel, a) <= a,
    decreases b,
{
    if a < b {
        lemma_unmatched_monotonic(sel, a, b - 1);
    } else if a > 0 {
        lemma_unmatched_monotonic(sel, a - 1, a - 1);
    }
}

/// No two of the candidates share their detection.
pub open spec fn distinct_detections(sel: Seq<Hit>) -> bool {
    forall|i: int, j: int|
        0 <= i < j < sel.len() ==> (#[trigger] sel[i]).sol_idx != (#[trigger] sel[j]).sol_idx
}

/// Where no two selected candidates share their detection, each of the `n`
/// detections is either that of one selected candidate or unmatched.
pub proof fn lemma_matched_count(sel: Seq<Hit>, n: int)
    requires
        0 <= n,
        distinct_detections(sel),
        forall|k: int| 0 <= k < sel.len() ==> (#[trigger] sel[k]).sol_idx < n,
    ensures
        sel.len() + unmatched_count(sel, n) == n,
        0 <= unmatched_count(sel, n),
    decreases sel.len(),
{
    lemma_unmatched_monotonic(sel, 0, n);
    if sel.len() == 0 {
        assert(sel == Seq::<Hit>::empty());
        lemma_unmatched_all(n);
    } else {
        let front = sel.drop_last();
        let last = sel.last();
        assert(sel == front.push(last));
        lemma_matched_count(front, n);
        lemma_unmatched_push(front, last, n);
    }
}

/// With nothing selected every detection is charged: the score falls and
/// the penalty grows by the penalty constant times their number.
pub proof fn lemma_absorb_nothing_selected(v: StatsView, dets: Seq<SignDetection>, pen: int)
    ensures
        absorb(v, Seq::<Hit>::empty(), dets, pen).score == v.score - pen * dets.len(),
        absorb(v, Seq::<Hit>::empty(), dets, pen).penalty == v.penalty + pen * dets.len(),
{
    lemma_unmatched_all(dets.len() as int);
}

/// The totals after a frame, taken in on the totals `v`.
pub open spec fn after_frame(v: StatsView, item: IndexItem, cfg: ScoreConfig) -> StatsView {
    absorb(v, frame_selection(item, cfg), item.solutions@, cfg.fp_penalty as int)
}

/// A frame without ground truth selects nothing, so all its detections are
/// unmatched: the score falls and the penalty grows by the penalty constant
/// times the number of detections.
pub proof fn lemma_frame_without_ground_truth(item: IndexItem, cfg: ScoreConfig, v: StatsView)
    requires
        item.gtruth@.len() == 0,
    ensures
        frame_selection(item, cfg) == Seq::<Hit>::empty(),
        unmatched_count(frame_selection(item, cfg), item.solutions@.len() as int)
            == item.solutions@.len(),
        after_frame(v, item, cfg).score == v.score - item.solutions@.len() * cfg.fp_penalty,
        after_frame(v, item, cfg).penalty == v.penalty + item.solutions@.len() * cfg.fp_penalty,
{
    assert(frame_selection(item, cfg) == Seq::<Hit>::empty());
    lemma_unmatched_all(item.solutions@.len() as int);
    lemma_absorb_nothing_selected(v, item.solutions@, cfg.fp_penalty as int);
    assert(cfg.fp_penalty * item.solutions@.len() == item.solutions@.len() * cfg.fp_penalty)
        by (nonlinear_arith);
}

/// A frame in which the classes of every pair are incompatible selects
/// nothing, so all its detections are unmatched whatever their overlaps: the
/// score falls and the penalty grows by the penalty constant times the
/// number of detections.
pub proof fn lemma_frame_of_incompatible_classes(item: IndexItem, cfg: ScoreConfig, v: StatsView)
    requires
        forall|gi: int, si: int|
            0 <= gi < item.gtruth@.len() && 0 <= si < item.solutions@.len() ==> class_modifier(
                (#[trigger] item.gtruth@[gi]).class,
                (#[trigger] item.solutions@[si]).class,
            ) is None,
    ensures
        frame_selection(item, cfg) == Seq::<Hit>::empty(),
        unmatched_count(frame_selection(item, cfg), item.solutions@.len() as int)
            == item.solutions@.len(),
        after_frame(v, item, cfg).score == v.score - item.solutions@.len() * cfg.fp_penalty,
        after_frame(v, item, cfg).penalty == v.penalty + item.solutions@.len() * cfg.fp_penalty,
{
    lemma_incompatible_frame(item.gtruth@, item.solutions@, cfg);
    assert(frame_selection(item, cfg) == Seq::<Hit>::empty());
    lemma_unmatched_all(item.solutions@.len() as int);
    lemma_absorb_nothing_selected(v, item.solutions@, cfg.fp_penalty as int);
    assert(cfg.fp_penalty * item.solutions@.len() == item.solutions@.len() * cfg.fp_penalty)
        by (nonlinear_arith);
}

/// The candidates with annotation and detection in each other's place.
spec fn mirrored(sel: Seq<Hit>) -> Seq<Hit> {
    Seq::new(
        sel.len(),
        |k: int|
            Hit {
                gt_idx: sel[k].sol_idx,
                sol_idx: sel[k].gt_idx,
                iou: sel[k].iou,
                score: sel[k].score,
                s: sel[k].s,
                k1: sel[k].k1,
                k2: sel[k].k2,
                k3: sel[k].k3,
            },
    )
}

/// The selection of a frame is one-to-one, names only annotations and
/// detections of the frame, has no more candidates than the frame has
/// annotations or detections, and leaves each detection either with one
/// selected candidate or unmatched.
pub proof fn lemma_frame_selection(item: IndexItem, cfg: ScoreConfig)
    requires
        item.wf(),
        cfg.wf(),
    ensures
        forall|i: int, j: int|
            0 <= i < j < frame_selection(item, cfg).len() ==> {
                &&& (#[trigger] frame_selection(item, cfg)[i]).gt_idx != (#[trigger] frame_selection(
                    item,
                    cfg,
                )[j]).gt_idx
                &&& frame_selection(item, cfg)[i].sol_idx != frame_selection(item, cfg)[j].sol_idx
            },
        forall|k: int|
            0 <= k < frame_selection(item, cfg).len() ==> {
                &&& (#[trigger] frame_selection(item, cfg)[k]).gt_idx < item.gtruth@.len()
                &&& frame_selection(item, cfg)[k].sol_idx < item.solutions@.len()
            },
        frame_selection(item, cfg).len() <= item.gtruth@.len(),
        frame_selection(item, cfg).len() <= item.solutions@.len(),
        unmatched_count(frame_selection(item, cfg), item.solutions@.len() as int)
            == item.solutions@.len() - frame_selection(item, cfg).len(),
{
    let all = candidates(item.gtruth@, item.solutions@, cfg);
    let sel = frame_selection(item, cfg);
    vstd::std_specs::vec::axiom_spec_len(&item.gtruth);
    vstd::std_specs::vec::axiom_spec_len(&item.solutions);
    lemma_candidates_in_range(item.gtruth@, item.solutions@, cfg);
    lemma_select_subset(all);
    lemma_select_one_to_one(all);
    assert forall|k: int| 0 <= k < sel.len() implies (#[trigger] sel[k]).gt_idx
        < item.gtruth@.len() && sel[k].sol_idx < item.solutions@.len() by {
        assert(sel.contains(sel[k]));
        assert(all.contains(sel[k]));
    }
    assert(distinct_detections(sel)) by {
        assert forall|i: int, j: int| 0 <= i < j < sel.len() implies (#[trigger] sel[i]).sol_idx != (
        #[trigger] sel[j]).sol_idx by {
            assert(sel[i].gt_idx != sel[j].gt_idx && sel[i].sol_idx != sel[j].sol_idx);
        }
    }
    lemma_matched_count(sel, item.solutions@.len() as int);
    let mir = mirrored(sel);
    assert(distinct_detections(mir)) by {
        assert forall|i: int, j: int| 0 <= i < j < mir.len() implies (#[trigger] mir[i]).sol_idx != (
        #[trigger] mir[j]).sol_idx by {
            assert(sel[i].gt_idx != sel[j].gt_idx && sel[i].sol_idx != sel[j].sol_idx);
        }
    }
    assert forall|k: int| 0 <= k < mir.len() implies (#[trigger] mir[k]).sol_idx
        < item.gtruth@.len() by {
        assert(sel[k].gt_idx < item.gtruth@.len());
    }
    lemma_matched_count(mir, item.gtruth@.len() as int);
}

/// What a frame does to the totals: the score grows by the scores of the
/// selected candidates and falls by the penalty constant for each detection
/// without one; the penalty grows by the same; and since no annotation is
/// selected twice, at least the detections in excess of the annotations are
/// charged.
pub proof fn lemma_frame_totals(item: IndexItem, cfg: ScoreConfig, v: StatsView)
    requires
        item.wf(),
        cfg.wf(),
    ensures
        after_frame(v, item, cfg).score == v.score + sum_scores(frame_selection(item, cfg))
            - cfg.fp_penalty * (item.solutions@.len() - frame_selection(item, cfg).len()),
        after_frame(v, item, cfg).penalty == v.penalty + cfg.fp_penalty * (item.solutions@.len()
            - frame_selection(item, cfg).len()),
        after_frame(v, item, cfg).detections == v.detections + item.solutions@.len(),
        item.solutions@.len() > item.gtruth@.len() ==> after_frame(v, item, cfg).penalty - v.penalty
            >= cfg.fp_penalty * (item.solutions@.len() - item.gtruth@.len()),
        after_frame(v, item, cfg).penalty >= v.penalty,
{
    lemma_frame_selection(item, cfg);
    let pen = cfg.fp_penalty as int;
    let left = item.solutions@.len() - frame_selection(item, cfg).len();
    let excess = item.solutions@.len() - item.gtruth@.len();
    assert(pen * left >= 0) by (nonlinear_arith)
        requires
            pen >= 0,
            left >= 0,
    ;
    if excess > 0 {
        assert(pen * left >= pen * excess) by (nonlinear_arith)
            requires
                pen >= 0,
                left >= excess,
        ;
    }
}

/// A frame of one annotation and one detection that are alike (the same
/// two-segment class, the same box of positive area, no temporary flag set,
/// no auxiliary text) selects that pair with the full score: the total grows
/// by one and nothing is charged.
pub proof fn lemma_frame_of_identical_pair(item: IndexItem, cfg: ScoreConfig, v: StatsView)
    requires
        item.gtruth@.len() == 1,
        item.solutions@.len() == 1,
        item.gtruth@[0].class is Double,
        item.solutions@[0].class == item.gtruth@[0].class,
        item.solutions@[0].bbox == item.gtruth@[0].bbox,
        item.gtruth@[0].bbox.wf(),
        item.gtruth@[0].bbox.area() > 0,
        !item.gtruth@[0].temporary,
        item.solutions@[0].temporary is None,
        item.gtruth@[0].data is None,
        item.solutions@[0].data is None,
        cfg.wf(),
    ensures
        frame_selection(item, cfg) == seq![
            Hit { gt_idx: 0, sol_idx: 0, iou: UNIT, score: SCORE_UNIT, s: UNIT, k1: 0, k2: 0, k3: 0 },
        ],
        after_frame(v, item, cfg).score == v.score + SCORE_UNIT,
        after_frame(v, item, cfg).penalty == v.penalty,
{
    let gts = item.gtruth@;
    let dets = item.solutions@;
    let h = Hit { gt_idx: 0, sol_idx: 0, iou: UNIT, score: SCORE_UNIT, s: UNIT, k1: 0, k2: 0, k3: 0 };
    lemma_identical_pair(gts[0], dets[0], 0, 0, cfg);
    let all = candidates(gts, dets, cfg);
    assert(all =~= seq![h]) by {
        reveal_with_fuel(frame_hits, 2);
        reveal_with_fuel(row_hits, 2);
    }
    lemma_prune_shrinks(all, 0);
    let sel = frame_selection(item, cfg);
    assert(sel =~= seq![h]) by {
        reveal_with_fuel(select, 2);
    }
    assert(sum_scores(sel) == SCORE_UNIT) by {
        reveal_with_fuel(sum_scores, 2);
    }
    assert(unmatched_count(sel, 1) == 0) by {
        reveal_with_fuel(unmatched_count, 2);
    }
}

/// A selected candidate whose annotation has no class adds nothing to the
/// score, and its detection is not among the unmatched.
pub proof fn lemma_unclassed_match(item: IndexItem, cfg: ScoreConfig, k: int)
    requires
        item.wf(),
        cfg.wf(),
        0 <= k < frame_selection(item, cfg).len(),
        item.gtruth@[frame_selection(item, cfg)[k].gt_idx as int].class is Na,
    ensures
        frame_selection(item, cfg)[k].score == 0,
        matched(frame_selection(item, cfg), frame_selection(item, cfg)[k].sol_idx as int),
{
    let all = candidates(item.gtruth@, item.solutions@, cfg);
    let sel = frame_selection(item, cfg);
    let h = sel[k];
    vstd::std_specs::vec::axiom_spec_len(&item.gtruth);
    vstd::std_specs::vec::axiom_spec_len(&item.solutions);
    lemma_candidates_in_range(item.gtruth@, item.solutions@, cfg);
    lemma_select_subset(all);
    assert(sel.contains(h));
    assert(all.contains(h));
    lemma_unclassed_scores_nothing(
        item.gtruth@[h.gt_idx as int],
        item.solutions@[h.sol_idx as int],
        h.gt_idx as int,
        h.sol_idx as int,
        cfg,
    );
    assert(sel[k].sol_idx == h.sol_idx);
}

/// A frame of one annotation without a class and one detection that
/// overlaps it enough leaves score and penalty as they were, whatever the
/// overlap, the class of the detection and the other modifiers: the pair is
/// selected, scores nothing, and the detection is not charged.
pub proof fn lemma_frame_of_unclassed_pair(item: IndexItem, cfg: ScoreConfig, v: StatsView)
    requires
        item.gtruth@.len() == 1,
        item.solutions@.len() == 1,
        item.gtruth@[0].class is Na,
        iou(item.gtruth@[0].bbox, item.solutions@[0].bbox) >= cfg.iou_low,
    ensures
        frame_selection(item, cfg).len() == 1,
        frame_selection(item, cfg)[0].score == 0,
        matched(frame_selection(item, cfg), 0),
        after_frame(v, item, cfg).score == v.score,
        after_frame(v, item, cfg).penalty == v.penalty,
{
    let gts = item.gtruth@;
    let dets = item.solutions@;
    lemma_unclassed_scores_nothing(gts[0], dets[0], 0, 0, cfg);
    let h = pair_hit(gts[0], dets[0], 0, 0, cfg)->0;
    assert(h.sol_idx == 0 && h.score == 0);
    let all = candidates(gts, dets, cfg);
    assert(all =~= seq![h]) by {
        reveal_with_fuel(frame_hits, 2);
        reveal_with_fuel(row_hits, 2);
    }
    lemma_prune_shrinks(all, 0);
    assert(prune(all, h) =~= Seq::<Hit>::empty());
    let sel = frame_selection(item, cfg);
    assert(sel =~= seq![h]) by {
        reveal_with_fuel(select, 2);
    }
    assert(sel.drop_last() =~= Seq::<Hit>::empty());
    assert(sum_scores(sel) == 0) by {
        reveal_with_fuel(sum_scores, 2);
    }
    assert(matched(sel, 0)) by {
        assert(sel[0].sol_idx == 0);
    }
    assert(unmatched_count(sel, 1) == 0) by {
        reveal_with_fuel(unmatched_count, 2);
    }
    assert(cfg.fp_penalty * 0 == 0);
}

/// The candidates name detections of the frame.
pub open spec fn names_detections(sel: Seq<Hit>, dets: Seq<SignDetection>) -> bool {
    forall|k: int| 0 <= k < sel.len() ==> (#[trigger] sel[k]).sol_idx < dets.len()
}

proof fn lemma_unclaimed_class(sel: Seq<Hit>, dets: Seq<SignDetection>, c: SignClass, n: int)
    requires
        names_detections(sel, dets),
        !claims_class(dets, c),
        n <= dets.len(),
    ensures
        class_gain(sel, dets, c) == 0,
        class_unmatched(sel, dets, c, n) == 0,
    decreases sel.len(), n,
{
    if n > 0 {
        lemma_unclaimed_class(sel, dets, c, n - 1);
    }
    if sel.len() > 0 {
        let front = sel.drop_last();
        lemma_unclaimed_class(front, dets, c, 0);
    }
}

proof fn lemma_held_after(
    v: StatsView,
    sel: Seq<Hit>,
    dets: Seq<SignDetection>,
    pen: int,
    c: SignClass,
)
    requires
        names_detections(sel, dets),
    ensures
        held(absorb(v, sel, dets, pen), c).0 == held(v, c).0 + class_delta(sel, dets, pen, c).0,
        held(absorb(v, sel, dets, pen), c).1 == held(v, c).1 + class_delta(sel, dets, pen, c).1,
{
    if !claims_class(dets, c) {
        lemma_unclaimed_class(sel, dets, c, dets.len() as int);
    }
}

/// The order in which two frames are taken in does not matter: the totals
/// come out the same.
pub proof fn lemma_absorb_commutes(
    v: StatsView,
    sel1: Seq<Hit>,
    dets1: Seq<SignDetection>,
    sel2: Seq<Hit>,
    dets2: Seq<SignDetection>,
    pen: int,
)
    requires
        names_detections(sel1, dets1),
        names_detections(sel2, dets2),
    ensures
        absorb(absorb(v, sel1, dets1, pen), sel2, dets2, pen) == absorb(
            absorb(v, sel2, dets2, pen),
            sel1,
            dets1,
            pen,
        ),
{
    let a = absorb(absorb(v, sel1, dets1, pen), sel2, dets2, pen);
    let b = absorb(absorb(v, sel2, dets2, pen), sel1, dets1, pen);
    assert forall|c: SignClass| #[trigger] a.per_class.dom().contains(c) implies a.per_class[c]
        == b.per_class[c] by {
        lemma_held_after(v, sel1, dets1, pen, c);
        lemma_held_after(v, sel2, dets2, pen, c);
    }
    assert(a.per_class =~= b.per_class);
}

/// The selected candidate of a detection, if it has one.
pub fn find_hit(selected: &Vec<Hit>, j: usize) -> (r: Option<Hit>)
    ensures
        r == hit_for(selected@, j as int),
        r is Some <==> matched(selected@, j as int),
        r matches Some(h) ==> h.sol_idx == j && selected@.contains(h),
{
    let mut i: usize = 0;
    while i < selected.len()
        invariant
            0 <= i <= selected@.len(),
            hit_for(selected@.take(i as int), j as int) is None,
            forall|k: int| 0 <= k < i ==> (#[trigger] selected@[k]).sol_idx != j,
        decreases selected@.len() - i,
    {
        let h = selected[i];
        proof {
            assert(selected@.take(i + 1).drop_last() == selected@.take(i as int));
        }
        if h.sol_idx == j {
            proof {
                lemma_hit_for_extends(selected@, i + 1, j as int);
            }
            return Some(h);
        }
        i += 1;
    }
    assert(selected@.take(selected@.len() as int) == selected@);
    None
}

proof fn lemma_hit_for_extends(sel: Seq<Hit>, i: int, j: int)
    requires
        0 <= i <= sel.len(),
        hit_for(sel.take(i), j) is Some,
    ensures
        hit_for(sel, j) == hit_for(sel.take(i), j),
    decreases sel.len() - i,
{
    if i < sel.len() {
        assert(sel.take(i + 1).drop_last() == sel.take(i));
        lemma_hit_for_extends(sel, i + 1, j);
    } else {
        assert(sel.take(i) == sel);
    }
}

/// Some selected candidate's detection is reported under class `c`.
spec fn gains_class(sel: Seq<Hit>, dets: Seq<SignDetection>, c: SignClass) -> bool {
    exists|k: int| 0 <= k < sel.len() && report_class(dets, (#[trigger] sel[k]).sol_idx as int) == c
}

/// Some unmatched detection among the first `n` is reported under class `c`.
spec fn loses_class(sel: Seq<Hit>, dets: Seq<SignDetection>, c: SignClass, n: int) -> bool {
    exists|j: int| 0 <= j < n && !matched(sel, j) && (#[trigger] dets[j]).class.truncated() == c
}

/// The classes under which the detections of the selected candidates are
/// reported.
spec fn gained_classes(sel: Seq<Hit>, dets: Seq<SignDetection>) -> Set<SignClass> {
    Set::new(|c: SignClass| gains_class(sel, dets, c))
}

/// The classes under which the unmatched detections among the first `n` are
/// reported.
spec fn lost_classes(sel: Seq<Hit>, dets: Seq<SignDetection>, n: int) -> Set<SignClass> {
    Set::new(|c: SignClass| loses_class(sel, dets, c, n))
}

/// The classes under which the detections are reported.
spec fn claimed_classes(dets: Seq<SignDetection>) -> Set<SignClass> {
    Set::new(|c: SignClass| claims_class(dets, c))
}

proof fn lemma_gained_step(prev: Seq<Hit>, hit: Hit, dets: Seq<SignDetection>)
    ensures
        gained_classes(prev.push(hit), dets) == gained_classes(prev, dets).insert(
            report_class(dets, hit.sol_idx as int),
        ),
{
    let cur = prev.push(hit);
    let class = report_class(dets, hit.sol_idx as int);
    assert forall|c: SignClass| gains_class(cur, dets, c) == (gains_class(prev, dets, c) || c
        == class) by {
        if gains_class(prev, dets, c) {
            let k = choose|k: int|
                0 <= k < prev.len() && report_class(dets, (#[trigger] prev[k]).sol_idx as int) == c;
            assert(report_class(dets, cur[k].sol_idx as int) == c);
        }
        if c == class {
            assert(report_class(dets, cur[prev.len() as int].sol_idx as int) == c);
        }
        if gains_class(cur, dets, c) {
            let k = choose|k: int|
                0 <= k < cur.len() && report_class(dets, (#[trigger] cur[k]).sol_idx as int) == c;
            if k < prev.len() {
                assert(report_class(dets, prev[k].sol_idx as int) == c);
            }
        }
    }
    assert(gained_classes(cur, dets) =~= gained_classes(prev, dets).insert(class));
}

proof fn lemma_lost_step(sel: Seq<Hit>, dets: Seq<SignDetection>, j: int)
    requires
        0 <= j < dets.len(),
    ensures
        lost_classes(sel, dets, j + 1) == if matched(sel, j) {
            lost_classes(sel, dets, j)
        } else {
            lost_classes(sel, dets, j).insert(report_class(dets, j))
        },
{
    let class = report_class(dets, j);
    assert forall|c: SignClass|
        loses_class(sel, dets, c, j + 1) == (loses_class(sel, dets, c, j) || (!matched(sel, j) && c
            == class)) by {
        if loses_class(sel, dets, c, j) {
            let w = choose|w: int|
                0 <= w < j && !matched(sel, w) && (#[trigger] dets[w]).class.truncated() == c;
            assert(0 <= w < j + 1 && !matched(sel, w) && dets[w].class.truncated() == c);
        }
        if !matched(sel, j) && c == class {
            assert(!matched(sel, j) && dets[j].class.truncated() == c);
        }
        if loses_class(sel, dets, c, j + 1) {
            let w = choose|w: int|
                0 <= w < j + 1 && !matched(sel, w) && (#[trigger] dets[w]).class.truncated() == c;
            if w < j {
                assert(loses_class(sel, dets, c, j));
            }
        }
    }
    if matched(sel, j) {
        assert(lost_classes(sel, dets, j + 1) =~= lost_classes(sel, dets, j));
    } else {
        assert(lost_classes(sel, dets, j + 1) =~= lost_classes(sel, dets, j).insert(class));
    }
}

/// Every detection is that of a selected candidate or unmatched, so the
/// classes of both kinds together are the classes of all detections.
proof fn lemma_claimed_classes(sel: Seq<Hit>, dets: Seq<SignDetection>)
    requires
        forall|k: int| 0 <= k < sel.len() ==> (#[trigger] sel[k]).sol_idx < dets.len(),
    ensures
        gained_classes(sel, dets).union(lost_classes(sel, dets, dets.len() as int))
            == claimed_classes(dets),
{
    let n = dets.len() as int;
    assert forall|c: SignClass|
        claims_class(dets, c) == (gains_class(sel, dets, c) || loses_class(sel, dets, c, n)) by {
        if claims_class(dets, c) {
            let j = choose|j: int| 0 <= j < dets.len() && (#[trigger] dets[j]).class.truncated() == c;
            if matched(sel, j) {
                let k = choose|k: int| 0 <= k < sel.len() && (#[trigger] sel[k]).sol_idx == j;
                assert(report_class(dets, sel[k].sol_idx as int) == c);
            } else {
                assert(loses_class(sel, dets, c, n));
            }
        }
        if gains_class(sel, dets, c) {
            let k = choose|k: int|
                0 <= k < sel.len() && report_class(dets, (#[trigger] sel[k]).sol_idx as int) == c;
            assert(dets[sel[k].sol_idx as int].class.truncated() == c);
        }
        if loses_class(sel, dets, c, n) {
            let j = choose|j: int|
                0 <= j < n && !matched(sel, j) && (#[trigger] dets[j]).class.truncated() == c;
            assert(dets[j].class.truncated() == c);
        }
    }
    assert(gained_classes(sel, dets).union(lost_classes(sel, dets, n)) =~= claimed_classes(dets));
}

/// Adds the final score of each selected candidate to the total and to the
/// class of its detection.
fn credit_hits(
    stats: &mut ScoreStats,
    selected: &Vec<Hit>,
    dets: &Vec<SignDetection>,
    Ghost(base): Ghost<int>,
)
    requires
        distinct_classes(old(stats).per_class@),
        entries_within(old(stats).per_class@, base),
        score_within(old(stats).score as int, base),
        0 <= base,
        base + selected@.len() <= u64::MAX,
        forall|k: int|
            0 <= k < selected@.len() ==> (#[trigger] selected@[k]).sol_idx < dets@.len()
                && hit_in_range(selected@[k]),
    ensures
        final(stats).score == old(stats).score + sum_scores(selected@),
        final(stats).penalty == old(stats).penalty,
        final(stats).detections == old(stats).detections,
        distinct_classes(final(stats).per_class@),
        entries_within(final(stats).per_class@, base + selected@.len()),
        score_within(final(stats).score as int, base + selected@.len()),
        forall|c: SignClass|
            class_score(final(stats).per_class@, c) == #[trigger] class_score(
                old(stats).per_class@,
                c,
            ) + class_gain(selected@, dets@, c),
        forall|c: SignClass|
            class_penalty(final(stats).per_class@, c) == #[trigger] class_penalty(
                old(stats).per_class@,
                c,
            ),
        class_set(final(stats).per_class@) == class_set(old(stats).per_class@).union(
            gained_classes(selected@, dets@),
        ),
{
    let mut i: usize = 0;
    proof {
        assert(selected@.take(0) == Seq::<Hit>::empty());
        assert(gained_classes(selected@.take(0), dets@) =~= Set::<SignClass>::empty());
        assert(class_set(stats.per_class@).union(Set::<SignClass>::empty()) =~= class_set(
            stats.per_class@,
        ));
    }
    while i < selected.len()
        invariant
            0 <= i <= selected@.len(),
            0 <= base,
            base + selected@.len() <= u64::MAX,
            forall|k: int|
                0 <= k < selected@.len() ==> (#[trigger] selected@[k]).sol_idx < dets@.len()
                    && hit_in_range(selected@[k]),
            stats.score == old(stats).score + sum_scores(selected@.take(i as int)),
            stats.penalty == old(stats).penalty,
            stats.detections == old(stats).detections,
            distinct_classes(stats.per_class@),
            entries_within(stats.per_class@, base + i),
            score_within(stats.score as int, base + i),
            forall|c: SignClass|
                class_score(stats.per_class@, c) == #[trigger] class_score(
                    old(stats).per_class@,
                    c,
                ) + class_gain(selected@.take(i as int), dets@, c),
            forall|c: SignClass|
                class_penalty(stats.per_class@, c) == #[trigger] class_penalty(
                    old(stats).per_class@,
                    c,
                ),
            class_set(stats.per_class@) == class_set(old(stats).per_class@).union(
                gained_classes(selected@.take(i as int), dets@),
            ),
        decreases selected@.len() - i,
    {
        let hit = selected[i];
        let class = dets[hit.sol_idx].class.truncate();
        let ghost prev = selected@.take(i as int);
        let ghost cur = selected@.take(i + 1);
        proof {
            assert(cur.drop_last() == prev);
            assert(cur == prev.push(hit));
            lemma_gained_step(prev, hit, dets@);
            assert(class_set(old(stats).per_class@).union(gained_classes(prev, dets@)).insert(class)
                =~= class_set(old(stats).per_class@).union(gained_classes(cur, dets@)));
        }
        stats.score = stats.score + hit.score as i128;
        bump(&mut stats.per_class, class, hit.score as i128, 0, Ghost(base + i));
        i += 1;
    }
    assert(selected@.take(selected@.len() as int) == selected@);
}

/// Charges the penalty for each detection without a selected candidate, to
/// the total and to the class of the detection.
fn charge_leftovers(
    stats: &mut ScoreStats,
    selected: &Vec<Hit>,
    dets: &Vec<SignDetection>,
    penalty: u64,
    Ghost(base): Ghost<int>,
)
    requires
        distinct_classes(old(stats).per_class@),
        entries_within(old(stats).per_class@, base),
        score_within(old(stats).score as int, base),
        penalty_within(old(stats).penalty as int, base),
        penalty <= MAX_STEP,
        0 <= base,
        base + unmatched_count(selected@, dets@.len() as int) <= u64::MAX,
    ensures
        final(stats).score == old(stats).score - penalty * unmatched_count(
            selected@,
            dets@.len() as int,
        ),
        final(stats).penalty == old(stats).penalty + penalty * unmatched_count(
            selected@,
            dets@.len() as int,
        ),
        final(stats).detections == old(stats).detections,
        distinct_classes(final(stats).per_class@),
        entries_within(
            final(stats).per_class@,
            base + unmatched_count(selected@, dets@.len() as int),
        ),
        score_within(
            final(stats).score as int,
            base + unmatched_count(selected@, dets@.len() as int),
        ),
        penalty_within(
            final(stats).penalty as int,
            base + unmatched_count(selected@, dets@.len() as int),
        ),
        forall|c: SignClass|
            class_score(final(stats).per_class@, c) == #[trigger] class_score(
                old(stats).per_class@,
                c,
            ) - penalty * class_unmatched(selected@, dets@, c, dets@.len() as int),
        forall|c: SignClass|
            class_penalty(final(stats).per_class@, c) == #[trigger] class_penalty(
                old(stats).per_class@,
                c,
            ) + penalty * class_unmatched(selected@, dets@, c, dets@.len() as int),
        class_set(final(stats).per_class@) == class_set(old(stats).per_class@).union(
            lost_classes(selected@, dets@, dets@.len() as int),
        ),
{
    let n = dets.len();
    let mut j: usize = 0;
    proof {
        lemma_unmatched_monotonic(selected@, 0, n as int);
        assert(lost_classes(selected@, dets@, 0) =~= Set::<SignClass>::empty());
        assert(class_set(stats.per_class@).union(Set::<SignClass>::empty()) =~= class_set(
            stats.per_class@,
        ));
    }
    while j < n
        invariant
            0 <= j <= n,
            n == dets@.len(),
            penalty <= MAX_STEP,
            0 <= base,
            base + unmatched_count(selected@, n as int) <= u64::MAX,
            0 <= unmatched_count(selected@, j as int) <= unmatched_count(selected@, n as int),
            stats.score == old(stats).score - penalty * unmatched_count(selected@, j as int),
            stats.penalty == old(stats).penalty + penalty * unmatched_count(selected@, j as int),
            stats.detections == old(stats).detections,
            distinct_classes(stats.per_class@),
            entries_within(stats.per_class@, base + unmatched_count(selected@, j as int)),
            score_within(stats.score as int, base + unmatched_count(selected@, j as int)),
            penalty_within(stats.penalty as int, base + unmatched_count(selected@, j as int)),
            forall|c: SignClass|
                class_score(stats.per_class@, c) == #[trigger] class_score(
                    old(stats).per_class@,
                    c,
                ) - penalty * class_unmatched(selected@, dets@, c, j as int),
            forall|c: SignClass|
                class_penalty(stats.per_class@, c) == #[trigger] class_penalty(
                    old(stats).per_class@,
                    c,
                ) + penalty * class_unmatched(selected@, dets@, c, j as int),
            class_set(stats.per_class@) == class_set(old(stats).per_class@).union(
                lost_classes(selected@, dets@, j as int),
            ),
        decreases n - j,
    {
        let ghost seen = unmatched_count(selected@, j as int);
        let class = dets[j].class.truncate();
        let found = find_hit(selected, j);
        proof {
            lemma_unmatched_monotonic(selected@, j + 1, n as int);
            lemma_lost_step(selected@, dets@, j as int);
            assert(class_set(old(stats).per_class@).union(
                lost_classes(selected@, dets@, j as int),
            ).insert(class) =~= class_set(old(stats).per_class@).union(
                lost_classes(selected@, dets@, j as int).insert(class),
            ));
            assert forall|c: SignClass|
                penalty * class_unmatched(selected@, dets@, c, j + 1) == penalty
                    * #[trigger] class_unmatched(selected@, dets@, c, j as int) + if found is None
                    && c == class {
                    penalty as int
                } else {
                    0
                } by {
                let a = class_unmatched(selected@, dets@, c, j as int);
                assert(penalty * (a + 1) == penalty * a + penalty) by (nonlinear_arith);
            }
            assert(penalty * (seen + 1) == penalty * seen + penalty) by (nonlinear_arith);
        }
        if found.is_none() {
            stats.score = stats.score - penalty as i128;
            stats.penalty = stats.penalty + penalty as i128;
            bump(
                &mut stats.per_class,
                class,
                -(penalty as i128),
                penalty as i128,
                Ghost(base + seen),
            );
        }
        j += 1;
    }
}

/// Compute score stats for given frame.
///
/// The candidates of the frame are collected and resolved greedily; each
/// selected candidate adds its final score to the total and to the class of
/// its detection, and each detection without one is charged the penalty.
/// Annotations without a detection cost nothing. With `verbose` the result
/// tells for each detection its selected candidate; without, it is empty.
///
/// A frame that has a detection and an annotation whose class is a single
/// segment other than the umbrella class is refused with the first such
/// class, and the totals stay as they are.
pub fn update_score(
    stats: &mut ScoreStats,
    item: IndexItem,
    cfg: &ScoreConfig,
    verbose: bool,
) -> (r: Result<Vec<Option<Hit>>, ScoreError>)
    requires
        old(stats).wf(),
        item.wf(),
        cfg.wf(),
        old(stats).detections + item.solutions@.len() <= u64::MAX,
    ensures
        final(stats).wf(),
        r is Err <==> frame_fails(item.gtruth@, item.solutions@),
        r is Err ==> *final(stats) == *old(stats),
        r matches Err(e) ==> exists|i: int|
            is_first_stray(item.gtruth@, i) && e == ScoreError::UnexpectedAnnotationClass(
                item.gtruth@[i].class,
            ),
        r is Ok ==> final(stats)@ == after_frame(old(stats)@, item, *cfg),
        r matches Ok(report) ==> report@ == if verbose {
            outcomes(frame_selection(item, *cfg), item.solutions@.len() as int)
        } else {
            Seq::<Option<Hit>>::empty()
        },
{
    let hits = match collect_hits(&item, cfg) {
        Ok(hits) => hits,
        Err(e) => {
            return Err(e);
        },
    };
    let ghost all = hits@;
    let selected = select_hits(hits);
    let n = item.solutions.len();
    assert(item.gtruth@.len() <= usize::MAX) by {
        vstd::std_specs::vec::axiom_spec_len(&item.gtruth);
    }
    let ghost sel = selected@;
    let ghost dets = item.solutions@;
    let ghost base = stats.detections as int;
    let ghost pen = cfg.fp_penalty as int;
    proof {
        lemma_candidates_in_range(item.gtruth@, dets, *cfg);
        lemma_select_subset(all);
        lemma_select_one_to_one(all);
        assert forall|k: int| 0 <= k < sel.len() implies (#[trigger] sel[k]).sol_idx < dets.len()
            && hit_in_range(sel[k]) by {
            assert(sel.contains(sel[k]));
        }
        lemma_matched_count(sel, n as int);
    }
    credit_hits(stats, &selected, &item.solutions, Ghost(base));
    let ghost mid = stats.per_class@;
    charge_leftovers(stats, &selected, &item.solutions, cfg.fp_penalty, Ghost(base + sel.len()));
    stats.detections = stats.detections + n as u64;
    let mut report: Vec<Option<Hit>> = Vec::new();
    if verbose {
        let mut j: usize = 0;
        while j < n
            invariant
                0 <= j <= n,
                n == dets.len(),
                sel == selected@,
                report@ == outcomes(sel, j as int),
            decreases n - j,
        {
            let found = find_hit(&selected, j);
            report.push(found);
            j += 1;
        }
    }
    proof {
        let before = old(stats)@;
        let after = absorb(before, sel, dets, pen);
        lemma_claimed_classes(sel, dets);
        assert(class_set(stats.per_class@) =~= class_set(old(stats).per_class@).union(
            claimed_classes(dets),
        ));
        assert(stats@.per_class.dom() =~= after.per_class.dom()) by {
            assert forall|c: SignClass|
                stats@.per_class.dom().contains(c) == after.per_class.dom().contains(c) by {
                assert(class_set(stats.per_class@).contains(c) == (class_set(
                    old(stats).per_class@,
                ).contains(c) || claimed_classes(dets).contains(c)));
            }
        }
        assert forall|c: SignClass| #[trigger]
            stats@.per_class.dom().contains(c) implies stats@.per_class[c] == after.per_class[c] by {
            lemma_class_totals(old(stats).per_class@, c);
            assert(class_score(mid, c) == class_score(old(stats).per_class@, c) + class_gain(
                sel,
                dets,
                c,
            ));
            assert(class_penalty(mid, c) == class_penalty(old(stats).per_class@, c));
        }
        assert(stats@.per_class =~= after.per_class);
    }
    Ok(report)
}

} // verus!
