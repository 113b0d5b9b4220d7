use icevision_score::error::ScoreError;
use icevision_score::config::{ScoreConfig, FP_PENALTY, MAX_STEP, SCORE_UNIT};
use icevision_score::geometry::{Bbox, UNIT};
use icevision_score::matching::Hit;
use icevision_score::records::{IndexItem, SignAnnotation, SignDetection};
use icevision_score::score::{find_hit, update_score, ScoreStats};
use icevision_score::sign_class::SignClass;
use icevision_score::table::ClassScore;

fn config() -> ScoreConfig {
    ScoreConfig { iou_low: 500_000, iou_high: 700_000, fp_penalty: FP_PENALTY }
}

fn bbox(xtl: i32, ytl: i32, xbr: i32, ybr: i32) -> Bbox {
    Bbox { xtl, ytl, xbr, ybr }
}

fn annotation(class: SignClass, bbox: Bbox) -> SignAnnotation {
    SignAnnotation { bbox, class, temporary: false, occluded: false, data: None }
}

fn detection(class: SignClass, bbox: Bbox) -> SignDetection {
    SignDetection { bbox, class, temporary: None, data: None }
}

fn entry(class: SignClass, score: i128, penalty: i128) -> ClassScore {
    ClassScore { class, score, penalty }
}

const SIGN: SignClass = SignClass::Double(5, 19);
const ONE: i128 = SCORE_UNIT as i128;
const FINE: i128 = FP_PENALTY as i128;

#[test]
fn the_units_fit_together() {
    assert_eq!(SCORE_UNIT, 100 * UNIT);
    assert_eq!(FP_PENALTY, 3 * SCORE_UNIT);
    assert!(FP_PENALTY <= MAX_STEP);
    assert_eq!(MAX_STEP, i64::MAX as u64);
}

#[test]
fn example_scenario() {
    let class = SignClass::parse("5.19").unwrap();
    let item = IndexItem {
        gtruth: vec![SignAnnotation {
            bbox: bbox(0, 0, 10, 10),
            class,
            temporary: false,
            occluded: false,
            data: None,
        }],
        solutions: vec![SignDetection {
            bbox: bbox(0, 0, 10, 10),
            class,
            temporary: None,
            data: None,
        }],
    };
    let cfg = ScoreConfig { iou_low: UNIT / 2, iou_high: UNIT * 7 / 10, fp_penalty: 3 * SCORE_UNIT };
    let mut stats = ScoreStats::new();
    let report = update_score(&mut stats, item, &cfg, true).unwrap();
    assert_eq!(stats.score, ONE);
    assert_eq!(stats.penalty, 0);
    assert_eq!(stats.per_class, vec![entry(class, ONE, 0)]);
    assert_eq!(stats.class_totals(class), Some((ONE, 0)));
    assert_eq!(class.to_text(), "5.19");
    assert_eq!(
        report,
        vec![Some(Hit {
            gt_idx: 0,
            sol_idx: 0,
            iou: UNIT,
            score: SCORE_UNIT,
            s: UNIT,
            k1: 0,
            k2: 0,
            k3: 0,
        })]
    );
}

#[test]
fn identical_ground_truth_and_detection_score_one() {
    for b in [bbox(0, 0, 10, 10), bbox(-5, 3, 100, 4), bbox(i32::MIN, i32::MIN, i32::MAX, i32::MAX)] {
        let item = IndexItem {
            gtruth: vec![annotation(SignClass::Double(3, 27), b)],
            solutions: vec![detection(SignClass::Double(3, 27), b)],
        };
        let mut stats = ScoreStats::new();
        assert_eq!(update_score(&mut stats, item, &config(), false), Ok(vec![]));
        assert_eq!(stats.score, ONE);
        assert_eq!(stats.penalty, 0);
        assert_eq!(stats.detections, 1);
    }
}

#[test]
fn without_ground_truth_every_detection_is_charged() {
    let item = IndexItem {
        gtruth: vec![],
        solutions: vec![
            detection(SIGN, bbox(0, 0, 10, 10)),
            detection(SignClass::Triple(3, 24, 1), bbox(0, 0, 10, 10)),
            detection(SIGN, bbox(20, 0, 30, 10)),
            detection(SignClass::Na, bbox(20, 0, 30, 10)),
        ],
    };
    let mut stats = ScoreStats::new();
    let report = update_score(&mut stats, item, &config(), true).unwrap();
    assert_eq!(report, vec![None, None, None, None]);
    assert_eq!(stats.score, -4 * FINE);
    assert_eq!(stats.penalty, 4 * FINE);
    assert_eq!(stats.detections, 4);
    assert_eq!(
        stats.per_class,
        vec![
            entry(SIGN, -2 * FINE, 2 * FINE),
            entry(SignClass::Double(3, 24), -FINE, FINE),
            entry(SignClass::Na, -FINE, FINE),
        ]
    );
}

#[test]
fn ground_truth_without_a_class_scores_nothing_and_costs_nothing() {
    for det_box in [bbox(0, 0, 10, 10), bbox(0, 0, 10, 6), bbox(0, 0, 10, 5)] {
        let item = IndexItem {
            gtruth: vec![annotation(SignClass::Na, bbox(0, 0, 10, 10))],
            solutions: vec![detection(SIGN, det_box)],
        };
        let mut stats = ScoreStats::new();
        let report = update_score(&mut stats, item, &config(), true).unwrap();
        assert!(report[0].is_some());
        assert_eq!(report[0].unwrap().score, 0);
        assert_eq!(stats.score, 0);
        assert_eq!(stats.penalty, 0);
        assert_eq!(stats.per_class, vec![entry(SIGN, 0, 0)]);
    }
}

#[test]
fn incompatible_classes_leave_every_detection_unmatched() {
    let item = IndexItem {
        gtruth: vec![
            annotation(SignClass::Double(5, 19), bbox(0, 0, 10, 10)),
            annotation(SignClass::Triple(3, 24, 1), bbox(20, 0, 30, 10)),
            annotation(SignClass::Single(8), bbox(40, 0, 50, 10)),
        ],
        solutions: vec![
            detection(SignClass::Double(5, 20), bbox(0, 0, 10, 10)),
            detection(SignClass::Triple(3, 24, 2), bbox(20, 0, 30, 10)),
            detection(SignClass::Na, bbox(40, 0, 50, 10)),
        ],
    };
    let mut stats = ScoreStats::new();
    let report = update_score(&mut stats, item, &config(), true).unwrap();
    assert_eq!(report, vec![None, None, None]);
    assert_eq!(stats.score, -3 * FINE);
    assert_eq!(stats.penalty, 3 * FINE);
}

#[test]
fn a_miss_costs_nothing() {
    let item = IndexItem {
        gtruth: vec![annotation(SIGN, bbox(0, 0, 10, 10)), annotation(SIGN, bbox(50, 0, 60, 10))],
        solutions: vec![detection(SIGN, bbox(0, 0, 10, 10))],
    };
    let mut stats = ScoreStats::new();
    update_score(&mut stats, item, &config(), false).unwrap();
    assert_eq!(stats.score, ONE);
    assert_eq!(stats.penalty, 0);

    let only_truth = IndexItem { gtruth: vec![annotation(SIGN, bbox(0, 0, 10, 10))], solutions: vec![] };
    let mut stats = ScoreStats::new();
    assert_eq!(update_score(&mut stats, only_truth, &config(), true), Ok(vec![]));
    assert_eq!(stats.score, 0);
    assert_eq!(stats.penalty, 0);
    assert_eq!(stats.detections, 0);
    assert_eq!(stats.per_class, vec![]);
}

#[test]
fn a_detection_below_the_low_threshold_is_charged() {
    let item = IndexItem {
        gtruth: vec![annotation(SIGN, bbox(0, 0, 10, 10))],
        solutions: vec![detection(SIGN, bbox(0, 0, 10, 4))],
    };
    let mut stats = ScoreStats::new();
    update_score(&mut stats, item, &config(), false).unwrap();
    assert_eq!(stats.score, -FINE);
    assert_eq!(stats.penalty, FINE);
}

#[test]
fn the_total_is_the_sum_of_the_hits_less_the_penalties() {
    let item = IndexItem {
        gtruth: vec![annotation(SIGN, bbox(0, 0, 10, 10)), annotation(SIGN, bbox(2, 0, 12, 10))],
        solutions: vec![
            detection(SIGN, bbox(3, 0, 13, 10)),
            detection(SIGN, bbox(0, 0, 10, 6)),
            detection(SIGN, bbox(1, 0, 11, 10)),
            detection(SIGN, bbox(100, 0, 110, 10)),
        ],
    };
    let mut stats = ScoreStats::new();
    let report = update_score(&mut stats, item, &config(), true).unwrap();
    let gained: i128 = report.iter().flatten().map(|h| h.score as i128).sum();
    let unmatched = report.iter().filter(|o| o.is_none()).count() as i128;
    assert_eq!(report.len(), 4);
    assert_eq!(unmatched, 2);
    assert_eq!(stats.score, gained - FINE * unmatched);
    assert_eq!(stats.penalty, FINE * unmatched);
    assert_eq!(stats.detections, 4);
    let class_score: i128 = stats.per_class.iter().map(|e| e.score).sum();
    let class_penalty: i128 = stats.per_class.iter().map(|e| e.penalty).sum();
    assert_eq!(class_score, stats.score);
    assert_eq!(class_penalty, stats.penalty);
}

#[test]
fn greedy_assignment_of_two_by_two() {
    let item = IndexItem {
        gtruth: vec![annotation(SIGN, bbox(0, 0, 10, 10)), annotation(SIGN, bbox(2, 0, 12, 10))],
        solutions: vec![detection(SIGN, bbox(0, 0, 10, 10)), detection(SIGN, bbox(3, 0, 13, 10))],
    };
    let mut stats = ScoreStats::new();
    let report = update_score(&mut stats, item, &config(), true).unwrap();
    assert_eq!(report[0].unwrap().gt_idx, 0);
    assert_eq!(report[1].unwrap().gt_idx, 1);
    assert_eq!(report[1].unwrap().iou, 818_181);
    assert_eq!(stats.score, 2 * ONE);
    assert_eq!(stats.penalty, 0);
}

#[test]
fn selection_goes_by_overlap_even_where_the_score_is_smaller() {
    // the coarse detection overlaps fully and wins the annotation; the exact
    // one overlaps a little less and is left over
    let item = IndexItem {
        gtruth: vec![annotation(SIGN, bbox(0, 0, 10, 10))],
        solutions: vec![
            detection(SIGN, bbox(0, 0, 10, 9)),
            detection(SignClass::Single(5), bbox(0, 0, 10, 10)),
        ],
    };
    let mut stats = ScoreStats::new();
    let report = update_score(&mut stats, item, &config(), true).unwrap();
    assert_eq!(report[0], None);
    assert_eq!(report[1].unwrap().k1, -70);
    assert_eq!(report[1].unwrap().score, 30_000_000);
    assert_eq!(stats.score, 30_000_000 - FINE);
    assert_eq!(stats.penalty, FINE);
    assert_eq!(
        stats.per_class,
        vec![entry(SignClass::Single(5), 30_000_000, 0), entry(SIGN, -FINE, FINE)]
    );
}

#[test]
fn a_match_that_scores_nothing_is_not_charged() {
    let mut det = detection(SignClass::Single(5), bbox(0, 0, 10, 10));
    det.data = Some(String::from("70"));
    let item = IndexItem { gtruth: vec![annotation(SIGN, bbox(0, 0, 10, 10))], solutions: vec![det] };
    let mut stats = ScoreStats::new();
    let report = update_score(&mut stats, item, &config(), true).unwrap();
    let hit = report[0].unwrap();
    assert_eq!((hit.k1, hit.k2, hit.k3), (-70, -50, 0));
    assert_eq!(hit.score, 0);
    assert_eq!(stats.score, 0);
    assert_eq!(stats.penalty, 0);
    assert_eq!(stats.per_class, vec![entry(SignClass::Single(5), 0, 0)]);
}

#[test]
fn scores_go_to_the_class_of_the_detection_cut_to_two_segments() {
    let item = IndexItem {
        gtruth: vec![
            annotation(SignClass::Triple(3, 24, 1), bbox(0, 0, 10, 10)),
            annotation(SignClass::Triple(3, 24, 2), bbox(20, 0, 30, 10)),
            annotation(SignClass::Triple(5, 19, 1), bbox(40, 0, 50, 10)),
        ],
        solutions: vec![
            detection(SignClass::Triple(3, 24, 1), bbox(0, 0, 10, 10)),
            detection(SignClass::Double(3, 24), bbox(20, 0, 30, 10)),
            detection(SignClass::Single(5), bbox(40, 0, 50, 10)),
            detection(SignClass::Triple(3, 24, 9), bbox(60, 0, 70, 10)),
        ],
    };
    let mut stats = ScoreStats::new();
    update_score(&mut stats, item, &config(), false).unwrap();
    // 1.0 and 0.8 for the matches, one penalty
    assert_eq!(stats.class_totals(SignClass::Double(3, 24)), Some((ONE + 80_000_000 - FINE, FINE)));
    assert_eq!(stats.class_totals(SignClass::Single(5)), Some((30_000_000, 0)));
    assert_eq!(stats.class_totals(SignClass::Triple(3, 24, 1)), None);
    assert_eq!(stats.class_totals(SignClass::Double(5, 19)), None);
    assert_eq!(stats.per_class.len(), 2);
    assert_eq!(stats.score, ONE + 80_000_000 + 30_000_000 - FINE);
    assert_eq!(stats.penalty, FINE);
}

#[test]
fn totals_add_up_over_frames() {
    let mut stats = ScoreStats::new();
    let first = IndexItem {
        gtruth: vec![annotation(SIGN, bbox(0, 0, 10, 10))],
        solutions: vec![detection(SIGN, bbox(0, 0, 10, 6))],
    };
    let second = IndexItem {
        gtruth: vec![],
        solutions: vec![detection(SIGN, bbox(0, 0, 10, 10)), detection(SignClass::Na, bbox(0, 0, 1, 1))],
    };
    update_score(&mut stats, first, &config(), false).unwrap();
    assert_eq!(stats.score, 84_089_600);
    update_score(&mut stats, second, &config(), false).unwrap();
    assert_eq!(stats.score, 84_089_600 - 2 * FINE);
    assert_eq!(stats.penalty, 2 * FINE);
    assert_eq!(stats.detections, 3);
    assert_eq!(
        stats.per_class,
        vec![entry(SIGN, 84_089_600 - FINE, FINE), entry(SignClass::Na, -FINE, FINE)]
    );
    assert!(stats.is_wf());
}

#[test]
fn the_order_of_the_frames_does_not_matter() {
    let frames = || {
        vec![
            IndexItem {
                gtruth: vec![annotation(SIGN, bbox(0, 0, 10, 10))],
                solutions: vec![detection(SIGN, bbox(0, 0, 10, 6))],
            },
            IndexItem {
                gtruth: vec![annotation(SignClass::Double(2, 1), bbox(0, 0, 10, 10))],
                solutions: vec![
                    detection(SignClass::Double(2, 1), bbox(0, 0, 10, 10)),
                    detection(SIGN, bbox(0, 0, 10, 10)),
                ],
            },
            IndexItem { gtruth: vec![], solutions: vec![detection(SignClass::Double(2, 1), bbox(0, 0, 1, 1))] },
        ]
    };
    let mut forward = ScoreStats::new();
    for item in frames() {
        update_score(&mut forward, item, &config(), false).unwrap();
    }
    let mut backward = ScoreStats::new();
    for item in frames().into_iter().rev() {
        update_score(&mut backward, item, &config(), false).unwrap();
    }
    assert_eq!(forward.score, backward.score);
    assert_eq!(forward.penalty, backward.penalty);
    assert_eq!(forward.detections, backward.detections);
    for class in [SIGN, SignClass::Double(2, 1)] {
        assert_eq!(forward.class_totals(class), backward.class_totals(class));
    }
}

#[test]
fn a_stray_ground_truth_class_is_refused_and_changes_nothing() {
    let mut stats = ScoreStats::new();
    let good = IndexItem {
        gtruth: vec![annotation(SIGN, bbox(0, 0, 10, 10))],
        solutions: vec![detection(SIGN, bbox(0, 0, 10, 10))],
    };
    update_score(&mut stats, good, &config(), false).unwrap();
    let bad = IndexItem {
        gtruth: vec![
            annotation(SIGN, bbox(0, 0, 10, 10)),
            annotation(SignClass::Single(5), bbox(50, 0, 60, 10)),
        ],
        solutions: vec![detection(SIGN, bbox(0, 0, 10, 10))],
    };
    assert_eq!(
        update_score(&mut stats, bad, &config(), true),
        Err(ScoreError::UnexpectedAnnotationClass(SignClass::Single(5)))
    );
    assert_eq!(stats.score, ONE);
    assert_eq!(stats.penalty, 0);
    assert_eq!(stats.detections, 1);
    assert_eq!(stats.per_class, vec![entry(SIGN, ONE, 0)]);
}

#[test]
fn a_stray_ground_truth_class_without_detections_is_not_met() {
    let mut stats = ScoreStats::new();
    let item = IndexItem {
        gtruth: vec![annotation(SignClass::Single(5), bbox(0, 0, 10, 10))],
        solutions: vec![],
    };
    assert_eq!(update_score(&mut stats, item, &config(), true), Ok(vec![]));
}

#[test]
fn another_penalty_constant() {
    let cfg = ScoreConfig { iou_low: 300_000, iou_high: 850_000, fp_penalty: 50_000_000 };
    assert!(cfg.is_wf());
    let item = IndexItem {
        gtruth: vec![annotation(SIGN, bbox(0, 0, 10, 10))],
        solutions: vec![detection(SIGN, bbox(0, 0, 10, 4)), detection(SIGN, bbox(0, 0, 10, 2))],
    };
    let mut stats = ScoreStats::new();
    let report = update_score(&mut stats, item, &cfg, true).unwrap();
    // (0.4 - 0.3) / 0.55 = 0.1818...; fourth root 0.652994...
    assert_eq!(report[0].unwrap().s, 652_994);
    assert_eq!(report[1], None);
    assert_eq!(stats.score, 65_299_400 - 50_000_000);
    assert_eq!(stats.penalty, 50_000_000);
}

#[test]
fn find_hit_looks_up_the_detection() {
    let a = Hit { gt_idx: 0, sol_idx: 2, iou: 1, score: 2, s: 3, k1: 0, k2: 0, k3: 0 };
    let b = Hit { gt_idx: 1, sol_idx: 0, iou: 4, score: 5, s: 6, k1: 0, k2: 0, k3: 0 };
    let selected = vec![a, b];
    assert_eq!(find_hit(&selected, 0), Some(b));
    assert_eq!(find_hit(&selected, 1), None);
    assert_eq!(find_hit(&selected, 2), Some(a));
    assert_eq!(find_hit(&vec![], 0), None);
}

#[test]
fn stats_start_empty() {
    let stats = ScoreStats::new();
    assert_eq!(stats.score, 0);
    assert_eq!(stats.penalty, 0);
    assert_eq!(stats.detections, 0);
    assert!(stats.per_class.is_empty());
    assert!(stats.is_wf());
    let other = ScoreStats::default();
    assert_eq!(other.score, 0);
    assert!(other.per_class.is_empty());
}

#[test]
fn is_wf_tells_broken_totals() {
    let mut stats = ScoreStats::new();
    stats.per_class = vec![entry(SIGN, 0, 0), entry(SIGN, 0, 0)];
    assert!(!stats.is_wf());
    let mut stats = ScoreStats::new();
    stats.score = 1;
    assert!(!stats.is_wf());
    stats.detections = 1;
    assert!(stats.is_wf());
    stats.penalty = -1;
    assert!(!stats.is_wf());
    stats.penalty = 0;
    stats.per_class = vec![entry(SIGN, 0, MAX_STEP as i128 + 1)];
    assert!(!stats.is_wf());
    stats.per_class = vec![entry(SIGN, -(MAX_STEP as i128), MAX_STEP as i128)];
    assert!(stats.is_wf());
}

#[test]
fn config_validity() {
    assert!(config().is_wf());
    assert_eq!(ScoreConfig::new(500_000, 700_000), Some(config()));
    assert_eq!(ScoreConfig::new(0, 700_000), None);
    assert_eq!(ScoreConfig::new(700_000, 700_000), None);
    assert_eq!(ScoreConfig::new(700_000, 500_000), None);
    assert_eq!(ScoreConfig::new(500_000, UNIT + 1), None);
    assert_eq!(
        ScoreConfig::new(1, UNIT),
        Some(ScoreConfig { iou_low: 1, iou_high: UNIT, fp_penalty: FP_PENALTY })
    );
    assert!(!ScoreConfig { iou_low: 1, iou_high: 2, fp_penalty: MAX_STEP + 1 }.is_wf());
    assert!(ScoreConfig { iou_low: 1, iou_high: 2, fp_penalty: MAX_STEP }.is_wf());
}
