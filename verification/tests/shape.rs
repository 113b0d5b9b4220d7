use icevision_score::error::ScoreError;
use icevision_score::geometry::UNIT;
use icevision_score::shape::iou2score;

const LOW: u64 = 500_000;
const HIGH: u64 = 700_000;

#[test]
fn shape_score_is_zero_at_the_low_threshold() {
    assert_eq!(iou2score(LOW, LOW, HIGH), Ok(0));
    assert_eq!(iou2score(1, 1, UNIT), Ok(0));
}

#[test]
fn shape_score_is_one_at_and_above_the_high_threshold() {
    assert_eq!(iou2score(HIGH, LOW, HIGH), Ok(UNIT));
    assert_eq!(iou2score(HIGH + 1, LOW, HIGH), Ok(UNIT));
    assert_eq!(iou2score(UNIT, LOW, HIGH), Ok(UNIT));
    assert_eq!(iou2score(UNIT, 1, UNIT), Ok(UNIT));
}

#[test]
fn shape_score_is_the_fourth_root_rounded_down() {
    // a sixteenth of the way: the fourth root of 1/16 is 1/2
    assert_eq!(iou2score(512_500, LOW, HIGH), Ok(500_000));
    // a quarter of the way: 0.70710678...
    assert_eq!(iou2score(550_000, LOW, HIGH), Ok(707_106));
    // half way: 0.84089641...
    assert_eq!(iou2score(600_000, LOW, HIGH), Ok(840_896));
    assert_eq!(iou2score(650_000, LOW, HIGH), Ok(930_604));
    // the smallest step above the low threshold: 0.04728708...
    assert_eq!(iou2score(500_001, LOW, HIGH), Ok(47_287));
    // the largest value below the high threshold
    assert_eq!(iou2score(699_999, LOW, HIGH), Ok(999_998));
}

#[test]
fn shape_score_with_the_widest_thresholds() {
    assert_eq!(iou2score(2, 1, UNIT), Ok(31_622));
    assert_eq!(iou2score(999_999, 1, UNIT), Ok(999_999));
}

#[test]
fn shape_score_never_decreases() {
    let mut last = 0;
    let mut iou = LOW;
    while iou <= HIGH + 1_000 {
        let s = iou2score(iou, LOW, HIGH).unwrap();
        assert!(s >= last);
        assert!(s <= UNIT);
        last = s;
        iou += 50;
    }
    assert_eq!(last, UNIT);
}

#[test]
fn shape_score_follows_the_real_fourth_root() {
    let mut iou = LOW;
    while iou <= HIGH {
        let s = iou2score(iou, LOW, HIGH).unwrap();
        let x = (iou - LOW) as f64 / (HIGH - LOW) as f64;
        let exact = x.sqrt().sqrt() * UNIT as f64;
        assert!((s as f64 - exact).abs() <= 1.0);
        iou += 997;
    }
}

#[test]
fn shape_score_below_the_low_threshold_is_an_error() {
    assert_eq!(iou2score(LOW - 1, LOW, HIGH), Err(ScoreError::IouBelowThreshold));
    assert_eq!(iou2score(0, LOW, HIGH), Err(ScoreError::IouBelowThreshold));
    assert_eq!(iou2score(0, 1, UNIT), Err(ScoreError::IouBelowThreshold));
}
