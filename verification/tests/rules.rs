use icevision_score::error::ScoreError;
use icevision_score::geometry::{Bbox, UNIT};
use icevision_score::records::{SignAnnotation, SignDetection};
use icevision_score::rules::{
    compute_final_score, compute_k1, compute_k2, compute_k3, data_modifier_of, normalize,
};
use icevision_score::sign_class::SignClass;

fn annotation(temporary: bool, data: Option<&str>) -> SignAnnotation {
    SignAnnotation {
        bbox: Bbox { xtl: 0, ytl: 0, xbr: 10, ybr: 10 },
        class: SignClass::Double(5, 19),
        temporary,
        occluded: false,
        data: data.map(String::from),
    }
}

fn detection(temporary: Option<bool>, data: Option<&str>) -> SignDetection {
    SignDetection {
        bbox: Bbox { xtl: 0, ytl: 0, xbr: 10, ybr: 10 },
        class: SignClass::Double(5, 19),
        temporary,
        data: data.map(String::from),
    }
}

#[test]
fn k1_equal_classes_of_two_or_three_segments() {
    assert_eq!(compute_k1(SignClass::Double(5, 19), SignClass::Double(5, 19)), Ok(Some(0)));
    assert_eq!(
        compute_k1(SignClass::Triple(5, 19, 1), SignClass::Triple(5, 19, 1)),
        Ok(Some(0))
    );
}

#[test]
fn k1_unequal_classes_of_the_same_length_are_incompatible() {
    assert_eq!(compute_k1(SignClass::Double(5, 19), SignClass::Double(5, 20)), Ok(None));
    assert_eq!(compute_k1(SignClass::Double(5, 19), SignClass::Double(4, 19)), Ok(None));
    assert_eq!(compute_k1(SignClass::Triple(5, 19, 1), SignClass::Triple(5, 19, 2)), Ok(None));
    assert_eq!(compute_k1(SignClass::Triple(5, 19, 1), SignClass::Triple(5, 18, 1)), Ok(None));
    assert_eq!(compute_k1(SignClass::Triple(5, 19, 1), SignClass::Triple(4, 19, 1)), Ok(None));
}

#[test]
fn k1_detection_without_the_third_segment() {
    assert_eq!(compute_k1(SignClass::Triple(5, 19, 1), SignClass::Double(5, 19)), Ok(Some(-20)));
    assert_eq!(compute_k1(SignClass::Triple(5, 19, 1), SignClass::Double(5, 20)), Ok(None));
    assert_eq!(compute_k1(SignClass::Triple(5, 19, 1), SignClass::Double(4, 19)), Ok(None));
}

#[test]
fn k1_detection_with_more_segments_than_the_ground_truth_is_incompatible() {
    assert_eq!(compute_k1(SignClass::Double(5, 19), SignClass::Triple(5, 19, 1)), Ok(None));
}

#[test]
fn k1_detection_of_one_segment() {
    assert_eq!(compute_k1(SignClass::Double(5, 19), SignClass::Single(5)), Ok(Some(-70)));
    assert_eq!(compute_k1(SignClass::Triple(5, 19, 1), SignClass::Single(5)), Ok(Some(-70)));
    assert_eq!(compute_k1(SignClass::Double(5, 19), SignClass::Single(4)), Ok(None));
    assert_eq!(compute_k1(SignClass::Triple(5, 19, 1), SignClass::Single(19)), Ok(None));
}

#[test]
fn k1_umbrella_ground_truth() {
    let gt = SignClass::Single(8);
    assert_eq!(compute_k1(gt, SignClass::Single(8)), Ok(Some(0)));
    assert_eq!(compute_k1(gt, SignClass::Double(8, 22)), Ok(Some(0)));
    assert_eq!(compute_k1(gt, SignClass::Triple(8, 2, 1)), Ok(Some(0)));
    assert_eq!(compute_k1(gt, SignClass::Single(5)), Ok(None));
    assert_eq!(compute_k1(gt, SignClass::Double(5, 8)), Ok(None));
    assert_eq!(compute_k1(gt, SignClass::Triple(5, 8, 8)), Ok(None));
    assert_eq!(compute_k1(gt, SignClass::Na), Ok(None));
}

#[test]
fn k1_umbrella_detection_is_like_any_single_segment() {
    assert_eq!(compute_k1(SignClass::Double(8, 22), SignClass::Single(8)), Ok(Some(-70)));
    assert_eq!(compute_k1(SignClass::Double(5, 19), SignClass::Single(8)), Ok(None));
}

#[test]
fn k1_other_single_segment_ground_truth_is_an_error() {
    for det in [
        SignClass::Single(5),
        SignClass::Single(8),
        SignClass::Double(5, 19),
        SignClass::Triple(5, 19, 1),
        SignClass::Na,
    ] {
        assert_eq!(
            compute_k1(SignClass::Single(5), det),
            Err(ScoreError::UnexpectedAnnotationClass(SignClass::Single(5)))
        );
    }
    assert_eq!(
        compute_k1(SignClass::Single(0), SignClass::Single(0)),
        Err(ScoreError::UnexpectedAnnotationClass(SignClass::Single(0)))
    );
    assert!(SignClass::Single(7).stray_single());
    assert!(!SignClass::Single(8).stray_single());
    assert!(!SignClass::Double(7, 1).stray_single());
    assert!(!SignClass::Na.stray_single());
}

#[test]
fn k1_ground_truth_without_a_class_matches_everything() {
    let gt = SignClass::Na;
    assert_eq!(compute_k1(gt, SignClass::Single(5)), Ok(Some(0)));
    assert_eq!(compute_k1(gt, SignClass::Double(5, 19)), Ok(Some(0)));
    assert_eq!(compute_k1(gt, SignClass::Triple(5, 19, 1)), Ok(Some(0)));
    assert_eq!(compute_k1(gt, SignClass::Na), Ok(Some(0)));
}

#[test]
fn k1_detection_without_a_class_is_incompatible() {
    assert_eq!(compute_k1(SignClass::Double(5, 19), SignClass::Na), Ok(None));
    assert_eq!(compute_k1(SignClass::Triple(5, 19, 1), SignClass::Na), Ok(None));
}

#[test]
fn k2_both_present_and_equal() {
    assert_eq!(compute_k2(&annotation(false, Some("40")), &detection(None, Some("40"))), 200);
}

#[test]
fn k2_both_present_and_unequal() {
    assert_eq!(compute_k2(&annotation(false, Some("40")), &detection(None, Some("60"))), -50);
}

#[test]
fn k2_only_the_detection_present() {
    assert_eq!(compute_k2(&annotation(false, None), &detection(None, Some("40"))), -50);
}

#[test]
fn k2_only_the_ground_truth_present() {
    assert_eq!(compute_k2(&annotation(false, Some("40")), &detection(None, None)), 0);
}

#[test]
fn k2_both_absent() {
    assert_eq!(compute_k2(&annotation(false, None), &detection(None, None)), 0);
}

#[test]
fn k2_ignores_spaces_commas_and_case() {
    assert_eq!(compute_k2(&annotation(false, Some("4,5 T")), &detection(None, Some("4.5t"))), 200);
    assert_eq!(compute_k2(&annotation(false, Some(" 3 , 5 ")), &detection(None, Some("3.5"))), 200);
    assert_eq!(compute_k2(&annotation(false, Some("ABC")), &detection(None, Some("abc"))), 200);
    assert_eq!(compute_k2(&annotation(false, Some("abc")), &detection(None, Some("ab c"))), 200);
    assert_eq!(compute_k2(&annotation(false, Some("abc")), &detection(None, Some("abd"))), -50);
    assert_eq!(compute_k2(&annotation(false, Some("")), &detection(None, Some("  "))), 200);
}

#[test]
fn k2_lowercase_is_not_limited_to_ascii() {
    assert_eq!(
        compute_k2(&annotation(false, Some("40 \u{41a}\u{41c}")), &detection(None, Some("40\u{43a}\u{43c}"))),
        200
    );
}

#[test]
fn normalize_strips_spaces_maps_commas_and_lowers() {
    assert_eq!(normalize("A, b"), "a.b");
    assert_eq!(normalize("  "), "");
    assert_eq!(normalize(""), "");
    assert_eq!(normalize("3,5 T"), "3.5t");
    assert_eq!(normalize("x\ty"), "x\ty");
    assert_eq!(normalize("\u{41a}\u{41c} 5"), "\u{43a}\u{43c}5");
}

#[test]
fn data_modifier_of_prepared_texts() {
    let a = String::from("40");
    let b = String::from("40");
    let c = String::from("4 0");
    assert_eq!(data_modifier_of(Some(&a), Some(&b)), 200);
    assert_eq!(data_modifier_of(Some(&a), Some(&c)), -50);
    assert_eq!(data_modifier_of(None, Some(&a)), -50);
    assert_eq!(data_modifier_of(Some(&a), None), 0);
    assert_eq!(data_modifier_of(None, None), 0);
}

#[test]
fn k3_all_combinations() {
    assert_eq!(compute_k3(&annotation(true, None), &detection(Some(true), None)), 100);
    assert_eq!(compute_k3(&annotation(false, None), &detection(Some(true), None)), -50);
    assert_eq!(compute_k3(&annotation(true, None), &detection(Some(false), None)), -50);
    assert_eq!(compute_k3(&annotation(false, None), &detection(Some(false), None)), 0);
    assert_eq!(compute_k3(&annotation(true, None), &detection(None, None)), 0);
    assert_eq!(compute_k3(&annotation(false, None), &detection(None, None)), 0);
}

#[test]
fn final_score_scales_the_shape_score() {
    assert_eq!(compute_final_score(UNIT, 0, 0, 0), 100_000_000);
    assert_eq!(compute_final_score(UNIT, 0, 200, 100), 400_000_000);
    assert_eq!(compute_final_score(500_000, -20, 200, 100), 190_000_000);
    assert_eq!(compute_final_score(840_896, -20, 0, 0), 67_271_680);
    assert_eq!(compute_final_score(0, 0, 200, 100), 0);
}

#[test]
fn final_score_is_zero_once_the_modifiers_reach_minus_hundred() {
    // -70 - 50 = -120
    assert_eq!(compute_final_score(UNIT, -70, -50, 0), 0);
    // -70 - 50 - 50 = -170
    assert_eq!(compute_final_score(UNIT, -70, -50, -50), 0);
    // -20 - 50 - 50 = -120
    assert_eq!(compute_final_score(UNIT, -20, -50, -50), 0);
    // -50 - 50 = -100 is not above -100
    assert_eq!(compute_final_score(UNIT, 0, -50, -50), 0);
    // -70 - 0 - 0 = -70 still scores
    assert_eq!(compute_final_score(UNIT, -70, 0, 0), 30_000_000);
    // -20 - 50 = -70
    assert_eq!(compute_final_score(UNIT, -20, -50, 0), 30_000_000);
}
