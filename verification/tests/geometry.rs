use icevision_score::geometry::{compute_iou, Bbox, UNIT};

fn bbox(xtl: i32, ytl: i32, xbr: i32, ybr: i32) -> Bbox {
    Bbox { xtl, ytl, xbr, ybr }
}

#[test]
fn iou_of_identical_boxes_is_one() {
    let a = bbox(0, 0, 10, 10);
    assert_eq!(compute_iou(a, a), UNIT);
}

#[test]
fn iou_of_half_shifted_boxes_is_a_third() {
    let a = bbox(0, 0, 10, 10);
    let b = bbox(5, 0, 15, 10);
    assert_eq!(compute_iou(a, b), 333_333);
}

#[test]
fn iou_of_contained_box_is_the_ratio_of_areas() {
    let outer = bbox(0, 0, 10, 10);
    let inner = bbox(2, 2, 7, 7);
    assert_eq!(compute_iou(outer, inner), 250_000);
}

#[test]
fn iou_is_symmetric() {
    let boxes = [
        bbox(0, 0, 10, 10),
        bbox(5, 0, 15, 10),
        bbox(-3, -7, 4, 2),
        bbox(9, 9, 30, 11),
        bbox(2, 2, 7, 7),
        bbox(0, 0, 0, 0),
    ];
    for a in boxes.iter() {
        for b in boxes.iter() {
            assert_eq!(compute_iou(*a, *b), compute_iou(*b, *a));
        }
    }
}

#[test]
fn iou_stays_between_zero_and_one() {
    let boxes = [
        bbox(0, 0, 10, 10),
        bbox(5, 0, 15, 10),
        bbox(-3, -7, 4, 2),
        bbox(i32::MIN, i32::MIN, i32::MAX, i32::MAX),
        bbox(i32::MIN, 0, 0, i32::MAX),
    ];
    for a in boxes.iter() {
        for b in boxes.iter() {
            assert!(compute_iou(*a, *b) <= UNIT);
        }
    }
}

#[test]
fn iou_of_disjoint_boxes_is_zero() {
    assert_eq!(compute_iou(bbox(0, 0, 10, 10), bbox(20, 20, 30, 30)), 0);
    assert_eq!(compute_iou(bbox(0, 0, 10, 10), bbox(0, 11, 10, 20)), 0);
}

#[test]
fn iou_of_touching_boxes_is_zero() {
    // a shared edge
    assert_eq!(compute_iou(bbox(0, 0, 10, 10), bbox(10, 0, 20, 10)), 0);
    // a shared corner
    assert_eq!(compute_iou(bbox(0, 0, 10, 10), bbox(10, 10, 20, 20)), 0);
}

#[test]
fn iou_of_degenerate_box_is_zero() {
    let line = bbox(3, 0, 3, 10);
    assert_eq!(compute_iou(line, line), 0);
    assert_eq!(compute_iou(line, bbox(0, 0, 10, 10)), 0);
}

#[test]
fn iou_of_the_largest_boxes_does_not_overflow() {
    let all = bbox(i32::MIN, i32::MIN, i32::MAX, i32::MAX);
    assert_eq!(compute_iou(all, all), UNIT);
    let quarter = bbox(i32::MIN, i32::MIN, -1, -1);
    // (2^31 - 1)^2 / (2^32 - 1)^2, rounded down
    assert_eq!(compute_iou(all, quarter), 249_999);
}

#[test]
fn check_swaps_an_offending_pair() {
    let mut b = bbox(10, 2, 0, 8);
    b.check();
    assert_eq!(b, bbox(0, 2, 10, 8));
    let mut c = bbox(1, 9, 4, 3);
    c.check();
    assert_eq!(c, bbox(1, 3, 4, 9));
    let mut d = bbox(7, 7, -7, -7);
    d.check();
    assert_eq!(d, bbox(-7, -7, 7, 7));
}

#[test]
fn check_keeps_a_box_in_order() {
    let mut b = bbox(0, 0, 10, 10);
    b.check();
    assert_eq!(b, bbox(0, 0, 10, 10));
    assert!(b.is_wf());
    assert!(!bbox(1, 0, 0, 0).is_wf());
    assert!(!bbox(0, 1, 0, 0).is_wf());
}

#[test]
fn iou_follows_the_real_ratio() {
    let mut seed: u64 = 99;
    let mut next = move |bound: i32| -> i32 {
        seed = seed.wrapping_mul(6364136223846793005).wrapping_add(1442695040888963407);
        ((seed >> 33) % bound as u64) as i32
    };
    for _ in 0..500 {
        let (x1, y1) = (next(200) - 100, next(200) - 100);
        let a = bbox(x1, y1, x1 + next(150), y1 + next(150));
        let (x2, y2) = (next(200) - 100, next(200) - 100);
        let b = bbox(x2, y2, x2 + next(150), y2 + next(150));
        let w = (a.xbr.min(b.xbr) - a.xtl.max(b.xtl)) as f64;
        let h = (a.ybr.min(b.ybr) - a.ytl.max(b.ytl)) as f64;
        let expected = if w > 0.0 && h > 0.0 {
            let area = |r: Bbox| (r.xbr - r.xtl) as f64 * (r.ybr - r.ytl) as f64;
            w * h / (area(a) + area(b) - w * h)
        } else {
            0.0
        };
        let got = compute_iou(a, b) as f64 / UNIT as f64;
        assert!(got <= expected + 1e-9);
        assert!(expected - got < 1.0001e-6);
    }
}
