use icevision_score::geometry::Bbox;
use icevision_score::index::{frame_name, too_small, SignIndex};
use icevision_score::records::{IndexItem, SignAnnotation, SignDetection};
use icevision_score::sign_class::SignClass;

fn bbox(xtl: i32, ytl: i32, xbr: i32, ybr: i32) -> Bbox {
    Bbox { xtl, ytl, xbr, ybr }
}

fn annotation(bbox: Bbox) -> SignAnnotation {
    SignAnnotation { bbox, class: SignClass::Double(5, 19), temporary: false, occluded: false, data: None }
}

fn detection(bbox: Bbox) -> SignDetection {
    SignDetection { bbox, class: SignClass::Double(5, 19), temporary: None, data: None }
}

fn name(text: &str) -> String {
    String::from(text)
}

#[test]
fn frame_name_joins_set_and_frame() {
    assert_eq!(frame_name("2018-02-13_1418", "000032"), "2018-02-13_1418/000032");
    assert_eq!(frame_name("", ""), "/");
    assert_eq!(frame_name("a/b", "c"), "a/b/c");
}

#[test]
fn too_small_goes_by_the_area() {
    // 20 wide and 1 high: area 20
    assert!(too_small(&bbox(0, 0, 20, 1), 100));
    // 9 wide and 100 high: area 900
    assert!(!too_small(&bbox(0, 0, 9, 100), 100));
    assert!(!too_small(&bbox(0, 0, 10, 10), 100));
    assert!(too_small(&bbox(0, 0, 11, 9), 100));
    assert!(!too_small(&bbox(0, 0, 4, 25), 100));
    assert!(too_small(&bbox(-3, -3, 6, 8), 100));
    assert!(too_small(&bbox(0, 0, 10, 0), 100));
    assert!(too_small(&bbox(5, 5, 5, 5), 1));
    assert!(!too_small(&bbox(5, 5, 5, 5), 0));
    // the largest box: (2^32 - 1)^2
    let all = bbox(i32::MIN, i32::MIN, i32::MAX, i32::MAX);
    assert!(!too_small(&all, 18_446_744_065_119_617_025));
    assert!(too_small(&all, 18_446_744_065_119_617_026));
    assert!(too_small(&bbox(i32::MIN, i32::MIN, i32::MAX - 1, i32::MAX), 18_446_744_065_119_617_025));
}

#[test]
fn annotations_gather_under_their_frame() {
    let mut index = SignIndex::new();
    index.add_annotation(name("a/1"), annotation(bbox(0, 0, 10, 10)));
    index.add_annotation(name("a/2"), annotation(bbox(1, 1, 2, 2)));
    index.add_annotation(name("a/1"), annotation(bbox(20, 0, 30, 10)));
    assert_eq!(index.frames.len(), 2);
    assert_eq!(index.frames[0].name, "a/1");
    assert_eq!(index.frames[1].name, "a/2");
    let boxes: Vec<Bbox> = index.frames[0].item.gtruth.iter().map(|g| g.bbox).collect();
    assert_eq!(boxes, vec![bbox(0, 0, 10, 10), bbox(20, 0, 30, 10)]);
    assert_eq!(index.frames[1].item.gtruth.len(), 1);
    assert!(index.frames[0].item.solutions.is_empty());
    assert_eq!(index.find(&name("a/2")), Some(1));
    assert_eq!(index.find(&name("a/3")), None);
}

#[test]
fn boxes_are_put_in_order() {
    let mut index = SignIndex::new();
    index.add_annotation(name("f"), annotation(bbox(10, 8, 0, 2)));
    assert!(index.add_detection(&name("f"), detection(bbox(30, 0, 0, 5)), 100));
    assert_eq!(index.frames[0].item.gtruth[0].bbox, bbox(0, 2, 10, 8));
    assert_eq!(index.frames[0].item.solutions[0].bbox, bbox(0, 0, 30, 5));
    assert!(index.frames[0].item.is_wf());
}

#[test]
fn detections_of_unknown_frames_are_dropped() {
    let mut index = SignIndex::new();
    index.add_annotation(name("f"), annotation(bbox(0, 0, 10, 10)));
    assert!(!index.add_detection(&name("g"), detection(bbox(0, 0, 10, 10)), 100));
    assert!(index.add_detection(&name("f"), detection(bbox(0, 0, 10, 10)), 100));
    assert_eq!(index.frames.len(), 1);
    assert_eq!(index.frames[0].item.solutions.len(), 1);
}

#[test]
fn small_detections_are_dropped() {
    let mut index = SignIndex::new();
    index.add_annotation(name("f"), annotation(bbox(0, 0, 10, 10)));
    // 20 wide and 1 high: area 20
    assert!(!index.add_detection(&name("f"), detection(bbox(0, 0, 20, 1)), 100));
    assert!(!index.add_detection(&name("f"), detection(bbox(0, 0, 11, 9)), 100));
    assert!(index.frames[0].item.solutions.is_empty());
    // 9 wide and 50 high: area 450
    assert!(index.add_detection(&name("f"), detection(bbox(0, 0, 9, 50)), 100));
    // the area is taken after the box is put in order
    assert!(index.add_detection(&name("f"), detection(bbox(10, 10, 0, 0)), 100));
    assert!(index.add_detection(&name("f"), detection(bbox(0, 0, 20, 1)), 20));
    assert_eq!(index.frames[0].item.solutions.len(), 3);
    // small annotations stay
    index.add_annotation(name("f"), annotation(bbox(0, 0, 1, 1)));
    assert_eq!(index.frames[0].item.gtruth.len(), 2);
}

#[test]
fn an_empty_frame_record() {
    let item = IndexItem::new();
    assert!(item.gtruth.is_empty());
    assert!(item.solutions.is_empty());
    assert!(item.is_wf());
    let other = IndexItem::default();
    assert!(other.gtruth.is_empty());
    assert!(other.solutions.is_empty());
}

#[test]
fn is_wf_tells_a_box_out_of_order() {
    let good = IndexItem {
        gtruth: vec![annotation(bbox(0, 0, 1, 1))],
        solutions: vec![detection(bbox(0, 0, 1, 1)), detection(bbox(3, 3, 3, 3))],
    };
    assert!(good.is_wf());
    let bad_truth = IndexItem { gtruth: vec![annotation(bbox(2, 0, 1, 1))], solutions: vec![] };
    assert!(!bad_truth.is_wf());
    let bad_found = IndexItem {
        gtruth: vec![annotation(bbox(0, 0, 1, 1))],
        solutions: vec![detection(bbox(0, 0, 1, 1)), detection(bbox(0, 2, 1, 1))],
    };
    assert!(!bad_found.is_wf());
}

#[test]
fn a_frame_without_ground_truth_takes_detections() {
    let mut index = SignIndex::new();
    index.add_frame(name("empty"));
    index.add_frame(name("other"));
    index.add_frame(name("empty"));
    assert_eq!(index.frames.len(), 2);
    assert_eq!(index.frames[0].name, "empty");
    assert!(index.frames[0].item.gtruth.is_empty());
    assert!(index.add_detection(&name("empty"), detection(bbox(0, 0, 10, 10)), 100));
    assert_eq!(index.frames[0].item.solutions.len(), 1);
    assert!(index.frames[1].item.solutions.is_empty());
}

#[test]
fn add_frame_keeps_the_records_of_a_frame() {
    let mut index = SignIndex::new();
    index.add_annotation(name("f"), annotation(bbox(0, 0, 10, 10)));
    index.add_frame(name("f"));
    assert_eq!(index.frames.len(), 1);
    assert_eq!(index.frames[0].item.gtruth.len(), 1);
}
