use icevision_score::report::{ranking, score_thousandths};
use icevision_score::sign_class::SignClass;
use icevision_score::table::ClassScore;

fn entry(a: u8, score: i128) -> ClassScore {
    ClassScore { class: SignClass::Single(a), score, penalty: 0 }
}

#[test]
fn thousandths_are_cut_off_towards_zero() {
    assert_eq!(score_thousandths(0), 0);
    assert_eq!(score_thousandths(99_999), 0);
    assert_eq!(score_thousandths(100_000), 1);
    assert_eq!(score_thousandths(100_000_000), 1_000);
    assert_eq!(score_thousandths(-99_999), 0);
    assert_eq!(score_thousandths(-100_000), -1);
    assert_eq!(score_thousandths(-300_000_000), -3_000);
    assert_eq!(score_thousandths(-300_050_000), -3_000);
    assert_eq!(score_thousandths(i128::MAX), i128::MAX / 100_000);
    assert_eq!(score_thousandths(i128::MIN), i128::MIN / 100_000);
    assert_eq!(score_thousandths(i128::MIN + 1), (i128::MIN + 1) / 100_000);
}

#[test]
fn ranking_goes_by_falling_score() {
    let table = vec![
        entry(1, 30_000_000),
        entry(2, -300_000_000),
        entry(3, 100_000_000),
        entry(4, 0),
        entry(5, 99_900_000),
    ];
    let classes: Vec<SignClass> = ranking(&table).iter().map(|e| e.class).collect();
    assert_eq!(
        classes,
        vec![
            SignClass::Single(3),
            SignClass::Single(5),
            SignClass::Single(1),
            SignClass::Single(4),
            SignClass::Single(2),
        ]
    );
}

#[test]
fn ranking_keeps_every_entry() {
    let table = vec![entry(1, 5), entry(2, 700_000), entry(3, 5), entry(4, -1), entry(5, 700_001)];
    let ranked = ranking(&table);
    assert_eq!(ranked.len(), table.len());
    for e in table.iter() {
        assert!(ranked.contains(e));
    }
    for pair in ranked.windows(2) {
        assert!(score_thousandths(pair[0].score) >= score_thousandths(pair[1].score));
    }
    assert_eq!(ranking(&vec![]), vec![]);
}
