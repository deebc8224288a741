use temporal_merge::interval::{AllenRelation, Bound};

fn date(text: &str) -> Bound {
    Bound::of_text(text.to_string())
}

#[test]
fn test_allen_relation_equals() {
    let r = AllenRelation::compute(
        &date("2024-01-01"),
        &date("2024-02-01"),
        &date("2024-01-01"),
        &date("2024-02-01"),
        false,
    );
    assert_eq!(r, Some(AllenRelation::Equals));
}
