use std::cmp::Ordering;
use temporal_merge::classify::format_range;
use temporal_merge::date::{date_minus_one, integer_text, number_minus_one, parse_integer};
use temporal_merge::eclipse::{multirange_add, multirange_contains};
use temporal_merge::hashing::{content_hash, hash_text, hex16_text, object_text};
use temporal_merge::interval::{
    compute_update_effect, temporal_cmp, AllenRelation, Bound, UpdateEffect,
};
use temporal_merge::keys::{build_key_for_cols, json_map_to_key, json_to_pg_text};
use temporal_merge::quoting::qi;
use temporal_merge::text::{chars_of, has_char, join, same_text, text_lt, text_of_chars};
use temporal_merge::types::{DeleteMode, MergeMode, PlanAction};
use temporal_merge::value::{
    maps_equal_ignoring_nulls, merge_data_ephemeral, overlay_onto, same_fields, strip_nulls, Fields,
    Value,
};

fn text(s: &str) -> Value {
    Value::Text(s.to_string())
}

fn number(s: &str) -> Value {
    Value::Number(s.to_string())
}

fn fields(entries: &[(&str, Value)]) -> Fields {
    let mut f = Fields::new();
    for (k, v) in entries {
        f.insert(k.to_string(), v.clone());
    }
    f
}

fn date(s: &str) -> Bound {
    Bound::of_text(s.to_string())
}

fn num(s: &str, rank: i64) -> Bound {
    Bound { text: s.to_string(), rank }
}

fn relation(xf: &str, xu: &str, yf: &str, yu: &str) -> Option<AllenRelation> {
    AllenRelation::compute(&date(xf), &date(xu), &date(yf), &date(yu), false)
}

#[test]
fn test_allen_relation_precedes() {
    assert_eq!(
        relation("2024-01-01", "2024-02-01", "2024-03-01", "2024-04-01"),
        Some(AllenRelation::Precedes)
    );
}

#[test]
fn test_allen_relation_meets() {
    assert_eq!(
        relation("2024-01-01", "2024-02-01", "2024-02-01", "2024-03-01"),
        Some(AllenRelation::Meets)
    );
}

#[test]
fn test_allen_relation_overlaps() {
    assert_eq!(
        relation("2024-01-01", "2024-03-01", "2024-02-01", "2024-04-01"),
        Some(AllenRelation::Overlaps)
    );
}

#[test]
fn test_strip_nulls() {
    let map = fields(&[("a", number("1")), ("b", Value::Null), ("c", text("x"))]);
    let stripped = strip_nulls(&map);
    assert_eq!(stripped.len(), 2);
    assert!(stripped.contains_key("a"));
    assert!(stripped.contains_key("c"));
    assert!(!stripped.contains_key("b"));
}

#[test]
fn allen_relations_are_inverse_to_each_other() {
    let intervals = [
        ("2024-01-01", "2024-02-01"),
        ("2024-01-01", "2024-03-01"),
        ("2024-02-01", "2024-03-01"),
        ("2024-02-01", "2024-04-01"),
        ("2024-03-01", "2024-04-01"),
        ("2024-01-15", "2024-02-15"),
    ];
    let inverse = |r: AllenRelation| match r {
        AllenRelation::Precedes => AllenRelation::PrecededBy,
        AllenRelation::Meets => AllenRelation::MetBy,
        AllenRelation::Overlaps => AllenRelation::OverlappedBy,
        AllenRelation::Starts => AllenRelation::StartedBy,
        AllenRelation::During => AllenRelation::Contains,
        AllenRelation::Finishes => AllenRelation::FinishedBy,
        AllenRelation::Equals => AllenRelation::Equals,
        AllenRelation::PrecededBy => AllenRelation::Precedes,
        AllenRelation::MetBy => AllenRelation::Meets,
        AllenRelation::OverlappedBy => AllenRelation::Overlaps,
        AllenRelation::StartedBy => AllenRelation::Starts,
        AllenRelation::Contains => AllenRelation::During,
        AllenRelation::FinishedBy => AllenRelation::Finishes,
    };
    for x in intervals.iter() {
        for y in intervals.iter() {
            let there = relation(x.0, x.1, y.0, y.1).unwrap();
            let back = relation(y.0, y.1, x.0, x.1).unwrap();
            assert_eq!(back, inverse(there));
        }
    }
}

#[test]
fn each_allen_relation_is_found() {
    assert_eq!(relation("1", "2", "3", "4"), Some(AllenRelation::Precedes));
    assert_eq!(relation("1", "3", "3", "4"), Some(AllenRelation::Meets));
    assert_eq!(relation("1", "3", "2", "4"), Some(AllenRelation::Overlaps));
    assert_eq!(relation("1", "2", "1", "4"), Some(AllenRelation::Starts));
    assert_eq!(relation("2", "3", "1", "4"), Some(AllenRelation::During));
    assert_eq!(relation("2", "4", "1", "4"), Some(AllenRelation::Finishes));
    assert_eq!(relation("1", "4", "1", "4"), Some(AllenRelation::Equals));
    assert_eq!(relation("3", "4", "1", "2"), Some(AllenRelation::PrecededBy));
    assert_eq!(relation("3", "4", "1", "3"), Some(AllenRelation::MetBy));
    assert_eq!(relation("2", "4", "1", "3"), Some(AllenRelation::OverlappedBy));
    assert_eq!(relation("1", "4", "1", "2"), Some(AllenRelation::StartedBy));
    assert_eq!(relation("1", "4", "2", "3"), Some(AllenRelation::Contains));
    assert_eq!(relation("1", "4", "2", "4"), Some(AllenRelation::FinishedBy));
}

#[test]
fn allen_relation_names() {
    assert_eq!(AllenRelation::PrecededBy.as_str(), "preceded_by");
    assert_eq!(AllenRelation::Equals.as_str(), "equals");
    assert_eq!(AllenRelation::FinishedBy.as_str(), "finished_by");
}

#[test]
fn empty_intervals_can_break_the_symmetry() {
    // Two empty intervals at one point meet each other both ways.
    assert_eq!(relation("5", "5", "5", "5"), Some(AllenRelation::Meets));
}

#[test]
fn bounds_compare_as_text_or_by_rank() {
    assert_eq!(temporal_cmp(&date("2024-01-01"), &date("2024-01-02"), false), Ordering::Less);
    assert_eq!(temporal_cmp(&date("2024-01-02"), &date("2024-01-01"), false), Ordering::Greater);
    assert_eq!(temporal_cmp(&date("2024-01-01"), &date("2024-01-01"), false), Ordering::Equal);
    // As text "10" comes before "9"; by rank it does not.
    assert_eq!(temporal_cmp(&num("10", 10), &num("9", 9), false), Ordering::Less);
    assert_eq!(temporal_cmp(&num("10", 10), &num("9", 9), true), Ordering::Greater);
    assert_eq!(temporal_cmp(&num("1.0", 1), &num("1", 1), true), Ordering::Equal);
    assert_eq!(temporal_cmp(&num("-infinity", i64::MIN), &num("0", 0), true), Ordering::Less);
    assert_eq!(temporal_cmp(&num("infinity", i64::MAX), &num("0", 0), true), Ordering::Greater);
}

#[test]
fn update_effects() {
    let effect = |of: &str, ou: &str, nf: &str, nu: &str| {
        compute_update_effect(&date(of), &date(ou), &date(nf), &date(nu), false)
    };
    assert_eq!(effect("2", "5", "2", "5"), UpdateEffect::Unchanged);
    assert_eq!(effect("2", "5", "2", "4"), UpdateEffect::Shrink);
    assert_eq!(effect("2", "5", "3", "5"), UpdateEffect::Shrink);
    assert_eq!(effect("2", "5", "3", "4"), UpdateEffect::Shrink);
    assert_eq!(effect("2", "5", "1", "5"), UpdateEffect::Grow);
    assert_eq!(effect("2", "5", "2", "6"), UpdateEffect::Grow);
    assert_eq!(effect("2", "5", "1", "6"), UpdateEffect::Grow);
    assert_eq!(effect("2", "5", "3", "6"), UpdateEffect::Move);
    assert_eq!(effect("2", "5", "1", "4"), UpdateEffect::Move);
    assert_eq!(UpdateEffect::Unchanged.as_str(), "NONE");
    assert_eq!(UpdateEffect::Shrink.as_str(), "SHRINK");
    assert_eq!(UpdateEffect::Move.as_str(), "MOVE");
    assert_eq!(UpdateEffect::Grow.as_str(), "GROW");
}

#[test]
fn modes_are_read_from_their_names() {
    assert_eq!(MergeMode::from_str("MERGE_ENTITY_UPSERT"), Some(MergeMode::MergeEntityUpsert));
    assert_eq!(MergeMode::from_str("UPDATE_FOR_PORTION_OF"), Some(MergeMode::UpdateForPortionOf));
    assert_eq!(MergeMode::from_str("MERGE_ENTITY_PATCH"), Some(MergeMode::MergeEntityPatch));
    assert_eq!(MergeMode::from_str("PATCH_FOR_PORTION_OF"), Some(MergeMode::PatchForPortionOf));
    assert_eq!(MergeMode::from_str("MERGE_ENTITY_REPLACE"), Some(MergeMode::MergeEntityReplace));
    assert_eq!(MergeMode::from_str("REPLACE_FOR_PORTION_OF"), Some(MergeMode::ReplaceForPortionOf));
    assert_eq!(MergeMode::from_str("INSERT_NEW_ENTITIES"), Some(MergeMode::InsertNewEntities));
    assert_eq!(MergeMode::from_str("DELETE_FOR_PORTION_OF"), Some(MergeMode::DeleteForPortionOf));
    assert_eq!(MergeMode::from_str("merge_entity_upsert"), None);
    assert_eq!(MergeMode::from_str(""), None);
    assert_eq!(DeleteMode::from_str("NONE"), Some(DeleteMode::Nothing));
    assert_eq!(DeleteMode::from_str("DELETE_MISSING_TIMELINE"), Some(DeleteMode::DeleteMissingTimeline));
    assert_eq!(DeleteMode::from_str("DELETE_MISSING_ENTITIES"), Some(DeleteMode::DeleteMissingEntities));
    assert_eq!(
        DeleteMode::from_str("DELETE_MISSING_TIMELINE_AND_ENTITIES"),
        Some(DeleteMode::DeleteMissingTimelineAndEntities)
    );
    assert_eq!(DeleteMode::from_str("DELETE"), None);
}

#[test]
fn mode_families() {
    assert!(MergeMode::MergeEntityPatch.is_patch());
    assert!(MergeMode::PatchForPortionOf.is_patch());
    assert!(!MergeMode::MergeEntityUpsert.is_patch());
    assert!(MergeMode::MergeEntityReplace.is_replace());
    assert!(MergeMode::ReplaceForPortionOf.is_replace());
    assert!(!MergeMode::MergeEntityPatch.is_replace());
    assert!(MergeMode::InsertNewEntities.is_last_writer_wins());
    assert!(MergeMode::DeleteForPortionOf.is_last_writer_wins());
    assert!(MergeMode::MergeEntityReplace.is_last_writer_wins());
    assert!(!MergeMode::MergeEntityUpsert.is_last_writer_wins());
    assert!(!MergeMode::PatchForPortionOf.is_last_writer_wins());
    assert!(MergeMode::UpdateForPortionOf.is_for_portion_of());
    assert!(MergeMode::DeleteForPortionOf.is_for_portion_of());
    assert!(!MergeMode::InsertNewEntities.is_for_portion_of());
    assert!(MergeMode::InsertNewEntities.is_entity_scope());
    assert!(MergeMode::MergeEntityUpsert.is_entity_scope());
    assert!(!MergeMode::UpdateForPortionOf.is_entity_scope());
    assert!(DeleteMode::DeleteMissingEntities.deletes_entities());
    assert!(DeleteMode::DeleteMissingTimelineAndEntities.deletes_entities());
    assert!(!DeleteMode::DeleteMissingTimeline.deletes_entities());
    assert!(DeleteMode::DeleteMissingTimeline.deletes_timeline());
    assert!(DeleteMode::DeleteMissingTimelineAndEntities.deletes_timeline());
    assert!(!DeleteMode::Nothing.deletes_timeline());
    assert!(!DeleteMode::Nothing.deletes_entities());
}

#[test]
fn plan_actions() {
    assert_eq!(PlanAction::Insert.as_str(), "INSERT");
    assert_eq!(PlanAction::Update.as_str(), "UPDATE");
    assert_eq!(PlanAction::Delete.as_str(), "DELETE");
    assert_eq!(PlanAction::SkipIdentical.as_str(), "SKIP_IDENTICAL");
    assert_eq!(PlanAction::SkipNoTarget.as_str(), "SKIP_NO_TARGET");
    assert_eq!(PlanAction::SkipFiltered.as_str(), "SKIP_FILTERED");
    assert_eq!(PlanAction::SkipEclipsed.as_str(), "SKIP_ECLIPSED");
    assert_eq!(PlanAction::Error.as_str(), "ERROR");
    assert!(PlanAction::Insert.is_dml());
    assert!(PlanAction::Update.is_dml());
    assert!(PlanAction::Delete.is_dml());
    assert!(!PlanAction::SkipIdentical.is_dml());
    assert!(!PlanAction::Error.is_dml());
}

#[test]
fn texts_are_compared_by_code_point() {
    assert!(same_text("abc", "abc"));
    assert!(!same_text("abc", "abd"));
    assert!(!same_text("abc", "ab"));
    assert!(same_text("", ""));
    assert!(text_lt("", "a"));
    assert!(!text_lt("a", ""));
    assert!(!text_lt("a", "a"));
    assert!(text_lt("a", "ab"));
    assert!(text_lt("ab", "b"));
    assert!(text_lt("Z", "a"));
    assert!(text_lt("z", "\u{e9}"));
    assert!(text_lt("\u{e9}", "\u{1f600}"));
    assert_eq!("z" < "\u{e9}", text_lt("z", "\u{e9}"));
    assert!(has_char("a b", ' '));
    assert!(!has_char("ab", ' '));
    assert_eq!(chars_of("h\u{e9}"), vec!['h', '\u{e9}']);
    assert_eq!(text_of_chars(&vec!['o', 'k']), "ok");
}

#[test]
fn parts_are_joined() {
    let parts = |v: &[&str]| v.iter().map(|s| s.to_string()).collect::<Vec<String>>();
    assert_eq!(join(&parts(&[]), "__"), "");
    assert_eq!(join(&parts(&["a"]), "__"), "a");
    assert_eq!(join(&parts(&["a", "b", "c"]), "__"), "a__b__c");
    assert_eq!(join(&parts(&["", ""]), ", "), ", ");
}

#[test]
fn identifiers_are_quoted() {
    assert_eq!(qi("name"), "\"name\"");
    assert_eq!(qi("a\"b"), "\"a\"\"b\"");
    assert_eq!(qi(""), "\"\"");
    assert_eq!(qi("\""), "\"\"\"\"");
}

#[test]
fn fields_are_kept_in_the_order_of_their_names() {
    let mut f = Fields::new();
    assert!(f.is_empty());
    f.insert("b".to_string(), number("2"));
    f.insert("a".to_string(), number("1"));
    f.insert("c".to_string(), Value::Null);
    f.insert("b".to_string(), text("two"));
    assert_eq!(f.len(), 3);
    assert_eq!(f.key_at(0), "a");
    assert_eq!(f.key_at(1), "b");
    assert_eq!(f.key_at(2), "c");
    assert_eq!(f.value_at(1), &text("two"));
    assert_eq!(f.get("a"), Some(&number("1")));
    assert_eq!(f.get("c"), Some(&Value::Null));
    assert_eq!(f.get("d"), None);
    assert!(f.contains_key("c"));
    assert!(!f.contains_key("d"));
    assert!(same_fields(&f, &f.clone()));
    assert!(!same_fields(&f, &Fields::new()));
}

#[test]
fn values_are_told_apart_by_kind() {
    assert!(number("1").same(&number("1")));
    assert!(!number("1").same(&text("1")));
    assert!(!Value::Null.same(&Value::Bool(false)));
    assert!(Value::Bool(true).same(&Value::Bool(true)));
    assert!(Value::Null.is_null());
    assert!(!text("").is_null());
    assert_eq!(number("12.5").render(), "12.5");
    assert_eq!(text("x y").render(), "x y");
    assert_eq!(Value::Bool(true).render(), "true");
    assert_eq!(Value::Bool(false).render(), "false");
    assert_eq!(Value::Null.render(), "_NULL_");
}

#[test]
fn nulls_count_as_absent_when_payloads_are_compared() {
    let a = fields(&[("a", number("1")), ("b", Value::Null)]);
    let b = fields(&[("a", number("1"))]);
    let c = fields(&[("a", number("2"))]);
    let d = fields(&[("a", number("1")), ("c", text("x"))]);
    assert!(maps_equal_ignoring_nulls(&a, &b));
    assert!(maps_equal_ignoring_nulls(&b, &a));
    assert!(!maps_equal_ignoring_nulls(&a, &c));
    assert!(!maps_equal_ignoring_nulls(&a, &d));
    assert!(!maps_equal_ignoring_nulls(&d, &a));
    assert!(maps_equal_ignoring_nulls(&Fields::new(), &fields(&[("z", Value::Null)])));
}

#[test]
fn payloads_are_laid_over_each_other() {
    let base = fields(&[("a", number("1")), ("b", text("old")), ("c", text("kept"))]);
    let src = fields(&[("a", Value::Null), ("b", Value::Null), ("d", text("new"))]);
    // A patch leaves out every NULL.
    let mut patched = base.clone();
    overlay_onto(&mut patched, &src, true, &Vec::new());
    assert_eq!(
        patched,
        fields(&[("a", number("1")), ("b", text("old")), ("c", text("kept")), ("d", text("new"))])
    );
    // Else a NULL overwrites, but for the columns that keep their value.
    let mut upserted = base.clone();
    overlay_onto(&mut upserted, &src, false, &vec!["b".to_string()]);
    assert_eq!(
        upserted,
        fields(&[("a", Value::Null), ("b", text("old")), ("c", text("kept")), ("d", text("new"))])
    );
    let merged = merge_data_ephemeral(&Some(base.clone()), &Some(fields(&[("c", Value::Null)])));
    assert_eq!(merged, Some(fields(&[("a", number("1")), ("b", text("old")), ("c", Value::Null)])));
    assert_eq!(merge_data_ephemeral(&None, &None), None);
    assert_eq!(merge_data_ephemeral(&Some(base.clone()), &None), Some(base.clone()));
    assert_eq!(merge_data_ephemeral(&None, &Some(src.clone())), Some(src.clone()));
}

#[test]
fn keys_are_built_from_values_that_are_not_null() {
    let map = fields(&[("ssn", text("555")), ("nr", Value::Null), ("dept", number("7"))]);
    let cols = |v: &[&str]| v.iter().map(|s| s.to_string()).collect::<Vec<String>>();
    assert_eq!(build_key_for_cols(&map, &cols(&["ssn", "dept"])), "ssn=555__dept=7");
    assert_eq!(build_key_for_cols(&map, &cols(&["nr", "ssn", "missing"])), "ssn=555");
    assert_eq!(build_key_for_cols(&map, &cols(&["nr"])), "");
    assert_eq!(build_key_for_cols(&map, &cols(&[])), "");
    assert_eq!(json_map_to_key(&map), "dept=7__ssn=555");
    assert_eq!(json_map_to_key(&fields(&[("a", text("1")), ("a!", text("2"))])), "a!=2__a=1");
    assert_eq!(json_map_to_key(&Fields::new()), "");
    assert_eq!(
        json_to_pg_text(&fields(&[("id", number("1")), ("name", text("Ann")), ("x", Value::Null), ("y", Value::Bool(true))])),
        "{\"id\": 1, \"name\": \"Ann\", \"x\": null, \"y\": true}"
    );
    assert_eq!(json_to_pg_text(&Fields::new()), "{}");
}

#[test]
fn ranges_are_written_with_quotes_where_needed() {
    assert_eq!(format_range("2024-01-01", "2025-01-01"), "[2024-01-01,2025-01-01)");
    assert_eq!(
        format_range("2023-12-31 16:00:00-08", "2024-12-30 16:00:00-08"),
        "[\"2023-12-31 16:00:00-08\",\"2024-12-30 16:00:00-08\")"
    );
    assert_eq!(format_range("1", "infinity"), "[1,infinity)");
    assert_eq!(format_range("a\tb", ""), "[\"a\tb\",)");
}

#[test]
fn the_number_before_a_number() {
    assert_eq!(number_minus_one("10").as_deref(), Some("9"));
    assert_eq!(number_minus_one("0").as_deref(), Some("-1"));
    assert_eq!(number_minus_one("-7").as_deref(), Some("-8"));
    assert_eq!(number_minus_one("+0012").as_deref(), Some("11"));
    assert_eq!(number_minus_one("9223372036854775807").as_deref(), Some("9223372036854775806"));
    assert_eq!(number_minus_one("-9223372036854775807").as_deref(), Some("-9223372036854775808"));
    assert_eq!(number_minus_one("-9223372036854775808"), None);
    assert_eq!(number_minus_one("9223372036854775808"), None);
    assert_eq!(number_minus_one("10.5"), None);
    assert_eq!(number_minus_one("infinity"), None);
    assert_eq!(number_minus_one(""), None);
    assert_eq!(number_minus_one("-"), None);
    assert_eq!(number_minus_one("-+5"), None);
    assert_eq!(number_minus_one("2024-01-01"), None);
    assert_eq!(parse_integer("-0"), Some(0));
    assert_eq!(parse_integer("-9223372036854775808"), Some(i64::MIN));
    assert_eq!(parse_integer("18446744073709551616"), None);
    assert_eq!(parse_integer("99999999999999999999999999999999999999999"), None);
    assert_eq!(integer_text(-120), "-120");
}

#[test]
fn the_day_before_a_date() {
    assert_eq!(date_minus_one("2024-06-15").as_deref(), Some("2024-06-14"));
    assert_eq!(date_minus_one("2024-06-01").as_deref(), Some("2024-05-31"));
    assert_eq!(date_minus_one("2024-03-01").as_deref(), Some("2024-02-29"));
    assert_eq!(date_minus_one("2023-03-01").as_deref(), Some("2023-02-28"));
    assert_eq!(date_minus_one("1900-03-01").as_deref(), Some("1900-02-28"));
    assert_eq!(date_minus_one("2000-03-01").as_deref(), Some("2000-02-29"));
    assert_eq!(date_minus_one("2024-01-01").as_deref(), Some("2023-12-31"));
    assert_eq!(date_minus_one("2024-05-01").as_deref(), Some("2024-04-30"));
    assert_eq!(date_minus_one("0000-01-01").as_deref(), Some("-001-12-31"));
    assert_eq!(date_minus_one("987-1-2").as_deref(), Some("0987-01-01"));
    assert_eq!(date_minus_one("12345-10-10").as_deref(), Some("12345-10-09"));
    assert_eq!(date_minus_one("+2024-+06-+15").as_deref(), Some("2024-06-14"));
    assert_eq!(date_minus_one("2024-14-01"), None);
    assert_eq!(date_minus_one("2024-14-02").as_deref(), Some("2024-14-01"));
    assert_eq!(date_minus_one("2024-00-00").as_deref(), Some("2023-12-31"));
    assert_eq!(date_minus_one("infinity"), None);
    assert_eq!(date_minus_one("2024-06"), None);
    assert_eq!(date_minus_one("2024-06-15-1"), None);
    assert_eq!(date_minus_one("2024-06-1x"), None);
    assert_eq!(date_minus_one("2024--15"), None);
    assert_eq!(date_minus_one(""), None);
    assert_eq!(date_minus_one("2147483648-01-02"), None);
    assert_eq!(date_minus_one("2147483647-01-02").as_deref(), Some("2147483647-01-01"));
    assert_eq!(date_minus_one("2024-4294967296-02"), None);
    assert_eq!(date_minus_one("2024-06-15 00:00:00"), None);
}

#[test]
fn multiranges_join_what_touches() {
    let mut mr: Vec<(Bound, Bound)> = Vec::new();
    multirange_add(&mut mr, date("2024-03-01"), date("2024-04-01"), false);
    multirange_add(&mut mr, date("2024-01-01"), date("2024-02-01"), false);
    assert_eq!(mr.len(), 2);
    assert_eq!(mr[0].0.text, "2024-01-01");
    assert!(!multirange_contains(&mr, &date("2024-01-15"), &date("2024-03-15"), false));
    assert!(multirange_contains(&mr, &date("2024-01-15"), &date("2024-02-01"), false));
    // The gap is closed by an interval that touches both.
    multirange_add(&mut mr, date("2024-02-01"), date("2024-03-01"), false);
    assert_eq!(mr.len(), 1);
    assert_eq!(mr[0].0.text, "2024-01-01");
    assert_eq!(mr[0].1.text, "2024-04-01");
    assert!(multirange_contains(&mr, &date("2024-01-15"), &date("2024-03-15"), false));
    assert!(multirange_contains(&mr, &date("2024-01-01"), &date("2024-04-01"), false));
    assert!(!multirange_contains(&mr, &date("2024-01-01"), &date("2024-04-02"), false));
    multirange_add(&mut mr, date("2024-01-10"), date("2024-01-20"), false);
    assert_eq!(mr.len(), 1);
    assert_eq!(mr[0].1.text, "2024-04-01");
    let mut numeric: Vec<(Bound, Bound)> = Vec::new();
    multirange_add(&mut numeric, num("9", 9), num("10", 10), true);
    multirange_add(&mut numeric, num("10", 10), num("11", 11), true);
    assert_eq!(numeric.len(), 1);
    assert!(multirange_contains(&numeric, &num("9", 9), &num("11", 11), true));
}

#[test]
fn hashes_are_written_in_hexadecimal() {
    assert_eq!(hex16_text(0), "0000000000000000");
    assert_eq!(hex16_text(0x0123_4567_89ab_cdef), "0123456789abcdef");
    assert_eq!(hex16_text(u64::MAX), "ffffffffffffffff");
    assert_eq!(hex16_text(255), "00000000000000ff");
}

#[test]
fn the_hash_is_that_of_xxh3() {
    // The hash of the empty input with seed 0.
    assert_eq!(hash_text(""), "2d06800538d394c2");
    assert_ne!(hash_text("a"), hash_text("b"));
    assert_eq!(hash_text("a").len(), 16);
}

#[test]
fn payloads_are_hashed_as_json_without_nulls() {
    let payload = fields(&[
        ("b", text("x\"y")),
        ("a", Value::Null),
        ("n", number("12")),
        ("t", Value::Bool(true)),
    ]);
    assert_eq!(object_text(&payload), "{\"a\":null,\"b\":\"x\\\"y\",\"n\":12,\"t\":true}");
    assert_eq!(object_text(&Fields::new()), "{}");
    assert_eq!(object_text(&fields(&[("k\n", text("\\"))])), "{\"k\\n\":\"\\\\\"}");
    assert_eq!(content_hash(&payload), hash_text("{\"b\":\"x\\\"y\",\"n\":12,\"t\":true}"));
    assert_eq!(content_hash(&Fields::new()), hash_text("{}"));
    // The order in which the fields were set does not count, nor do NULLs.
    let other = fields(&[("t", Value::Bool(true)), ("n", number("12")), ("b", text("x\"y"))]);
    assert_eq!(content_hash(&payload), content_hash(&other));
    assert_ne!(content_hash(&payload), content_hash(&fields(&[("n", number("13"))])));
}
