use temporal_merge::canonical::canonicalize_new_entity_nks;
use temporal_merge::classify::{classify_operations, classify_single_diff};
use temporal_merge::coalesce::{coalesce_segments, tidy_ids};
use temporal_merge::correlate::correlate_entities;
use temporal_merge::diff::compute_diff;
use temporal_merge::eclipse::detect_eclipsed;
use temporal_merge::hashing::content_hash;
use temporal_merge::interval::{AllenRelation, Bound, UpdateEffect};
use temporal_merge::keys::build_grouping_key;
use temporal_merge::plan::{make_feedback_plan_row, plan_merge, sweep_line_plan};
use temporal_merge::resolve::{resolve_payloads, resolve_source_payload};
use temporal_merge::segments::{
    active_sources, build_atomic_segments, filter_by_mode, group_by_entity,
};
use temporal_merge::sequence::sequence_statements;
use temporal_merge::types::{
    CoalescedSegment, DeleteMode, DiffRow, EarlyFeedback, EntityGroup, EraMetadata, Feedback,
    IdentityStrategy, MatchedSourceRow, MergeMode, PlanAction, PlanRow, PlannerContext,
    ResolvedSegment, SourceRow, TargetRow,
};
use temporal_merge::validate::ConfigError;
use temporal_merge::value::{Fields, Value};

fn text(s: &str) -> Value {
    Value::Text(s.to_string())
}

fn number(s: &str) -> Value {
    Value::Number(s.to_string())
}

fn fields(entries: &[(&str, Value)]) -> Fields {
    let mut f = Fields::new();
    for (k, v) in entries {
        f.insert(k.to_string(), v.clone());
    }
    f
}

fn date(s: &str) -> Bound {
    Bound::of_text(s.to_string())
}

fn names(cols: &[&str]) -> Vec<String> {
    cols.iter().map(|c| c.to_string()).collect()
}

fn context(mode: MergeMode, delete_mode: DeleteMode, identity: &[&str], key_sets: &[&[&str]]) -> PlannerContext {
    let mut all: Vec<String> = Vec::new();
    for ks in key_sets {
        for c in ks.iter() {
            if !all.contains(&c.to_string()) {
                all.push(c.to_string());
            }
        }
    }
    all.sort();
    let strategy = match (identity.is_empty(), all.is_empty()) {
        (false, false) => IdentityStrategy::Hybrid,
        (false, true) => IdentityStrategy::IdentityKeyOnly,
        (true, false) => IdentityStrategy::LookupKeyOnly,
        (true, true) => IdentityStrategy::Undefined,
    };
    PlannerContext {
        mode,
        delete_mode,
        era: EraMetadata {
            range_col: "valid_range".to_string(),
            valid_from_col: "valid_from".to_string(),
            valid_until_col: "valid_until".to_string(),
            valid_to_col: None,
            range_type: "daterange".to_string(),
            multirange_type: "datemultirange".to_string(),
            range_subtype: "date".to_string(),
            range_subtype_category: 'D',
            ephemeral_columns: Vec::new(),
        },
        identity_columns: names(identity),
        all_lookup_cols: all,
        lookup_key_sets: key_sets.iter().map(|ks| names(ks)).collect(),
        original_entity_key_cols: Vec::new(),
        original_entity_segment_key_cols: Vec::new(),
        temporal_cols: names(&["valid_range", "valid_from", "valid_until"]),
        pk_cols: Vec::new(),
        strategy,
        ephemeral_columns: Vec::new(),
        founding_id_column: None,
        row_id_column: "row_id".to_string(),
        log_trace: false,
        exclude_if_null_columns: Vec::new(),
    }
}

fn source(row_id: i64, from: &str, until: &str, identity: Fields, lookup: Fields, data: Fields) -> SourceRow {
    let is_identifiable = identity.is_empty()
        || (0..identity.len()).any(|i| !identity.value_at(i).is_null());
    let lookup_cols_are_null = (0..lookup.len()).all(|i| lookup.value_at(i).is_null());
    SourceRow {
        row_id,
        causal_id: row_id.to_string(),
        valid_from: date(from),
        valid_until: date(until),
        stable_pk_payload: identity.clone(),
        identity_keys: identity,
        lookup_keys: lookup,
        data_payload: data,
        ephemeral_payload: Fields::new(),
        is_identifiable,
        lookup_cols_are_null,
    }
}

fn target(from: &str, until: &str, identity: Fields, lookup: Fields, data: Fields) -> TargetRow {
    TargetRow {
        valid_from: date(from),
        valid_until: date(until),
        identity_keys: identity,
        lookup_keys: lookup,
        data_payload: data,
        ephemeral_payload: Fields::new(),
        pk_payload: Fields::new(),
    }
}

fn matched(row: SourceRow, is_new: bool, key: &str) -> MatchedSourceRow {
    MatchedSourceRow {
        source: row,
        is_new_entity: is_new,
        grouping_key: key.to_string(),
        discovered_identity: None,
        canonical_nk: None,
        early_feedback: None,
        is_eclipsed: false,
    }
}

fn resolved(key: &str, from: &str, until: &str, hash: Option<&str>, ids: &[i64]) -> ResolvedSegment {
    ResolvedSegment {
        grouping_key: key.to_string(),
        valid_from: date(from),
        valid_until: date(until),
        is_new_entity: false,
        identity_keys: Fields::new(),
        causal_id: None,
        row_ids: ids.to_vec(),
        source_valid_from: None,
        source_valid_until: None,
        target_valid_from: None,
        target_valid_until: None,
        data_payload: None,
        ephemeral_payload: None,
        target_data_payload: None,
        data_hash: hash.map(|h| h.to_string()),
        has_source_coverage: false,
        has_target_coverage: false,
        s_t_relation: None,
    }
}

#[test]
fn rows_are_correlated_by_identity_first() {
    let ctx = context(MergeMode::MergeEntityUpsert, DeleteMode::Nothing, &["id"], &[&["ssn"]]);
    let targets = vec![
        target(
            "2024-01-01",
            "2025-01-01",
            fields(&[("id", number("1"))]),
            fields(&[("ssn", text("111"))]),
            Fields::new(),
        ),
        target(
            "2024-01-01",
            "2025-01-01",
            fields(&[("id", number("2"))]),
            fields(&[("ssn", text("222"))]),
            Fields::new(),
        ),
    ];
    let sources = vec![
        // Found by its identity, though its key is that of the other entity.
        source(1, "2024-01-01", "2024-02-01", fields(&[("id", number("1"))]), fields(&[("ssn", text("222"))]), Fields::new()),
        // Found by its key.
        source(2, "2024-01-01", "2024-02-01", fields(&[("id", Value::Null)]), fields(&[("ssn", text("222"))]), Fields::new()),
        // Found by nothing.
        source(3, "2024-01-01", "2024-02-01", fields(&[("id", Value::Null)]), fields(&[("ssn", text("333"))]), Fields::new()),
        // An identity that the target does not have.
        source(4, "2024-01-01", "2024-02-01", fields(&[("id", number("9"))]), fields(&[("ssn", Value::Null)]), Fields::new()),
    ];
    let rows = correlate_entities(&sources, &targets, &ctx);
    assert_eq!(rows.len(), 4);
    assert!(!rows[0].is_new_entity);
    assert_eq!(rows[0].grouping_key, "existing_entity__1");
    assert_eq!(rows[0].discovered_identity, Some(fields(&[("id", number("1"))])));
    assert_eq!(rows[0].canonical_nk, None);
    assert!(!rows[1].is_new_entity);
    assert_eq!(rows[1].grouping_key, "existing_entity__2");
    assert_eq!(rows[1].discovered_identity, Some(fields(&[("id", number("2"))])));
    assert_eq!(rows[1].canonical_nk, Some(fields(&[("ssn", text("222"))])));
    assert!(rows[2].is_new_entity);
    assert_eq!(rows[2].grouping_key, "new_entity__333");
    assert_eq!(rows[2].discovered_identity, None);
    assert!(rows[3].is_new_entity);
    assert_eq!(rows[3].grouping_key, "new_entity___NULL_");
    assert!(rows.iter().all(|r| r.early_feedback.is_none() && !r.is_eclipsed));
    assert_eq!(rows[2].source.row_id, 3);
}

#[test]
fn a_founding_id_makes_one_entity() {
    let mut ctx = context(MergeMode::MergeEntityUpsert, DeleteMode::Nothing, &["id"], &[&["ssn"]]);
    ctx.founding_id_column = Some("founding_id".to_string());
    let mut row = source(5, "2024-01-01", "2024-02-01", fields(&[("id", Value::Null)]), fields(&[("ssn", Value::Null)]), Fields::new());
    row.causal_id = "batch-7".to_string();
    assert_eq!(build_grouping_key(&row, true, &None, &None, &ctx), "new_entity__batch-7");
    // With a founding id a row without keys is no error.
    let rows = correlate_entities(&vec![row], &Vec::new(), &ctx);
    assert!(rows[0].early_feedback.is_none());
    assert_eq!(rows[0].grouping_key, "new_entity__batch-7");
}

#[test]
fn a_generated_key_is_identity_enough() {
    let ctx = context(MergeMode::MergeEntityUpsert, DeleteMode::Nothing, &["id"], &[]);
    let row = source(5, "2024-01-01", "2024-02-01", fields(&[("id", Value::Null)]), Fields::new(), Fields::new());
    let rows = correlate_entities(&vec![row], &Vec::new(), &ctx);
    assert!(rows[0].early_feedback.is_none());
    assert!(rows[0].is_new_entity);
    // Without any key the causal id stands for the entity.
    assert_eq!(rows[0].grouping_key, "new_entity__5");
}

#[test]
fn fragments_are_put_under_one_key() {
    let ctx = context(
        MergeMode::MergeEntityUpsert,
        DeleteMode::Nothing,
        &["id"],
        &[&["ssn"], &["employee_nr"]],
    );
    let no_id = fields(&[("id", Value::Null)]);
    let sources = vec![
        source(1, "2024-01-01", "2024-04-01", no_id.clone(), fields(&[("employee_nr", Value::Null), ("ssn", text("555"))]), Fields::new()),
        source(2, "2024-04-01", "2024-08-01", no_id.clone(), fields(&[("employee_nr", text("E1")), ("ssn", Value::Null)]), Fields::new()),
        source(3, "2024-08-01", "2025-01-01", no_id.clone(), fields(&[("employee_nr", text("E1")), ("ssn", text("555"))]), Fields::new()),
        source(4, "2024-08-01", "2025-01-01", no_id.clone(), fields(&[("employee_nr", text("E2")), ("ssn", Value::Null)]), Fields::new()),
    ];
    let rows = correlate_entities(&sources, &Vec::new(), &ctx);
    assert_eq!(rows[0].grouping_key, "new_entity___NULL___555");
    let rows = canonicalize_new_entity_nks(rows, &ctx);
    let whole = fields(&[("employee_nr", text("E1")), ("ssn", text("555"))]);
    assert_eq!(rows[0].grouping_key, "new_entity__E1__555");
    assert_eq!(rows[1].grouping_key, "new_entity__E1__555");
    assert_eq!(rows[2].grouping_key, "new_entity__E1__555");
    assert_eq!(rows[0].canonical_nk, Some(whole.clone()));
    assert_eq!(rows[1].canonical_nk, Some(whole.clone()));
    // The row that has the whole key already is left as it is.
    assert_eq!(rows[2].canonical_nk, None);
    assert_eq!(rows[3].grouping_key, "new_entity__E2___NULL_");
    assert_eq!(rows[3].canonical_nk, None);
}

#[test]
fn a_row_is_eclipsed_only_by_rows_of_its_partition() {
    let ctx = context(MergeMode::MergeEntityUpsert, DeleteMode::Nothing, &["id"], &[&["ssn"]]);
    let no_id = fields(&[("id", Value::Null)]);
    let a = fields(&[("ssn", text("1"))]);
    let b = fields(&[("ssn", text("2"))]);
    let rows = vec![
        matched(source(1, "2024-01-01", "2024-02-01", no_id.clone(), a.clone(), Fields::new()), true, "new_entity__1"),
        matched(source(2, "2024-01-01", "2024-03-01", no_id.clone(), a.clone(), Fields::new()), true, "new_entity__1"),
        matched(source(3, "2024-01-01", "2024-02-01", no_id.clone(), b.clone(), Fields::new()), true, "new_entity__2"),
        matched(source(4, "2024-01-15", "2024-02-01", no_id.clone(), b.clone(), Fields::new()), true, "new_entity__2"),
    ];
    let rows = detect_eclipsed(rows, &ctx);
    assert!(rows[0].is_eclipsed);
    assert!(!rows[1].is_eclipsed);
    // Row 4 covers only a part of row 3.
    assert!(!rows[2].is_eclipsed);
    assert!(!rows[3].is_eclipsed);
}

#[test]
fn a_row_with_feedback_neither_eclipses_nor_is_eclipsed() {
    let ctx = context(MergeMode::MergeEntityUpsert, DeleteMode::Nothing, &["id"], &[&["ssn"]]);
    let no_id = fields(&[("id", Value::Null)]);
    let a = fields(&[("ssn", text("1"))]);
    let mut faulty = matched(source(2, "2024-01-01", "2024-03-01", no_id.clone(), a.clone(), Fields::new()), true, "k");
    faulty.early_feedback = Some(EarlyFeedback { action: PlanAction::Error, message: None });
    let rows = vec![
        matched(source(1, "2024-01-01", "2024-02-01", no_id.clone(), a.clone(), Fields::new()), true, "k"),
        faulty,
    ];
    let rows = detect_eclipsed(rows, &ctx);
    assert!(!rows[0].is_eclipsed);
    assert!(!rows[1].is_eclipsed);
}

#[test]
fn groups_stand_in_the_order_of_their_keys() {
    let ctx = context(MergeMode::MergeEntityUpsert, DeleteMode::DeleteMissingEntities, &["id"], &[]);
    let id = |n: &str| fields(&[("id", number(n))]);
    let rows = vec![
        matched(source(1, "2024-01-01", "2024-02-01", id("2"), Fields::new(), Fields::new()), false, "existing_entity__2"),
        matched(source(2, "2024-01-01", "2024-02-01", id("9"), Fields::new(), Fields::new()), true, "new_entity__9"),
        matched(source(3, "2024-02-01", "2024-03-01", id("2"), Fields::new(), Fields::new()), false, "existing_entity__2"),
    ];
    let targets = vec![
        target("2024-01-01", "2025-01-01", id("2"), Fields::new(), Fields::new()),
        target("2024-01-01", "2025-01-01", id("1"), Fields::new(), Fields::new()),
    ];
    let groups = group_by_entity(rows, &targets, &ctx);
    let keys: Vec<&str> = groups.iter().map(|g| g.grouping_key.as_str()).collect();
    assert_eq!(keys, vec!["existing_entity__1", "existing_entity__2", "new_entity__9"]);
    assert_eq!(groups[0].source_rows.len(), 0);
    assert_eq!(groups[0].target_rows.len(), 1);
    assert_eq!(groups[1].source_rows.len(), 2);
    assert_eq!(groups[1].source_rows[1].source.row_id, 3);
    assert_eq!(groups[1].target_rows.len(), 1);
    assert!(groups[2].is_new_entity);
    assert_eq!(groups[2].identity_keys, id("9"));
    // Without deletion of entities the target alone founds no group.
    let mut keep = context(MergeMode::MergeEntityUpsert, DeleteMode::Nothing, &["id"], &[]);
    keep.delete_mode = DeleteMode::DeleteMissingTimeline;
    let groups = group_by_entity(Vec::new(), &targets, &keep);
    assert!(groups.is_empty());
}

fn group(new: bool, sources: Vec<MatchedSourceRow>, targets: Vec<TargetRow>) -> EntityGroup {
    EntityGroup {
        grouping_key: "g".to_string(),
        is_new_entity: new,
        identity_keys: fields(&[("id", number("7"))]),
        source_rows: sources,
        target_rows: targets,
    }
}

#[test]
fn time_is_cut_at_every_bound() {
    let ctx = context(MergeMode::MergeEntityUpsert, DeleteMode::Nothing, &["id"], &[]);
    let id = fields(&[("id", number("7"))]);
    let mut second = matched(source(9, "2024-06-01", "2024-09-01", id.clone(), Fields::new(), Fields::new()), false, "g");
    second.source.causal_id = "a".to_string();
    let g = group(
        false,
        vec![
            matched(source(10, "2024-03-01", "2024-06-01", id.clone(), Fields::new(), Fields::new()), false, "g"),
            second,
        ],
        vec![target("2024-01-01", "2024-06-01", id.clone(), Fields::new(), Fields::new())],
    );
    let active = active_sources(&g);
    assert_eq!(active.len(), 2);
    let segments = build_atomic_segments(&g, &active, &ctx);
    let cut: Vec<(&str, &str)> = segments
        .iter()
        .map(|s| (s.valid_from.text.as_str(), s.valid_until.text.as_str()))
        .collect();
    assert_eq!(
        cut,
        vec![("2024-01-01", "2024-03-01"), ("2024-03-01", "2024-06-01"), ("2024-06-01", "2024-09-01")]
    );
    // An existing entity goes by the least causal id of its rows.
    assert!(segments.iter().all(|s| s.causal_id.as_deref() == Some("10")));
    assert!(segments.iter().all(|s| s.grouping_key == "g" && !s.is_new_entity));
    assert!(build_atomic_segments(&group(true, Vec::new(), Vec::new()), &Vec::new(), &ctx).is_empty());
}

#[test]
fn numeric_bounds_are_cut_in_the_order_of_their_values() {
    let mut ctx = context(MergeMode::MergeEntityUpsert, DeleteMode::Nothing, &["id"], &[]);
    ctx.era.range_subtype_category = 'N';
    let id = fields(&[("id", number("7"))]);
    let mut row = source(1, "9", "10", id.clone(), Fields::new(), Fields::new());
    row.valid_from = Bound { text: "9".to_string(), rank: 9 };
    row.valid_until = Bound { text: "10".to_string(), rank: 10 };
    let mut tr = target("10", "100", id.clone(), Fields::new(), Fields::new());
    tr.valid_from = Bound { text: "10".to_string(), rank: 10 };
    tr.valid_until = Bound { text: "100".to_string(), rank: 100 };
    let g = group(false, vec![matched(row, false, "g")], vec![tr]);
    let active = active_sources(&g);
    let segments = build_atomic_segments(&g, &active, &ctx);
    let cut: Vec<(&str, &str)> = segments
        .iter()
        .map(|s| (s.valid_from.text.as_str(), s.valid_until.text.as_str()))
        .collect();
    assert_eq!(cut, vec![("9", "10"), ("10", "100")]);
}

#[test]
fn modes_keep_the_rows_that_they_have_a_use_for() {
    let id = fields(&[("id", number("7"))]);
    let rows = vec![
        matched(source(1, "2024-01-01", "2024-02-01", id.clone(), Fields::new(), Fields::new()), true, "n"),
        matched(source(2, "2024-01-01", "2024-02-01", id.clone(), Fields::new(), Fields::new()), false, "e"),
    ];
    let ids = |mode: MergeMode| -> Vec<i64> {
        let ctx = context(mode, DeleteMode::Nothing, &["id"], &[]);
        filter_by_mode(&rows, &ctx).iter().map(|r| r.source.row_id).collect()
    };
    assert_eq!(ids(MergeMode::InsertNewEntities), vec![1]);
    assert_eq!(ids(MergeMode::UpdateForPortionOf), vec![2]);
    assert_eq!(ids(MergeMode::PatchForPortionOf), vec![2]);
    assert_eq!(ids(MergeMode::ReplaceForPortionOf), vec![2]);
    assert_eq!(ids(MergeMode::DeleteForPortionOf), vec![2]);
    assert_eq!(ids(MergeMode::MergeEntityUpsert), vec![1, 2]);
    assert_eq!(ids(MergeMode::MergeEntityPatch), vec![1, 2]);
    assert_eq!(ids(MergeMode::MergeEntityReplace), vec![1, 2]);
}

#[test]
fn payloads_are_merged_as_the_mode_says() {
    let id = fields(&[("id", number("7"))]);
    let covering = vec![
        matched(
            source(1, "2024-01-01", "2025-01-01", id.clone(), Fields::new(), fields(&[("a", number("1")), ("b", Value::Null)])),
            false,
            "g",
        ),
        matched(
            source(2, "2024-01-01", "2025-01-01", id.clone(), Fields::new(), fields(&[("a", Value::Null), ("c", text("x"))])),
            false,
            "g",
        ),
    ];
    let tr = target(
        "2024-01-01",
        "2025-01-01",
        id.clone(),
        Fields::new(),
        fields(&[("a", number("0")), ("b", text("kept")), ("d", text("own"))]),
    );
    let patch = context(MergeMode::MergeEntityPatch, DeleteMode::Nothing, &["id"], &[]);
    let (data, ids) = resolve_source_payload(&covering, Some(&tr), &patch);
    assert_eq!(
        data,
        Some(fields(&[("a", number("1")), ("b", text("kept")), ("c", text("x")), ("d", text("own"))]))
    );
    assert_eq!(ids, vec![1, 2]);
    let mut upsert = context(MergeMode::MergeEntityUpsert, DeleteMode::Nothing, &["id"], &[]);
    upsert.exclude_if_null_columns = names(&["b"]);
    let (data, ids) = resolve_source_payload(&covering, Some(&tr), &upsert);
    assert_eq!(
        data,
        Some(fields(&[("a", Value::Null), ("b", text("kept")), ("c", text("x")), ("d", text("own"))]))
    );
    assert_eq!(ids, vec![1, 2]);
    let replace = context(MergeMode::MergeEntityReplace, DeleteMode::Nothing, &["id"], &[]);
    let (data, ids) = resolve_source_payload(&covering, None, &replace);
    assert_eq!(data, Some(fields(&[("a", Value::Null), ("b", Value::Null), ("c", text("x"))])));
    // The last writer wins: only the last source is named.
    assert_eq!(ids, vec![2]);
    let (data, ids) = resolve_source_payload(&Vec::new(), Some(&tr), &upsert);
    assert_eq!(data, Some(tr.data_payload.clone()));
    assert!(ids.is_empty());
    let (data, ids) = resolve_source_payload(&Vec::new(), None, &upsert);
    assert_eq!(data, None);
    assert!(ids.is_empty());
}

#[test]
fn segments_are_resolved() {
    let ctx = context(MergeMode::MergeEntityUpsert, DeleteMode::Nothing, &["id"], &[]);
    let id = fields(&[("id", number("7"))]);
    let bob = fields(&[("name", text("Bob"))]);
    let ann = fields(&[("name", text("Ann"))]);
    let g = group(
        false,
        vec![matched(source(1, "2024-03-01", "2024-06-01", id.clone(), Fields::new(), bob.clone()), false, "g")],
        vec![target("2024-01-01", "2024-06-01", id.clone(), Fields::new(), ann.clone())],
    );
    let active = active_sources(&g);
    let segments = build_atomic_segments(&g, &active, &ctx);
    let resolved = resolve_payloads(segments, &active, &g.target_rows, &ctx);
    assert_eq!(resolved.len(), 2);
    // The part of the target alone is put down to the row that touches it.
    assert!(!resolved[0].has_source_coverage);
    assert!(resolved[0].has_target_coverage);
    assert_eq!(resolved[0].row_ids, vec![1]);
    assert_eq!(resolved[0].data_payload, Some(ann.clone()));
    assert_eq!(resolved[0].data_hash, Some(content_hash(&ann)));
    assert_eq!(resolved[0].s_t_relation, Some(AllenRelation::Finishes));
    assert_eq!(resolved[0].source_valid_from.as_ref().map(|b| b.text.as_str()), Some("2024-03-01"));
    assert!(resolved[1].has_source_coverage);
    assert_eq!(resolved[1].data_payload, Some(bob.clone()));
    assert_eq!(resolved[1].target_data_payload, Some(ann.clone()));
    assert_eq!(resolved[1].data_hash, Some(content_hash(&bob)));
    assert_eq!(resolved[1].s_t_relation, Some(AllenRelation::Finishes));
    assert_eq!(resolved[1].target_valid_from.as_ref().map(|b| b.text.as_str()), Some("2024-01-01"));
    assert_eq!(resolved[1].ephemeral_payload, Some(Fields::new()));
}

#[test]
fn a_source_that_only_meets_the_target_has_no_relation_to_it() {
    let ctx = context(MergeMode::MergeEntityUpsert, DeleteMode::Nothing, &["id"], &[]);
    let id = fields(&[("id", number("7"))]);
    let ann = fields(&[("name", text("Ann"))]);
    let g = group(
        false,
        vec![matched(source(1, "2024-06-01", "2024-09-01", id.clone(), Fields::new(), ann.clone()), false, "g")],
        vec![target("2024-01-01", "2024-06-01", id.clone(), Fields::new(), ann.clone())],
    );
    let active = active_sources(&g);
    let segments = build_atomic_segments(&g, &active, &ctx);
    let resolved = resolve_payloads(segments, &active, &g.target_rows, &ctx);
    assert_eq!(resolved.len(), 2);
    assert_eq!(resolved[0].s_t_relation, None);
    assert_eq!(resolved[0].row_ids, vec![1]);
    assert_eq!(resolved[1].s_t_relation, None);
    // Equal content that touches grows the target row.
    let plan = sweep_line_plan(
        vec![source(1, "2024-06-01", "2024-09-01", id.clone(), Fields::new(), ann.clone())],
        vec![target("2024-01-01", "2024-06-01", id.clone(), Fields::new(), ann.clone())],
        &ctx,
    );
    assert_eq!(plan.len(), 1);
    assert_eq!(plan[0].operation, PlanAction::Update);
    assert_eq!(plan[0].update_effect, Some(UpdateEffect::Grow));
    assert_eq!(plan[0].new_valid_range.as_deref(), Some("[2024-01-01,2024-09-01)"));
}

#[test]
fn a_portion_beyond_the_target_is_left_out() {
    let ctx = context(MergeMode::UpdateForPortionOf, DeleteMode::Nothing, &["id"], &[]);
    let id = fields(&[("id", number("7"))]);
    let plan = sweep_line_plan(
        vec![source(1, "2024-03-01", "2024-09-01", id.clone(), Fields::new(), fields(&[("name", text("Bob"))]))],
        vec![target("2024-01-01", "2024-06-01", id.clone(), Fields::new(), fields(&[("name", text("Ann"))]))],
        &ctx,
    );
    assert_eq!(plan.len(), 2);
    assert_eq!(plan[0].operation, PlanAction::Update);
    assert_eq!(plan[0].update_effect, Some(UpdateEffect::Shrink));
    assert_eq!(plan[0].new_valid_range.as_deref(), Some("[2024-01-01,2024-03-01)"));
    assert_eq!(plan[1].operation, PlanAction::Insert);
    assert_eq!(plan[1].new_valid_range.as_deref(), Some("[2024-03-01,2024-06-01)"));
}

#[test]
fn runs_of_equal_content_are_joined() {
    let ctx = context(MergeMode::MergeEntityUpsert, DeleteMode::Nothing, &["id"], &[]);
    let mut first = resolved("g", "2024-01-01", "2024-02-01", Some("aa"), &[3]);
    first.has_source_coverage = true;
    let mut second = resolved("g", "2024-02-01", "2024-03-01", Some("aa"), &[1, 3]);
    second.target_valid_from = Some(date("2024-02-01"));
    second.s_t_relation = Some(AllenRelation::Equals);
    second.has_target_coverage = true;
    let mut third = resolved("g", "2024-03-01", "2024-04-01", Some("aa"), &[2]);
    third.target_valid_from = Some(date("2024-03-01"));
    third.s_t_relation = Some(AllenRelation::Starts);
    let segments = vec![
        first,
        second,
        third,
        // Other content.
        resolved("g", "2024-04-01", "2024-05-01", Some("bb"), &[4]),
        // A gap before it.
        resolved("g", "2024-06-01", "2024-07-01", Some("bb"), &[5]),
        // Without hash nothing is joined.
        resolved("g", "2024-07-01", "2024-08-01", None, &[6]),
        resolved("g", "2024-08-01", "2024-09-01", None, &[7]),
        // Another group.
        resolved("h", "2024-09-01", "2024-10-01", None, &[8]),
    ];
    let joined = coalesce_segments(segments, &ctx);
    let spans: Vec<(&str, &str, Vec<i64>)> = joined
        .iter()
        .map(|c| (c.valid_from.text.as_str(), c.valid_until.text.as_str(), c.row_ids.clone()))
        .collect();
    assert_eq!(
        spans,
        vec![
            ("2024-01-01", "2024-04-01", vec![1, 2, 3]),
            ("2024-04-01", "2024-05-01", vec![4]),
            ("2024-06-01", "2024-07-01", vec![5]),
            ("2024-07-01", "2024-08-01", vec![6]),
            ("2024-08-01", "2024-09-01", vec![7]),
            ("2024-09-01", "2024-10-01", vec![8]),
        ]
    );
    // Of the ancestors and relations of a run the first counts.
    assert_eq!(joined[0].ancestor_valid_from.as_ref().map(|b| b.text.as_str()), Some("2024-02-01"));
    assert_eq!(joined[0].s_t_relation, Some(AllenRelation::Equals));
    assert!(joined[0].has_source_coverage);
    assert!(joined[0].has_target_coverage);
    // No two neighbours could have been one.
    for pair in joined.windows(2) {
        assert!(
            !(pair[0].grouping_key == pair[1].grouping_key
                && pair[0].valid_until.text == pair[1].valid_from.text
                && pair[0].data_hash.is_some()
                && pair[0].data_hash == pair[1].data_hash)
        );
    }
    assert!(coalesce_segments(Vec::new(), &ctx).is_empty());
    assert_eq!(tidy_ids(vec![3, 1, 3, 2, 1]), vec![1, 2, 3]);
    assert_eq!(tidy_ids(vec![-1, i64::MIN, 5]), vec![i64::MIN, -1, 5]);
}

fn coalesced(from: &str, until: &str, ancestor: Option<&str>, data: Option<Fields>, ids: &[i64]) -> CoalescedSegment {
    CoalescedSegment {
        grouping_key: "existing_entity__7".to_string(),
        valid_from: date(from),
        valid_until: date(until),
        is_new_entity: false,
        identity_keys: fields(&[("id", number("7"))]),
        causal_id: Some("1".to_string()),
        row_ids: ids.to_vec(),
        data_payload: data,
        ephemeral_payload: None,
        ancestor_valid_from: ancestor.map(date),
        data_hash: None,
        has_source_coverage: true,
        has_target_coverage: ancestor.is_some(),
        s_t_relation: None,
    }
}

#[test]
fn a_source_within_its_target_shrinks_it() {
    let ctx = context(MergeMode::MergeEntityUpsert, DeleteMode::Nothing, &["id"], &[]);
    let id = fields(&[("id", number("7"))]);
    let data = fields(&[("name", text("Ann"))]);
    let targets = vec![target("2024-01-01", "2025-01-01", id.clone(), Fields::new(), data.clone())];
    let g = group(
        false,
        vec![matched(source(1, "2024-01-01", "2024-06-01", id.clone(), Fields::new(), data.clone()), false, "existing_entity__7")],
        vec![target("2024-01-01", "2025-01-01", id.clone(), Fields::new(), data.clone())],
    );
    let diffs = compute_diff(
        vec![coalesced("2024-01-01", "2024-06-01", Some("2024-01-01"), Some(data.clone()), &[1])],
        &targets,
        &ctx,
    );
    assert_eq!(diffs.len(), 1);
    assert_eq!(
        classify_single_diff(&diffs[0], Some(1), false),
        (PlanAction::Update, Some(UpdateEffect::Shrink))
    );
    let plan = classify_operations(diffs, &g, &ctx);
    assert_eq!(plan.len(), 1);
    assert_eq!(plan[0].operation, PlanAction::Update);
    assert_eq!(plan[0].update_effect, Some(UpdateEffect::Shrink));
    assert_eq!(plan[0].old_valid_range.as_deref(), Some("[2024-01-01,2025-01-01)"));
    assert_eq!(plan[0].new_valid_range.as_deref(), Some("[2024-01-01,2024-06-01)"));
    assert_eq!(plan[0].old_valid_from.as_ref().map(|b| b.text.as_str()), Some("2024-01-01"));
    assert_eq!(plan[0].old_valid_until.as_ref().map(|b| b.text.as_str()), Some("2025-01-01"));
    assert_eq!(plan[0].new_valid_until.as_ref().map(|b| b.text.as_str()), Some("2024-06-01"));
    assert_eq!(plan[0].b_a_relation, Some(AllenRelation::StartedBy));
    assert_eq!(plan[0].row_ids, vec![1]);
    assert_eq!(plan[0].plan_op_seq, 1);
    assert_eq!(plan[0].entity_keys, Some(id.clone()));
    assert_eq!(plan[0].lookup_keys, Some(Fields::new()));
}

#[test]
fn segments_are_set_against_their_target_rows() {
    let ctx = context(MergeMode::MergeEntityUpsert, DeleteMode::Nothing, &["id"], &[]);
    let id = fields(&[("id", number("7"))]);
    let ann = fields(&[("name", text("Ann"))]);
    let targets = vec![
        target("2024-01-01", "2024-06-01", id.clone(), Fields::new(), ann.clone()),
        target("2024-06-01", "2025-01-01", id.clone(), Fields::new(), ann.clone()),
    ];
    let diffs = compute_diff(
        vec![
            coalesced("2024-01-01", "2024-03-01", Some("2024-01-01"), Some(ann.clone()), &[1]),
            coalesced("2025-01-01", "2025-06-01", None, Some(ann.clone()), &[2]),
        ],
        &targets,
        &ctx,
    );
    assert_eq!(diffs.len(), 3);
    assert_eq!(diffs[0].target_valid_until.as_ref().map(|b| b.text.as_str()), Some("2024-06-01"));
    assert_eq!(diffs[0].target_payload, Some(ann.clone()));
    assert_eq!(diffs[1].target_valid_from, None);
    assert_eq!(diffs[1].final_valid_from.as_ref().map(|b| b.text.as_str()), Some("2025-01-01"));
    // The target row that no segment comes from.
    assert_eq!(diffs[2].final_valid_from, None);
    assert_eq!(diffs[2].target_valid_from.as_ref().map(|b| b.text.as_str()), Some("2024-06-01"));
    assert_eq!(diffs[2].grouping_key, "existing_entity__7");
    assert!(diffs[2].row_ids.is_empty());
    assert_eq!(classify_single_diff(&diffs[1], None, false), (PlanAction::Insert, None));
    assert_eq!(classify_single_diff(&diffs[2], None, false), (PlanAction::Delete, None));
    assert_eq!(
        classify_single_diff(&diffs[0], Some(2), false),
        (PlanAction::Insert, None)
    );
}

#[test]
fn a_diff_row_without_bounds_is_an_error() {
    let d = DiffRow {
        grouping_key: String::new(),
        is_new_entity: false,
        identity_keys: Fields::new(),
        causal_id: None,
        row_ids: Vec::new(),
        final_valid_from: None,
        final_valid_until: None,
        final_payload: None,
        target_valid_from: None,
        target_valid_until: None,
        target_payload: None,
        ephemeral_payload: None,
        has_source_coverage: false,
        s_t_relation: None,
        target_ephemeral: None,
        target_lookup_keys: None,
        target_pk_payload: None,
    };
    assert_eq!(classify_single_diff(&d, None, false), (PlanAction::Error, None));
}

#[test]
fn the_synchronized_column_is_the_day_before_the_end() {
    let mut ctx = context(MergeMode::MergeEntityUpsert, DeleteMode::Nothing, &["id"], &[]);
    ctx.era.valid_to_col = Some("valid_to".to_string());
    let plan = sweep_line_plan(
        vec![source(
            1,
            "2024-01-01",
            "2024-03-01",
            fields(&[("id", number("7"))]),
            Fields::new(),
            fields(&[("name", text("Ann"))]),
        )],
        Vec::new(),
        &ctx,
    );
    assert_eq!(plan.len(), 1);
    assert_eq!(
        plan[0].data,
        Some(fields(&[("name", text("Ann")), ("valid_to", text("2024-02-29"))]))
    );
}

#[test]
fn the_synchronized_column_of_a_numeric_era_is_one_less_than_the_end() {
    let mut ctx = context(MergeMode::MergeEntityUpsert, DeleteMode::Nothing, &["id"], &[]);
    ctx.era.valid_to_col = Some("valid_to".to_string());
    ctx.era.range_subtype_category = 'N';
    let mut row = source(1, "5", "10", fields(&[("id", number("7"))]), Fields::new(), fields(&[("name", text("Ann"))]));
    row.valid_from = Bound { text: "5".to_string(), rank: 5 };
    row.valid_until = Bound { text: "10".to_string(), rank: 10 };
    let plan = sweep_line_plan(vec![row], Vec::new(), &ctx);
    assert_eq!(plan.len(), 1);
    assert_eq!(plan[0].data, Some(fields(&[("name", text("Ann")), ("valid_to", number("9"))])));
    assert_eq!(plan[0].new_valid_range.as_deref(), Some("[5,10)"));
}

fn plan_row(key: &str, op: PlanAction, effect: Option<UpdateEffect>, old_from: Option<&str>, new_from: Option<&str>, id: i64) -> PlanRow {
    PlanRow {
        plan_op_seq: 0,
        statement_seq: 0,
        row_ids: vec![id],
        operation: op,
        update_effect: effect,
        causal_id: None,
        is_new_entity: false,
        entity_keys: None,
        identity_keys: None,
        lookup_keys: None,
        s_t_relation: None,
        b_a_relation: None,
        old_valid_from: old_from.map(date),
        old_valid_until: None,
        new_valid_from: new_from.map(date),
        new_valid_until: None,
        old_valid_range: None,
        new_valid_range: None,
        data: None,
        feedback: None,
        trace: None,
        grouping_key: key.to_string(),
    }
}

#[test]
fn statements_run_in_the_order_of_their_categories() {
    let ctx = context(MergeMode::MergeEntityUpsert, DeleteMode::Nothing, &["id"], &[]);
    let mut plan = vec![
        plan_row("b", PlanAction::Insert, None, None, Some("2024-05-01"), 1),
        plan_row("b", PlanAction::Update, Some(UpdateEffect::Grow), Some("2024-04-01"), Some("2024-03-01"), 2),
        plan_row("a", PlanAction::Update, Some(UpdateEffect::Move), Some("2024-01-01"), Some("2024-02-01"), 3),
        plan_row("a", PlanAction::Update, Some(UpdateEffect::Move), Some("2024-03-01"), Some("2024-04-01"), 4),
        plan_row("a", PlanAction::SkipIdentical, None, Some("2024-01-01"), Some("2024-01-01"), 5),
        plan_row("a", PlanAction::Update, Some(UpdateEffect::Shrink), Some("2024-06-01"), Some("2024-06-01"), 6),
        plan_row("", PlanAction::Delete, None, Some("2024-01-01"), None, 7),
        plan_row("a", PlanAction::Update, Some(UpdateEffect::Unchanged), Some("2024-05-01"), Some("2024-05-01"), 8),
        plan_row("c", PlanAction::Error, None, None, None, 9),
    ];
    sequence_statements(&mut plan, &ctx);
    let order: Vec<i64> = plan.iter().map(|r| r.row_ids[0]).collect();
    // By grouping key, the empty one last; within a group updates before
    // skips; the other updates by time, then the moves from the latest to
    // the earliest.
    assert_eq!(order, vec![8, 6, 4, 3, 5, 2, 1, 9, 7]);
    let numbers: Vec<i64> = plan.iter().map(|r| r.plan_op_seq).collect();
    assert_eq!(numbers, vec![1, 2, 3, 4, 5, 6, 7, 8, 9]);
    let statement = |id: i64| plan.iter().find(|r| r.row_ids[0] == id).unwrap().statement_seq;
    assert_eq!(statement(7), 1);
    assert_eq!(statement(8), 2);
    assert_eq!(statement(6), 2);
    // Each move has a statement of its own.
    assert_eq!(statement(4), 3);
    assert_eq!(statement(3), 4);
    assert_eq!(statement(2), 5);
    assert_eq!(statement(1), 6);
    assert_eq!(statement(5), 7);
    assert_eq!(statement(9), 7);
}

#[test]
fn moves_stand_behind_the_other_updates_of_their_entity() {
    let mut ctx = context(MergeMode::MergeEntityUpsert, DeleteMode::Nothing, &["id"], &[]);
    ctx.era.range_subtype_category = 'N';
    let at = |rank: i64| -> Option<Bound> { Some(Bound { text: rank.to_string(), rank }) };
    let update = |effect: UpdateEffect, from: i64, id: i64| -> PlanRow {
        let mut row = plan_row("k", PlanAction::Update, Some(effect), None, None, id);
        row.old_valid_from = at(from);
        row.new_valid_from = at(from);
        row
    };
    let mut plan = vec![
        update(UpdateEffect::Shrink, 2, 1),
        update(UpdateEffect::Move, 3, 2),
        update(UpdateEffect::Move, 0, 3),
        update(UpdateEffect::Shrink, 1, 4),
    ];
    sequence_statements(&mut plan, &ctx);
    let seen: Vec<(Option<UpdateEffect>, i64, i32)> = plan
        .iter()
        .map(|r| (r.update_effect, r.old_valid_from.as_ref().unwrap().rank, r.statement_seq))
        .collect();
    assert_eq!(
        seen,
        vec![
            (Some(UpdateEffect::Shrink), 1, 1),
            (Some(UpdateEffect::Shrink), 2, 1),
            (Some(UpdateEffect::Move), 3, 2),
            (Some(UpdateEffect::Move), 0, 3),
        ]
    );
    // The order does not depend on how the rows stood before.
    let mut turned = vec![
        update(UpdateEffect::Move, 0, 3),
        update(UpdateEffect::Shrink, 1, 4),
        update(UpdateEffect::Move, 3, 2),
        update(UpdateEffect::Shrink, 2, 1),
    ];
    sequence_statements(&mut turned, &ctx);
    assert_eq!(turned, plan);
}

#[test]
fn feedback_rows_show_what_is_known_of_the_entity() {
    let ctx = context(MergeMode::MergeEntityUpsert, DeleteMode::Nothing, &["id"], &[&["ssn"]]);
    let mut row = matched(
        source(3, "2024-01-01", "2024-02-01", fields(&[("id", Value::Null)]), fields(&[("ssn", text("5"))]), Fields::new()),
        false,
        "existing_entity__7",
    );
    row.discovered_identity = Some(fields(&[("id", number("7"))]));
    let error = make_feedback_plan_row(
        &row,
        &EarlyFeedback { action: PlanAction::Error, message: Some("no".to_string()) },
        &ctx,
    );
    assert_eq!(error.operation, PlanAction::Error);
    assert_eq!(error.feedback, Some(Feedback::Error("no".to_string())));
    assert_eq!(error.identity_keys, Some(fields(&[("id", number("7"))])));
    assert_eq!(error.entity_keys, Some(fields(&[("id", number("7")), ("ssn", text("5"))])));
    assert_eq!(error.lookup_keys, Some(fields(&[("ssn", text("5"))])));
    assert_eq!(error.row_ids, vec![3]);
    assert_eq!(error.causal_id.as_deref(), Some("3"));
    assert_eq!(error.new_valid_from, None);
    assert_eq!(error.new_valid_range, None);
    assert_eq!(error.grouping_key, "existing_entity__7");
    assert_eq!(error.plan_op_seq, 0);
    let eclipsed = make_feedback_plan_row(
        &row,
        &EarlyFeedback { action: PlanAction::SkipEclipsed, message: None },
        &ctx,
    );
    assert_eq!(eclipsed.new_valid_range.as_deref(), Some("[2024-01-01,2024-02-01)"));
    assert!(matches!(eclipsed.feedback, Some(Feedback::Info(_))));
    let unnamed = make_feedback_plan_row(
        &row,
        &EarlyFeedback { action: PlanAction::Error, message: None },
        &ctx,
    );
    assert_eq!(unnamed.feedback, Some(Feedback::Error(String::new())));
}

#[test]
fn a_context_without_keys_is_turned_down() {
    let ctx = context(MergeMode::MergeEntityUpsert, DeleteMode::Nothing, &[], &[]);
    assert_eq!(plan_merge(Vec::new(), Vec::new(), &ctx), Err(ConfigError::NoEntityKeys));
    assert_eq!(ConfigError::NoEntityKeys.message(), "Neither identity columns nor lookup keys are given.");
    let mut odd = context(MergeMode::MergeEntityUpsert, DeleteMode::Nothing, &["id"], &[]);
    odd.era.range_subtype_category = 'S';
    assert_eq!(
        plan_merge(Vec::new(), Vec::new(), &odd),
        Err(ConfigError::UnsupportedSubtypeCategory('S'))
    );
    let fine = context(MergeMode::MergeEntityUpsert, DeleteMode::Nothing, &["id"], &[]);
    assert_eq!(plan_merge(Vec::new(), Vec::new(), &fine).map(|p| p.len()), Ok(0));
}
