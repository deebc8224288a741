use temporal_merge::interval::{AllenRelation, Bound, UpdateEffect};
use temporal_merge::plan::sweep_line_plan;
use temporal_merge::types::{
    DeleteMode, EraMetadata, Feedback, IdentityStrategy, MergeMode, PlanAction, PlanRow,
    PlannerContext, SourceRow, TargetRow,
};
use temporal_merge::value::{Fields, Value};

fn text(s: &str) -> Value {
    Value::Text(s.to_string())
}

fn number(s: &str) -> Value {
    Value::Number(s.to_string())
}

fn fields(entries: &[(&str, Value)]) -> Fields {
    let mut f = Fields::new();
    for (k, v) in entries {
        f.insert(k.to_string(), v.clone());
    }
    f
}

fn date(s: &str) -> Bound {
    Bound::of_text(s.to_string())
}

fn names(cols: &[&str]) -> Vec<String> {
    cols.iter().map(|c| c.to_string()).collect()
}

fn context(mode: MergeMode, delete_mode: DeleteMode, identity: &[&str], key_sets: &[&[&str]]) -> PlannerContext {
    let mut all: Vec<String> = Vec::new();
    for ks in key_sets {
        for c in ks.iter() {
            if !all.contains(&c.to_string()) {
                all.push(c.to_string());
            }
        }
    }
    all.sort();
    let strategy = match (identity.is_empty(), all.is_empty()) {
        (false, false) => IdentityStrategy::Hybrid,
        (false, true) => IdentityStrategy::IdentityKeyOnly,
        (true, false) => IdentityStrategy::LookupKeyOnly,
        (true, true) => IdentityStrategy::Undefined,
    };
    PlannerContext {
        mode,
        delete_mode,
        era: EraMetadata {
            range_col: "valid_range".to_string(),
            valid_from_col: "valid_from".to_string(),
            valid_until_col: "valid_until".to_string(),
            valid_to_col: None,
            range_type: "daterange".to_string(),
            multirange_type: "datemultirange".to_string(),
            range_subtype: "date".to_string(),
            range_subtype_category: 'D',
            ephemeral_columns: Vec::new(),
        },
        identity_columns: names(identity),
        all_lookup_cols: all,
        lookup_key_sets: key_sets.iter().map(|ks| names(ks)).collect(),
        original_entity_key_cols: Vec::new(),
        original_entity_segment_key_cols: Vec::new(),
        temporal_cols: names(&["valid_range", "valid_from", "valid_until"]),
        pk_cols: Vec::new(),
        strategy,
        ephemeral_columns: Vec::new(),
        founding_id_column: None,
        row_id_column: "row_id".to_string(),
        log_trace: false,
        exclude_if_null_columns: Vec::new(),
    }
}

fn source(row_id: i64, from: &str, until: &str, identity: Fields, lookup: Fields, data: Fields) -> SourceRow {
    let is_identifiable = identity.is_empty()
        || (0..identity.len()).any(|i| !identity.value_at(i).is_null());
    let lookup_cols_are_null = (0..lookup.len()).all(|i| lookup.value_at(i).is_null());
    SourceRow {
        row_id,
        causal_id: row_id.to_string(),
        valid_from: date(from),
        valid_until: date(until),
        stable_pk_payload: identity.clone(),
        identity_keys: identity,
        lookup_keys: lookup,
        data_payload: data,
        ephemeral_payload: Fields::new(),
        is_identifiable,
        lookup_cols_are_null,
    }
}

fn target(from: &str, until: &str, identity: Fields, lookup: Fields, data: Fields) -> TargetRow {
    TargetRow {
        valid_from: date(from),
        valid_until: date(until),
        identity_keys: identity,
        lookup_keys: lookup,
        data_payload: data,
        ephemeral_payload: Fields::new(),
        pk_payload: Fields::new(),
    }
}

fn dml(plan: &[PlanRow]) -> Vec<&PlanRow> {
    plan.iter().filter(|r| r.operation.is_dml()).collect()
}

fn bound_text(b: &Option<Bound>) -> Option<&str> {
    b.as_ref().map(|x| x.text.as_str())
}

#[test]
fn new_entity_is_inserted() {
    let ctx = context(MergeMode::MergeEntityUpsert, DeleteMode::Nothing, &["id"], &[]);
    let sources = vec![source(
        1,
        "2024-01-01",
        "2025-01-01",
        fields(&[("id", number("7"))]),
        Fields::new(),
        fields(&[("name", text("Ann"))]),
    )];
    let plan = sweep_line_plan(sources, Vec::new(), &ctx);
    assert_eq!(plan.len(), 1);
    let row = &plan[0];
    assert_eq!(row.operation, PlanAction::Insert);
    assert_eq!(row.plan_op_seq, 1);
    assert_eq!(row.statement_seq, 1);
    assert_eq!(row.row_ids, vec![1]);
    assert!(row.is_new_entity);
    assert_eq!(row.update_effect, None);
    assert_eq!(row.new_valid_range.as_deref(), Some("[2024-01-01,2025-01-01)"));
    assert_eq!(row.old_valid_range, None);
    assert_eq!(row.grouping_key, "new_entity__7");
    assert_eq!(row.data, Some(fields(&[("name", text("Ann"))])));
    assert_eq!(row.causal_id.as_deref(), Some("1"));
}

#[test]
fn changed_portion_splits_the_target_row() {
    let ctx = context(MergeMode::MergeEntityUpsert, DeleteMode::Nothing, &["id"], &[]);
    let id = fields(&[("id", number("7"))]);
    let sources = vec![source(
        1,
        "2024-01-01",
        "2024-06-01",
        id.clone(),
        Fields::new(),
        fields(&[("name", text("Bob"))]),
    )];
    let targets = vec![target(
        "2024-01-01",
        "2025-01-01",
        id.clone(),
        Fields::new(),
        fields(&[("name", text("Ann"))]),
    )];
    let plan = sweep_line_plan(sources, targets, &ctx);
    assert_eq!(plan.len(), 2);
    assert_eq!(plan[0].operation, PlanAction::Update);
    assert_eq!(plan[0].update_effect, Some(UpdateEffect::Shrink));
    assert_eq!(plan[0].old_valid_range.as_deref(), Some("[2024-01-01,2025-01-01)"));
    assert_eq!(plan[0].new_valid_range.as_deref(), Some("[2024-01-01,2024-06-01)"));
    assert_eq!(plan[0].data, Some(fields(&[("name", text("Bob"))])));
    assert_eq!(plan[0].b_a_relation, Some(AllenRelation::StartedBy));
    assert_eq!(plan[0].s_t_relation, Some(AllenRelation::Starts));
    assert_eq!(plan[1].operation, PlanAction::Insert);
    assert_eq!(plan[1].new_valid_range.as_deref(), Some("[2024-06-01,2025-01-01)"));
    assert_eq!(plan[1].data, Some(fields(&[("name", text("Ann"))])));
    // The shrinking update runs before the insertion that fills the gap.
    assert_eq!(plan[0].statement_seq, 1);
    assert_eq!(plan[1].statement_seq, 2);
    assert_eq!(plan[0].plan_op_seq, 1);
    assert_eq!(plan[1].plan_op_seq, 2);
    assert_eq!(plan[0].grouping_key, "existing_entity__7");
}

#[test]
fn equal_content_is_coalesced_and_skipped() {
    let ctx = context(MergeMode::MergeEntityUpsert, DeleteMode::Nothing, &["id"], &[]);
    let id = fields(&[("id", number("7"))]);
    let data = fields(&[("name", text("Ann"))]);
    let sources = vec![source(1, "2024-01-01", "2024-06-01", id.clone(), Fields::new(), data.clone())];
    let targets = vec![target("2024-01-01", "2025-01-01", id.clone(), Fields::new(), data.clone())];
    let plan = sweep_line_plan(sources, targets, &ctx);
    assert_eq!(plan.len(), 1);
    assert_eq!(plan[0].operation, PlanAction::SkipIdentical);
    assert_eq!(plan[0].row_ids, vec![1]);
    assert!(dml(&plan).is_empty());
    assert_eq!(plan[0].statement_seq, 1);
}

#[test]
fn deleting_a_portion_shrinks_the_target_row() {
    let ctx = context(MergeMode::DeleteForPortionOf, DeleteMode::Nothing, &["id"], &[]);
    let id = fields(&[("id", number("7"))]);
    let data = fields(&[("name", text("Ann"))]);
    let sources = vec![source(1, "2024-06-01", "2025-01-01", id.clone(), Fields::new(), data.clone())];
    let targets = vec![target("2024-01-01", "2025-01-01", id.clone(), Fields::new(), data.clone())];
    let plan = sweep_line_plan(sources, targets, &ctx);
    assert_eq!(plan.len(), 1);
    assert_eq!(plan[0].operation, PlanAction::Update);
    assert_eq!(plan[0].update_effect, Some(UpdateEffect::Shrink));
    assert_eq!(bound_text(&plan[0].old_valid_from), Some("2024-01-01"));
    assert_eq!(bound_text(&plan[0].old_valid_until), Some("2025-01-01"));
    assert_eq!(bound_text(&plan[0].new_valid_from), Some("2024-01-01"));
    assert_eq!(bound_text(&plan[0].new_valid_until), Some("2024-06-01"));
    assert_eq!(plan[0].old_valid_range.as_deref(), Some("[2024-01-01,2025-01-01)"));
    assert_eq!(plan[0].new_valid_range.as_deref(), Some("[2024-01-01,2024-06-01)"));
    assert_eq!(plan[0].row_ids, vec![1]);
}

#[test]
fn deleting_all_of_a_row_deletes_it() {
    let ctx = context(MergeMode::DeleteForPortionOf, DeleteMode::Nothing, &["id"], &[]);
    let id = fields(&[("id", number("7"))]);
    let data = fields(&[("name", text("Ann"))]);
    let sources = vec![source(1, "2024-01-01", "2025-01-01", id.clone(), Fields::new(), data.clone())];
    let targets = vec![target("2024-01-01", "2025-01-01", id.clone(), Fields::new(), data.clone())];
    let plan = sweep_line_plan(sources, targets, &ctx);
    assert_eq!(plan.len(), 1);
    assert_eq!(plan[0].operation, PlanAction::Delete);
    assert_eq!(plan[0].row_ids, Vec::<i64>::new());
    assert_eq!(plan[0].old_valid_range.as_deref(), Some("[2024-01-01,2025-01-01)"));
    assert_eq!(plan[0].new_valid_range, None);
    assert_eq!(plan[0].data, None);
    assert_eq!(plan[0].grouping_key, "");
    assert_eq!(plan[0].statement_seq, 1);
}

#[test]
fn fragments_of_a_new_entity_land_in_one_group() {
    let ctx = context(
        MergeMode::MergeEntityUpsert,
        DeleteMode::Nothing,
        &["id"],
        &[&["ssn"], &["employee_nr"]],
    );
    let no_id = fields(&[("id", Value::Null)]);
    let sources = vec![
        source(
            1,
            "2024-01-01",
            "2024-04-01",
            no_id.clone(),
            fields(&[("employee_nr", Value::Null), ("ssn", text("555"))]),
            fields(&[("name", text("Ann"))]),
        ),
        source(
            2,
            "2024-04-01",
            "2024-08-01",
            no_id.clone(),
            fields(&[("employee_nr", text("E1")), ("ssn", Value::Null)]),
            fields(&[("name", text("Bea"))]),
        ),
        source(
            3,
            "2024-08-01",
            "2025-01-01",
            no_id.clone(),
            fields(&[("employee_nr", text("E1")), ("ssn", text("555"))]),
            fields(&[("name", text("Cyd"))]),
        ),
    ];
    let plan = sweep_line_plan(sources, Vec::new(), &ctx);
    assert_eq!(plan.len(), 3);
    for row in &plan {
        assert_eq!(row.operation, PlanAction::Insert);
        assert_eq!(row.grouping_key, "new_entity__E1__555");
        assert!(row.is_new_entity);
    }
    assert_eq!(plan[0].new_valid_range.as_deref(), Some("[2024-01-01,2024-04-01)"));
    assert_eq!(plan[1].new_valid_range.as_deref(), Some("[2024-04-01,2024-08-01)"));
    assert_eq!(plan[2].new_valid_range.as_deref(), Some("[2024-08-01,2025-01-01)"));
    assert_eq!(plan[0].row_ids, vec![1]);
    assert_eq!(plan[1].row_ids, vec![2]);
    assert_eq!(plan[2].row_ids, vec![3]);
    assert_eq!(
        plan[0].lookup_keys,
        Some(fields(&[("employee_nr", Value::Null), ("ssn", text("555"))]))
    );
}

#[test]
fn fragments_without_a_common_key_stay_apart() {
    let ctx = context(
        MergeMode::MergeEntityUpsert,
        DeleteMode::Nothing,
        &["id"],
        &[&["ssn"], &["employee_nr"]],
    );
    let no_id = fields(&[("id", Value::Null)]);
    let sources = vec![
        source(
            1,
            "2024-01-01",
            "2024-04-01",
            no_id.clone(),
            fields(&[("employee_nr", Value::Null), ("ssn", text("555"))]),
            fields(&[("name", text("Ann"))]),
        ),
        source(
            2,
            "2024-04-01",
            "2024-08-01",
            no_id.clone(),
            fields(&[("employee_nr", text("E1")), ("ssn", Value::Null)]),
            fields(&[("name", text("Bea"))]),
        ),
    ];
    let plan = sweep_line_plan(sources, Vec::new(), &ctx);
    assert_eq!(plan.len(), 2);
    assert_eq!(plan[0].grouping_key, "new_entity__E1___NULL_");
    assert_eq!(plan[1].grouping_key, "new_entity___NULL___555");
}

#[test]
fn ambiguous_row_is_an_error() {
    let ctx = context(
        MergeMode::MergeEntityUpsert,
        DeleteMode::Nothing,
        &["id"],
        &[&["ssn"], &["employee_nr"]],
    );
    let targets = vec![
        target(
            "2024-01-01",
            "2025-01-01",
            fields(&[("id", number("1"))]),
            fields(&[("employee_nr", text("E100")), ("ssn", text("222"))]),
            fields(&[("name", text("Ann"))]),
        ),
        target(
            "2024-01-01",
            "2025-01-01",
            fields(&[("id", number("2"))]),
            fields(&[("employee_nr", text("E101")), ("ssn", text("333"))]),
            fields(&[("name", text("Bea"))]),
        ),
    ];
    let sources = vec![source(
        9,
        "2024-03-01",
        "2024-04-01",
        fields(&[("id", Value::Null)]),
        fields(&[("employee_nr", text("E101")), ("ssn", text("222"))]),
        fields(&[("name", text("Cyd"))]),
    )];
    let plan = sweep_line_plan(sources, targets, &ctx);
    assert_eq!(plan.len(), 1);
    assert_eq!(plan[0].operation, PlanAction::Error);
    assert_eq!(plan[0].row_ids, vec![9]);
    assert_eq!(
        plan[0].feedback,
        Some(Feedback::Error(
            "Source row is ambiguous. It matches multiple distinct target entities: [{\"id\": 1}, {\"id\": 2}]"
                .to_string()
        ))
    );
    assert_eq!(plan[0].new_valid_range, None);
    assert_eq!(plan[0].new_valid_from, None);
    assert!(dml(&plan).is_empty());
    assert_eq!(plan[0].statement_seq, 1);
}

#[test]
fn unidentifiable_row_is_an_error() {
    let ctx = context(
        MergeMode::MergeEntityUpsert,
        DeleteMode::Nothing,
        &["id"],
        &[&["ssn"], &["employee_nr", "dept"]],
    );
    let sources = vec![source(
        4,
        "2024-03-01",
        "2024-04-01",
        fields(&[("id", Value::Null)]),
        fields(&[("dept", Value::Null), ("employee_nr", Value::Null), ("ssn", Value::Null)]),
        fields(&[("name", text("Cyd"))]),
    )];
    let plan = sweep_line_plan(sources, Vec::new(), &ctx);
    assert_eq!(plan.len(), 1);
    assert_eq!(plan[0].operation, PlanAction::Error);
    assert_eq!(
        plan[0].feedback,
        Some(Feedback::Error(
            "Source row is unidentifiable. It has NULL for all stable identity columns {id} and all natural keys [[ssn], [employee_nr, dept]]"
                .to_string()
        ))
    );
}

#[test]
fn eclipsed_row_is_skipped() {
    let ctx = context(MergeMode::MergeEntityUpsert, DeleteMode::Nothing, &["id"], &[&["ssn"]]);
    let no_id = fields(&[("id", Value::Null)]);
    let key = fields(&[("ssn", text("555"))]);
    let sources = vec![
        source(1, "2024-02-01", "2024-03-01", no_id.clone(), key.clone(), fields(&[("name", text("Ann"))])),
        source(2, "2024-01-01", "2024-02-15", no_id.clone(), key.clone(), fields(&[("name", text("Bea"))])),
        source(3, "2024-02-15", "2024-06-01", no_id.clone(), key.clone(), fields(&[("name", text("Bea"))])),
    ];
    let plan = sweep_line_plan(sources, Vec::new(), &ctx);
    // Rows 2 and 3 cover row 1 only between them.
    let skipped: Vec<&PlanRow> = plan.iter().filter(|r| r.operation == PlanAction::SkipEclipsed).collect();
    assert_eq!(skipped.len(), 1);
    assert_eq!(skipped[0].row_ids, vec![1]);
    assert_eq!(skipped[0].new_valid_range.as_deref(), Some("[2024-02-01,2024-03-01)"));
    assert!(matches!(skipped[0].feedback, Some(Feedback::Info(_))));
    let inserts = dml(&plan);
    assert_eq!(inserts.len(), 1);
    assert_eq!(inserts[0].operation, PlanAction::Insert);
    assert_eq!(inserts[0].new_valid_range.as_deref(), Some("[2024-01-01,2024-06-01)"));
    assert_eq!(inserts[0].row_ids, vec![2, 3]);
    assert_eq!(inserts[0].statement_seq, 1);
    assert_eq!(skipped[0].statement_seq, 2);
}

#[test]
fn new_entity_is_skipped_where_a_portion_is_updated() {
    let ctx = context(MergeMode::UpdateForPortionOf, DeleteMode::Nothing, &["id"], &[]);
    let sources = vec![source(
        1,
        "2024-01-01",
        "2025-01-01",
        fields(&[("id", number("7"))]),
        Fields::new(),
        fields(&[("name", text("Ann"))]),
    )];
    let plan = sweep_line_plan(sources, Vec::new(), &ctx);
    assert_eq!(plan.len(), 1);
    assert_eq!(plan[0].operation, PlanAction::SkipNoTarget);
    assert_eq!(
        plan[0].feedback,
        Some(Feedback::Info(
            "Source row was correctly filtered by the mode's logic and did not result in a DML operation."
                .to_string()
        ))
    );
    assert_eq!(plan[0].new_valid_range, None);
}

#[test]
fn existing_entity_is_skipped_where_only_new_ones_are_inserted() {
    let ctx = context(MergeMode::InsertNewEntities, DeleteMode::Nothing, &["id"], &[]);
    let id = fields(&[("id", number("7"))]);
    let sources = vec![source(1, "2024-01-01", "2025-01-01", id.clone(), Fields::new(), fields(&[("name", text("Bob"))]))];
    let targets = vec![target("2024-01-01", "2025-01-01", id.clone(), Fields::new(), fields(&[("name", text("Ann"))]))];
    let plan = sweep_line_plan(sources, targets, &ctx);
    assert_eq!(plan.len(), 1);
    assert_eq!(plan[0].operation, PlanAction::SkipFiltered);
    assert!(!plan[0].is_new_entity);
}

#[test]
fn missing_entity_is_deleted_when_asked_for() {
    let id7 = fields(&[("id", number("7"))]);
    let id8 = fields(&[("id", number("8"))]);
    let data = fields(&[("name", text("Ann"))]);
    let make = |delete_mode: DeleteMode| {
        let ctx = context(MergeMode::MergeEntityReplace, delete_mode, &["id"], &[]);
        let sources = vec![source(1, "2024-01-01", "2025-01-01", id7.clone(), Fields::new(), data.clone())];
        let targets = vec![
            target("2024-01-01", "2025-01-01", id7.clone(), Fields::new(), data.clone()),
            target("2024-01-01", "2025-01-01", id8.clone(), Fields::new(), data.clone()),
        ];
        sweep_line_plan(sources, targets, &ctx)
    };
    let kept = make(DeleteMode::Nothing);
    assert_eq!(kept.len(), 1);
    assert_eq!(kept[0].operation, PlanAction::SkipIdentical);
    let deleted = make(DeleteMode::DeleteMissingEntities);
    assert_eq!(deleted.len(), 2);
    // The deletion has no grouping key and sorts last, but runs first.
    assert_eq!(deleted[0].operation, PlanAction::SkipIdentical);
    assert_eq!(deleted[1].operation, PlanAction::Delete);
    assert_eq!(deleted[1].statement_seq, 1);
    assert_eq!(deleted[0].statement_seq, 2);
    assert_eq!(deleted[1].identity_keys, Some(id8.clone()));
    assert_eq!(deleted[1].old_valid_range.as_deref(), Some("[2024-01-01,2025-01-01)"));
}

#[test]
fn planning_what_is_already_there_changes_nothing() {
    let ctx = context(MergeMode::MergeEntityUpsert, DeleteMode::Nothing, &["id"], &[]);
    let id = fields(&[("id", number("7"))]);
    let ann = fields(&[("name", text("Ann"))]);
    let bob = fields(&[("name", text("Bob"))]);
    let sources = || {
        vec![
            source(1, "2024-01-01", "2024-06-01", id.clone(), Fields::new(), bob.clone()),
            source(2, "2024-06-01", "2025-01-01", id.clone(), Fields::new(), ann.clone()),
        ]
    };
    let before = vec![target("2024-01-01", "2025-01-01", id.clone(), Fields::new(), ann.clone())];
    let first = sweep_line_plan(sources(), before, &ctx);
    assert_eq!(dml(&first).len(), 2);
    // The target as the first plan leaves it.
    let after = vec![
        target("2024-01-01", "2024-06-01", id.clone(), Fields::new(), bob.clone()),
        target("2024-06-01", "2025-01-01", id.clone(), Fields::new(), ann.clone()),
    ];
    let second = sweep_line_plan(sources(), after, &ctx);
    assert_eq!(second.len(), 2);
    assert!(second.iter().all(|r| r.operation == PlanAction::SkipIdentical));
    assert!(dml(&second).is_empty());
}
