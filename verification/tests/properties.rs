use temporal_merge::interval::{Bound, UpdateEffect};
use temporal_merge::plan::sweep_line_plan;
use temporal_merge::types::{
    DeleteMode, EraMetadata, IdentityStrategy, MergeMode, PlanAction, PlanRow, PlannerContext,
    SourceRow, TargetRow,
};
use temporal_merge::value::{Fields, Value};

fn text(s: &str) -> Value {
    Value::Text(s.to_string())
}

fn number(s: &str) -> Value {
    Value::Number(s.to_string())
}

fn fields(entries: &[(&str, Value)]) -> Fields {
    let mut f = Fields::new();
    for (k, v) in entries {
        f.insert(k.to_string(), v.clone());
    }
    f
}

fn names(cols: &[&str]) -> Vec<String> {
    cols.iter().map(|c| c.to_string()).collect()
}

fn context(mode: MergeMode, delete_mode: DeleteMode, key_sets: &[&[&str]]) -> PlannerContext {
    let mut all: Vec<String> = Vec::new();
    for ks in key_sets {
        for c in ks.iter() {
            if !all.contains(&c.to_string()) {
                all.push(c.to_string());
            }
        }
    }
    all.sort();
    PlannerContext {
        mode,
        delete_mode,
        era: EraMetadata {
            range_col: "valid_range".to_string(),
            valid_from_col: "valid_from".to_string(),
            valid_until_col: "valid_until".to_string(),
            valid_to_col: None,
            range_type: "daterange".to_string(),
            multirange_type: "datemultirange".to_string(),
            range_subtype: "date".to_string(),
            range_subtype_category: 'D',
            ephemeral_columns: Vec::new(),
        },
        identity_columns: names(&["id"]),
        strategy: if all.is_empty() { IdentityStrategy::IdentityKeyOnly } else { IdentityStrategy::Hybrid },
        all_lookup_cols: all,
        lookup_key_sets: key_sets.iter().map(|ks| names(ks)).collect(),
        original_entity_key_cols: Vec::new(),
        original_entity_segment_key_cols: Vec::new(),
        temporal_cols: names(&["valid_range", "valid_from", "valid_until"]),
        pk_cols: Vec::new(),
        ephemeral_columns: Vec::new(),
        founding_id_column: None,
        row_id_column: "row_id".to_string(),
        log_trace: false,
        exclude_if_null_columns: Vec::new(),
    }
}

fn source(row_id: i64, from: &str, until: &str, identity: Fields, lookup: Fields, data: Fields) -> SourceRow {
    let is_identifiable = (0..identity.len()).any(|i| !identity.value_at(i).is_null());
    let lookup_cols_are_null = (0..lookup.len()).all(|i| lookup.value_at(i).is_null());
    SourceRow {
        row_id,
        causal_id: row_id.to_string(),
        valid_from: Bound::of_text(from.to_string()),
        valid_until: Bound::of_text(until.to_string()),
        stable_pk_payload: identity.clone(),
        identity_keys: identity,
        lookup_keys: lookup,
        data_payload: data,
        ephemeral_payload: Fields::new(),
        is_identifiable,
        lookup_cols_are_null,
    }
}

fn target(from: &str, until: &str, id: &str, data: Fields) -> TargetRow {
    TargetRow {
        valid_from: Bound::of_text(from.to_string()),
        valid_until: Bound::of_text(until.to_string()),
        identity_keys: fields(&[("id", number(id))]),
        lookup_keys: Fields::new(),
        data_payload: data,
        ephemeral_payload: Fields::new(),
        pk_payload: Fields::new(),
    }
}

fn name(n: &str) -> Fields {
    fields(&[("name", text(n))])
}

/// The rows of one entity as they stand in the table: the intervals by
/// their start.
type Timeline = Vec<(String, String)>;

fn overlaps(t: &Timeline) -> bool {
    t.iter().enumerate().any(|(i, a)| {
        t.iter()
            .enumerate()
            .any(|(j, b)| i != j && a.0 < b.1 && b.0 < a.1)
    })
}

fn bound(b: &Option<Bound>) -> String {
    b.as_ref().map(|x| x.text.clone()).unwrap()
}

/// Executes the statements of a plan one after the other on the rows of the
/// entity `id`, and says whether two rows overlapped after any of them.
fn executes_without_overlap(plan: &[PlanRow], id: &Fields, start: Timeline) -> (bool, Timeline) {
    let mut table = start;
    let mut clean = !overlaps(&table);
    let last = plan.iter().map(|r| r.statement_seq).max().unwrap_or(0);
    for statement in 1..=last {
        for row in plan.iter().filter(|r| r.statement_seq == statement) {
            if row.identity_keys.as_ref() != Some(id) {
                continue;
            }
            match row.operation {
                PlanAction::Delete => {
                    let from = bound(&row.old_valid_from);
                    table.retain(|r| r.0 != from);
                }
                PlanAction::Update => {
                    let from = bound(&row.old_valid_from);
                    let place = table.iter().position(|r| r.0 == from).unwrap();
                    table[place] = (bound(&row.new_valid_from), bound(&row.new_valid_until));
                }
                PlanAction::Insert => {
                    table.push((bound(&row.new_valid_from), bound(&row.new_valid_until)));
                }
                _ => {}
            }
        }
        clean = clean && !overlaps(&table);
    }
    table.sort();
    (clean, table)
}

fn timeline(rows: &[(&str, &str)]) -> Timeline {
    rows.iter().map(|(f, u)| (f.to_string(), u.to_string())).collect()
}

#[test]
fn a_move_runs_between_the_shrinking_and_the_insertion() {
    let ctx = context(MergeMode::MergeEntityUpsert, DeleteMode::Nothing, &[]);
    let id = fields(&[("id", number("7"))]);
    let sources = vec![
        source(1, "2023-12-01", "2024-02-01", id.clone(), Fields::new(), name("X")),
        source(2, "2024-02-01", "2024-04-01", id.clone(), Fields::new(), name("Y")),
    ];
    let targets = vec![
        target("2024-01-01", "2024-03-01", "7", name("a")),
        target("2024-03-01", "2024-05-01", "7", name("b")),
    ];
    let plan = sweep_line_plan(sources, targets, &ctx);
    let seen: Vec<(PlanAction, Option<UpdateEffect>, Option<&str>, i32)> = plan
        .iter()
        .map(|r| (r.operation, r.update_effect, r.new_valid_range.as_deref(), r.statement_seq))
        .collect();
    assert_eq!(
        seen,
        vec![
            (PlanAction::Update, Some(UpdateEffect::Shrink), Some("[2024-04-01,2024-05-01)"), 1),
            (PlanAction::Update, Some(UpdateEffect::Move), Some("[2023-12-01,2024-02-01)"), 2),
            (PlanAction::Insert, None, Some("[2024-02-01,2024-04-01)"), 3),
        ]
    );
    let (clean, end) = executes_without_overlap(
        &plan,
        &id,
        timeline(&[("2024-01-01", "2024-03-01"), ("2024-03-01", "2024-05-01")]),
    );
    assert!(clean);
    assert_eq!(
        end,
        timeline(&[("2023-12-01", "2024-02-01"), ("2024-02-01", "2024-04-01"), ("2024-04-01", "2024-05-01")])
    );
}

#[test]
fn executing_a_plan_never_lets_rows_overlap() {
    let id = fields(&[("id", number("7"))]);
    let start = [("2024-01-01", "2024-03-01"), ("2024-03-01", "2024-06-01"), ("2024-06-01", "2024-09-01")];
    let targets = || -> Vec<TargetRow> {
        vec![
            target("2024-01-01", "2024-03-01", "7", name("a")),
            target("2024-03-01", "2024-06-01", "7", name("b")),
            target("2024-06-01", "2024-09-01", "7", name("c")),
        ]
    };
    let batches: Vec<Vec<(i64, &str, &str, &str)>> = vec![
        vec![(1, "2024-02-01", "2024-07-01", "X")],
        vec![(1, "2023-11-01", "2024-02-01", "a"), (2, "2024-08-01", "2024-12-01", "c")],
        vec![(1, "2024-01-01", "2024-09-01", "b")],
        vec![(1, "2024-02-15", "2024-03-15", "X"), (2, "2024-03-15", "2024-07-15", "Y"), (3, "2024-07-15", "2024-10-01", "c")],
        vec![(1, "2023-01-01", "2025-01-01", "Z")],
        vec![(1, "2024-05-01", "2024-05-15", "q"), (2, "2024-05-10", "2024-06-20", "r")],
    ];
    let modes = [
        (MergeMode::MergeEntityUpsert, DeleteMode::Nothing),
        (MergeMode::MergeEntityReplace, DeleteMode::DeleteMissingTimeline),
        (MergeMode::MergeEntityPatch, DeleteMode::DeleteMissingTimelineAndEntities),
        (MergeMode::UpdateForPortionOf, DeleteMode::Nothing),
        (MergeMode::DeleteForPortionOf, DeleteMode::Nothing),
    ];
    for (mode, delete_mode) in modes {
        let ctx = context(mode, delete_mode, &[]);
        for batch in &batches {
            let sources: Vec<SourceRow> = batch
                .iter()
                .map(|(row_id, from, until, n)| source(*row_id, from, until, id.clone(), Fields::new(), name(n)))
                .collect();
            let plan = sweep_line_plan(sources, targets(), &ctx);
            let (clean, end) = executes_without_overlap(&plan, &id, timeline(&start));
            assert!(clean, "{:?} {:?} {:?}", mode, batch, plan);
            assert!(!overlaps(&end));
            // Rows that change nothing stand behind all that do.
            let changes = plan.iter().filter(|r| r.operation.is_dml()).map(|r| r.statement_seq).max();
            for row in plan.iter().filter(|r| !r.operation.is_dml()) {
                assert!(changes.map_or(true, |c| row.statement_seq > c));
            }
            let numbers: Vec<i64> = plan.iter().map(|r| r.plan_op_seq).collect();
            assert_eq!(numbers, (1..=plan.len() as i64).collect::<Vec<i64>>());
        }
    }
}

#[test]
fn every_source_row_is_accounted_for() {
    let ctx = context(MergeMode::MergeEntityUpsert, DeleteMode::Nothing, &[&["ssn"], &["nr"]]);
    let no_id = fields(&[("id", Value::Null)]);
    let keys = |ssn: Value, nr: Value| fields(&[("nr", nr), ("ssn", ssn)]);
    let mut one = target("2024-01-01", "2025-01-01", "1", name("a"));
    one.lookup_keys = keys(text("111"), text("N1"));
    let mut two = target("2024-01-01", "2025-01-01", "2", name("b"));
    two.lookup_keys = keys(text("222"), text("N2"));
    let sources = vec![
        // Planned: an entity that is there.
        source(1, "2024-02-01", "2024-03-01", no_id.clone(), keys(text("111"), Value::Null), name("x")),
        // Planned: a new entity.
        source(2, "2024-02-01", "2024-03-01", no_id.clone(), keys(text("999"), Value::Null), name("y")),
        // Eclipsed by row 4.
        source(3, "2024-05-01", "2024-06-01", no_id.clone(), keys(text("999"), Value::Null), name("z")),
        source(4, "2024-04-01", "2024-07-01", no_id.clone(), keys(text("999"), Value::Null), name("z")),
        // Ambiguous.
        source(5, "2024-02-01", "2024-03-01", no_id.clone(), keys(text("111"), text("N2")), name("w")),
        // Without any key.
        source(6, "2024-02-01", "2024-03-01", no_id.clone(), keys(Value::Null, Value::Null), name("v")),
    ];
    let plan = sweep_line_plan(sources, vec![one, two], &ctx);
    let naming = |id: i64| -> Vec<&PlanRow> { plan.iter().filter(|r| r.row_ids.contains(&id)).collect() };
    for id in [1, 2, 4] {
        let rows = naming(id);
        assert!(!rows.is_empty());
        assert!(rows.iter().all(|r| r.operation.is_dml() || r.operation == PlanAction::SkipIdentical));
    }
    for (id, action) in [(3, PlanAction::SkipEclipsed), (5, PlanAction::Error), (6, PlanAction::Error)] {
        let rows = naming(id);
        assert_eq!(rows.len(), 1);
        assert_eq!(rows[0].operation, action);
        assert_eq!(rows[0].row_ids, vec![id]);
        assert!(rows[0].feedback.is_some());
    }
    // A mode that has no use for a row says so.
    let only_new = context(MergeMode::InsertNewEntities, DeleteMode::Nothing, &[]);
    let id = fields(&[("id", number("7"))]);
    let plan = sweep_line_plan(
        vec![source(1, "2024-02-01", "2024-03-01", id.clone(), Fields::new(), name("x"))],
        vec![target("2024-01-01", "2025-01-01", "7", name("a"))],
        &only_new,
    );
    assert_eq!(plan.len(), 1);
    assert_eq!(plan[0].operation, PlanAction::SkipFiltered);
    assert_eq!(plan[0].row_ids, vec![1]);
}

#[test]
fn the_last_writer_alone_is_named_where_rows_are_replaced() {
    // Two rows of one entity that do not eclipse each other: they are of
    // different partitions, but were put under one key.
    let ctx = context(MergeMode::MergeEntityReplace, DeleteMode::Nothing, &[&["ssn"], &["nr"]]);
    let no_id = fields(&[("id", Value::Null)]);
    let keys = |ssn: Value, nr: Value| fields(&[("nr", nr), ("ssn", ssn)]);
    let sources = vec![
        source(1, "2024-01-01", "2024-02-01", no_id.clone(), keys(text("5"), Value::Null), name("x")),
        source(2, "2024-01-01", "2024-02-01", no_id.clone(), keys(text("5"), text("N")), name("y")),
    ];
    let plan = sweep_line_plan(sources, Vec::new(), &ctx);
    assert_eq!(plan.len(), 1);
    assert_eq!(plan[0].operation, PlanAction::Insert);
    assert_eq!(plan[0].row_ids, vec![2]);
    assert_eq!(plan[0].data, Some(name("y")));
}

#[test]
fn equal_neighbours_of_the_target_are_joined() {
    let id = fields(&[("id", number("7"))]);
    let ctx = context(MergeMode::MergeEntityUpsert, DeleteMode::Nothing, &[]);
    let sources = vec![
        source(1, "2024-01-01", "2024-01-03", id.clone(), Fields::new(), name("a")),
        source(2, "2024-01-03", "2024-01-05", id.clone(), Fields::new(), name("a")),
    ];
    let targets = vec![
        target("2024-01-01", "2024-01-03", "7", name("a")),
        target("2024-01-03", "2024-01-05", "7", name("a")),
    ];
    let plan = sweep_line_plan(sources, targets, &ctx);
    let seen: Vec<(PlanAction, Option<UpdateEffect>, Option<&str>, Option<&str>, i32)> = plan
        .iter()
        .map(|r| (r.operation, r.update_effect, r.old_valid_range.as_deref(), r.new_valid_range.as_deref(), r.statement_seq))
        .collect();
    assert_eq!(
        seen,
        vec![
            (PlanAction::Update, Some(UpdateEffect::Grow), Some("[2024-01-01,2024-01-03)"), Some("[2024-01-01,2024-01-05)"), 2),
            (PlanAction::Delete, None, Some("[2024-01-03,2024-01-05)"), None, 1),
        ]
    );
    let (clean, end) = executes_without_overlap(
        &plan,
        &id,
        timeline(&[("2024-01-01", "2024-01-03"), ("2024-01-03", "2024-01-05")]),
    );
    assert!(clean);
    assert_eq!(end, timeline(&[("2024-01-01", "2024-01-05")]));
}

#[test]
fn two_moves_run_from_the_latest_to_the_earliest() {
    let id = fields(&[("id", number("7"))]);
    let ctx = context(MergeMode::MergeEntityReplace, DeleteMode::Nothing, &[]);
    let sources = vec![
        source(1, "2024-01-02", "2024-01-04", id.clone(), Fields::new(), name("x")),
        source(2, "2024-01-04", "2024-01-06", id.clone(), Fields::new(), name("y")),
        source(3, "2024-01-06", "2024-01-08", id.clone(), Fields::new(), name("z")),
    ];
    let targets = vec![
        target("2024-01-01", "2024-01-03", "7", name("a")),
        target("2024-01-03", "2024-01-05", "7", name("b")),
        target("2024-01-05", "2024-01-07", "7", name("c")),
    ];
    let plan = sweep_line_plan(sources, targets, &ctx);
    let seen: Vec<(PlanAction, Option<UpdateEffect>, Option<&str>, Option<&str>, i32)> = plan
        .iter()
        .map(|r| (r.operation, r.update_effect, r.old_valid_range.as_deref(), r.new_valid_range.as_deref(), r.statement_seq))
        .collect();
    assert_eq!(
        seen,
        vec![
            (PlanAction::Update, Some(UpdateEffect::Shrink), Some("[2024-01-01,2024-01-03)"), Some("[2024-01-01,2024-01-02)"), 1),
            (PlanAction::Update, Some(UpdateEffect::Move), Some("[2024-01-05,2024-01-07)"), Some("[2024-01-06,2024-01-08)"), 2),
            (PlanAction::Update, Some(UpdateEffect::Move), Some("[2024-01-03,2024-01-05)"), Some("[2024-01-04,2024-01-06)"), 3),
            (PlanAction::Insert, None, Some("[2024-01-01,2024-01-03)"), Some("[2024-01-02,2024-01-04)"), 4),
        ]
    );
    let (clean, end) = executes_without_overlap(
        &plan,
        &id,
        timeline(&[("2024-01-01", "2024-01-03"), ("2024-01-03", "2024-01-05"), ("2024-01-05", "2024-01-07")]),
    );
    assert!(clean);
    assert_eq!(
        end,
        timeline(&[
            ("2024-01-01", "2024-01-02"),
            ("2024-01-02", "2024-01-04"),
            ("2024-01-04", "2024-01-06"),
            ("2024-01-06", "2024-01-08"),
        ])
    );
}

#[test]
fn moves_of_rows_with_different_keys_run_in_the_order_of_the_keys() {
    let id = fields(&[("id", number("7"))]);
    let ctx = context(MergeMode::MergeEntityReplace, DeleteMode::Nothing, &[]);
    let sources = vec![
        source(1, "2024-01-02", "2024-01-04", id.clone(), Fields::new(), name("x")),
        source(2, "2024-01-04", "2024-01-06", id.clone(), Fields::new(), name("y")),
        source(3, "2024-01-06", "2024-01-08", id.clone(), Fields::new(), name("z")),
    ];
    let mut targets = vec![
        target("2024-01-01", "2024-01-03", "7", name("a")),
        target("2024-01-03", "2024-01-05", "7", name("b")),
        target("2024-01-05", "2024-01-07", "7", name("c")),
    ];
    targets[0].pk_payload = fields(&[("pk", number("1"))]);
    targets[1].pk_payload = fields(&[("pk", number("2"))]);
    targets[2].pk_payload = fields(&[("pk", number("3"))]);
    let plan = sweep_line_plan(sources, targets, &ctx);
    let seen: Vec<(PlanAction, Option<UpdateEffect>, Option<&str>, Option<&str>, i32)> = plan
        .iter()
        .map(|r| (r.operation, r.update_effect, r.old_valid_range.as_deref(), r.new_valid_range.as_deref(), r.statement_seq))
        .collect();
    // The keys of the entity come before the time in the order of the plan,
    // so the earlier of the two moves has the lower statement number here.
    assert_eq!(
        seen,
        vec![
            (PlanAction::Update, Some(UpdateEffect::Shrink), Some("[2024-01-01,2024-01-03)"), Some("[2024-01-01,2024-01-02)"), 1),
            (PlanAction::Insert, None, Some("[2024-01-01,2024-01-03)"), Some("[2024-01-02,2024-01-04)"), 4),
            (PlanAction::Update, Some(UpdateEffect::Move), Some("[2024-01-03,2024-01-05)"), Some("[2024-01-04,2024-01-06)"), 2),
            (PlanAction::Update, Some(UpdateEffect::Move), Some("[2024-01-05,2024-01-07)"), Some("[2024-01-06,2024-01-08)"), 3),
        ]
    );
    let (clean, end) = executes_without_overlap(
        &plan,
        &id,
        timeline(&[("2024-01-01", "2024-01-03"), ("2024-01-03", "2024-01-05"), ("2024-01-05", "2024-01-07")]),
    );
    assert!(!clean);
    assert!(!overlaps(&end));
}

#[test]
fn a_row_within_a_target_row_is_named_where_a_portion_is_updated() {
    let id = fields(&[("id", number("7"))]);
    let ctx = context(MergeMode::UpdateForPortionOf, DeleteMode::Nothing, &[]);
    let sources = vec![
        source(1, "2024-02-01", "2024-02-15", id.clone(), Fields::new(), name("x")),
        source(2, "2024-04-01", "2024-05-01", id.clone(), Fields::new(), name("y")),
    ];
    let targets = vec![target("2024-01-01", "2024-03-01", "7", name("a"))];
    let plan = sweep_line_plan(sources, targets, &ctx);
    // The row that the target row covers is named by the insertion of its
    // segment; the row beside the target row is named nowhere.
    let inserted: Vec<&PlanRow> = plan
        .iter()
        .filter(|r| r.new_valid_range.as_deref() == Some("[2024-02-01,2024-02-15)"))
        .collect();
    assert_eq!(inserted.len(), 1);
    assert_eq!(inserted[0].operation, PlanAction::Insert);
    assert_eq!(inserted[0].row_ids, vec![1]);
    assert_eq!(inserted[0].data, Some(name("x")));
    assert!(plan.iter().all(|r| !r.row_ids.contains(&2)));
    assert!(plan.iter().all(|r| r.new_valid_range.as_deref() != Some("[2024-04-01,2024-05-01)")));
    let (clean, end) = executes_without_overlap(&plan, &id, timeline(&[("2024-01-01", "2024-03-01")]));
    assert!(clean);
    assert_eq!(
        end,
        timeline(&[("2024-01-01", "2024-02-01"), ("2024-02-01", "2024-02-15"), ("2024-02-15", "2024-03-01")])
    );
}
