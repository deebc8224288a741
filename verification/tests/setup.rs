use temporal_merge::cache::PlannerCache;
use temporal_merge::config::{build_planner_context, parse_lookup_keys, sort_names};
use temporal_merge::date::integer_text;
use temporal_merge::emit::{
    cell, feedback_text, pg_nullable_text_array, pg_text_array, plan_columns,
};
use temporal_merge::executor_sql::{build_column_list_cte_query, pg_text_array_literal};
use temporal_merge::filter::{extract_filter_values, format_pg_array_literal};
use temporal_merge::interval::{AllenRelation, Bound, UpdateEffect};
use temporal_merge::layout::{
    assemble_source_row, assemble_target_row, build_column_layout, SourceHead,
};
use temporal_merge::params::{
    build_sql_templates_from_cols, build_target_sql_template, try_build_parameterized_filter,
};
use temporal_merge::sql::{build_source_sql_template, build_target_filter, build_until_expr};
use temporal_merge::types::{
    CachedState, ColCategory, ColMapping, DeleteMode, EraMetadata, Feedback, FilterParam,
    IdentityStrategy,
    MergeMode, PlanAction, PlanRow, PlannerContext, SourceRow,
};
use temporal_merge::validate::{
    check_columns, check_context, check_ephemeral_columns, read_modes, ConfigError,
};
use temporal_merge::value::{Fields, Value};

fn text(s: &str) -> Value {
    Value::Text(s.to_string())
}

fn number(s: &str) -> Value {
    Value::Number(s.to_string())
}

fn fields(entries: &[(&str, Value)]) -> Fields {
    let mut f = Fields::new();
    for (k, v) in entries {
        f.insert(k.to_string(), v.clone());
    }
    f
}

fn names(cols: &[&str]) -> Vec<String> {
    cols.iter().map(|c| c.to_string()).collect()
}

fn types(pairs: &[(&str, &str)]) -> Vec<(String, String)> {
    pairs.iter().map(|(c, t)| (c.to_string(), t.to_string())).collect()
}

fn era() -> EraMetadata {
    EraMetadata {
        range_col: "valid_range".to_string(),
        valid_from_col: "valid_from".to_string(),
        valid_until_col: "valid_until".to_string(),
        valid_to_col: Some("valid_to".to_string()),
        range_type: "daterange".to_string(),
        multirange_type: "datemultirange".to_string(),
        range_subtype: "date".to_string(),
        range_subtype_category: 'D',
        ephemeral_columns: names(&["edit_at"]),
    }
}

fn context(mode: MergeMode, delete_mode: DeleteMode, identity: &[&str], key_sets: &[&[&str]]) -> PlannerContext {
    let parsed = parse_lookup_keys(Some(
        key_sets
            .iter()
            .map(|ks| Some(ks.iter().map(|c| Some(c.to_string())).collect()))
            .collect(),
    ));
    build_planner_context(
        mode,
        delete_mode,
        era(),
        if identity.is_empty() { None } else { Some(names(identity)) },
        parsed.all_lookup_cols,
        parsed.lookup_key_sets,
        names(&["id", "valid_from"]),
        names(&["edit_comment"]),
        None,
        "row_id".to_string(),
        false,
        names(&["name"]),
    )
}

#[test]
fn a_context_is_put_together() {
    let ctx = context(
        MergeMode::MergeEntityPatch,
        DeleteMode::DeleteMissingTimeline,
        &["id"],
        &[&["ssn"], &["employee_nr", "dept"], &["ssn"]],
    );
    assert_eq!(ctx.mode, MergeMode::MergeEntityPatch);
    assert_eq!(ctx.delete_mode, DeleteMode::DeleteMissingTimeline);
    assert_eq!(ctx.strategy, IdentityStrategy::Hybrid);
    assert_eq!(ctx.identity_columns, names(&["id"]));
    assert_eq!(ctx.all_lookup_cols, names(&["dept", "employee_nr", "ssn"]));
    assert_eq!(ctx.lookup_key_sets, vec![names(&["ssn"]), names(&["employee_nr", "dept"]), names(&["ssn"])]);
    assert_eq!(ctx.temporal_cols, names(&["valid_range", "valid_from", "valid_to", "valid_until"]));
    assert_eq!(
        ctx.original_entity_segment_key_cols,
        names(&["dept", "employee_nr", "id", "ssn", "valid_from"])
    );
    assert_eq!(ctx.original_entity_key_cols, names(&["dept", "employee_nr", "id", "ssn"]));
    assert_eq!(ctx.ephemeral_columns, names(&["edit_at", "edit_comment"]));
    assert_eq!(ctx.pk_cols, names(&["id", "valid_from"]));
    assert_eq!(ctx.exclude_if_null_columns, names(&["name"]));
    assert!(!ctx.is_founding_mode());
    assert!(!ctx.is_numeric());
    let only_id = context(MergeMode::MergeEntityPatch, DeleteMode::Nothing, &["id"], &[]);
    assert_eq!(only_id.strategy, IdentityStrategy::IdentityKeyOnly);
    let only_keys = context(MergeMode::MergeEntityPatch, DeleteMode::Nothing, &[], &[&["ssn"]]);
    assert_eq!(only_keys.strategy, IdentityStrategy::LookupKeyOnly);
    let nothing = context(MergeMode::MergeEntityPatch, DeleteMode::Nothing, &[], &[]);
    assert_eq!(nothing.strategy, IdentityStrategy::Undefined);
    assert_eq!(check_context(&nothing), Err(ConfigError::NoEntityKeys));
    assert_eq!(check_context(&only_id), Ok(()));
}

#[test]
fn lookup_keys_are_read() {
    let parsed = parse_lookup_keys(None);
    assert_eq!(parsed.all_lookup_cols, None);
    assert!(parsed.lookup_key_sets.is_empty());
    let parsed = parse_lookup_keys(Some(vec![
        Some(vec![Some("ssn".to_string()), None]),
        None,
        Some(vec![]),
        Some(vec![None]),
        Some(vec![Some("nr".to_string()), Some("ssn".to_string())]),
    ]));
    assert_eq!(parsed.all_lookup_cols, Some(names(&["nr", "ssn"])));
    assert_eq!(parsed.lookup_key_sets, vec![names(&["ssn"]), names(&["nr", "ssn"])]);
    let parsed = parse_lookup_keys(Some(vec![None, Some(vec![None])]));
    assert_eq!(parsed.all_lookup_cols, None);
    assert!(parsed.lookup_key_sets.is_empty());
    assert_eq!(sort_names(names(&["b", "a", "b", "c", "a"])), names(&["a", "b", "c"]));
}

#[test]
fn modes_of_a_call_are_checked() {
    assert_eq!(
        read_modes("MERGE_ENTITY_UPSERT", "NONE"),
        Ok((MergeMode::MergeEntityUpsert, DeleteMode::Nothing))
    );
    let bad = read_modes("UPSERT", "none").unwrap_err();
    assert_eq!(bad, ConfigError::InvalidMergeMode("UPSERT".to_string()));
    assert_eq!(bad.message(), "Invalid merge mode: UPSERT");
    let bad = read_modes("MERGE_ENTITY_UPSERT", "none").unwrap_err();
    assert_eq!(bad.message(), "Invalid delete mode: none");
}

#[test]
fn ephemeral_columns_are_checked() {
    let e = era();
    assert_eq!(check_ephemeral_columns(&e, &names(&["edit_at"])), Ok(()));
    let bad = check_ephemeral_columns(&e, &names(&["x", "valid_until"])).unwrap_err();
    assert_eq!(
        bad.message(),
        "Temporal boundary columns (\"valid_from\", \"valid_until\") cannot be specified in ephemeral_columns."
    );
    let bad = check_ephemeral_columns(&e, &names(&["valid_to"])).unwrap_err();
    assert_eq!(
        bad.message(),
        "Synchronized column \"valid_to\" is automatically handled and should not be specified in ephemeral_columns."
    );
    let bad = check_ephemeral_columns(&e, &names(&["valid_range"])).unwrap_err();
    assert_eq!(bad, ConfigError::SynchronizedColumnEphemeral("valid_range".to_string()));
    // The bounds are looked at first.
    let bad = check_ephemeral_columns(&e, &names(&["valid_range", "valid_from"])).unwrap_err();
    assert_eq!(
        bad,
        ConfigError::BoundaryColumnEphemeral("valid_from".to_string(), "valid_until".to_string())
    );
}

#[test]
fn named_columns_are_checked() {
    let source = names(&["row_id", "id", "name", "founding"]);
    let target = names(&["id", "ssn", "name"]);
    let check = |row_id: &str, founding: Option<&str>, identity: Option<&[&str]>, lookup: Option<&[&str]>| {
        check_columns(
            &source,
            &target,
            row_id,
            &founding.map(|s| s.to_string()),
            &identity.map(names),
            &lookup.map(names),
            "src",
            "public.tgt",
        )
    };
    assert_eq!(check("row_id", Some("founding"), Some(&["id"]), Some(&["ssn"])), Ok(()));
    assert_eq!(check("row_id", None, None, None), Ok(()));
    assert_eq!(
        check("rid", Some("nope"), Some(&["x"]), None).unwrap_err().message(),
        "row_id_column \"rid\" does not exist in source table src"
    );
    assert_eq!(
        check("row_id", Some("nope"), Some(&["x"]), None).unwrap_err().message(),
        "founding_id_column \"nope\" does not exist in source table src"
    );
    assert_eq!(
        check("row_id", None, Some(&["id", "x", "y"]), Some(&["z"])).unwrap_err().message(),
        "identity_column x does not exist in target table public.tgt"
    );
    assert_eq!(
        check("row_id", None, Some(&["id"]), Some(&["ssn", "z"])).unwrap_err().message(),
        "lookup_column z does not exist in target table public.tgt"
    );
    assert_eq!(
        ConfigError::NoSuchEra("valid".to_string()).message(),
        "No era named \"valid\" found for target table"
    );
    assert_eq!(
        ConfigError::UnsupportedSubtypeCategory('S').message(),
        "Unsupported range subtype category: S"
    );
}

#[test]
fn columns_are_given_their_roles() {
    let ctx = context(MergeMode::MergeEntityUpsert, DeleteMode::Nothing, &["id"], &[&["ssn"]]);
    let source_cols = names(&[
        "row_id", "id", "ssn", "name", "extra", "edit_at", "valid_from", "valid_until", "merge_status",
        "era_id",
    ]);
    let target_cols = names(&["id", "ssn", "name", "edit_at", "valid_range", "valid_from", "valid_until", "valid_to"]);
    let layout = build_column_layout(
        &source_cols,
        &types(&[("id", "integer"), ("name", "text"), ("ssn", "text")]),
        &ctx,
        true,
        Some(&target_cols),
    );
    let roles: Vec<(&str, ColCategory, &str)> = layout
        .iter()
        .map(|cm| (cm.col_name.as_str(), cm.category, cm.pg_type.as_str()))
        .collect();
    assert_eq!(
        roles,
        vec![
            ("id", ColCategory::Identity, "integer"),
            ("ssn", ColCategory::Lookup, "text"),
            ("name", ColCategory::Data, "text"),
            ("edit_at", ColCategory::Ephemeral, "text"),
        ]
    );
    // A target is read with all its data columns, and with its row id column.
    let target_with_row_id = names(&["row_id", "id", "name", "valid_from"]);
    let layout = build_column_layout(&target_with_row_id, &Vec::new(), &ctx, false, None);
    let roles: Vec<(&str, ColCategory)> =
        layout.iter().map(|cm| (cm.col_name.as_str(), cm.category)).collect();
    assert_eq!(
        roles,
        vec![("row_id", ColCategory::Data), ("id", ColCategory::Identity), ("name", ColCategory::Data)]
    );
}

#[test]
fn a_key_column_of_the_primary_key_alone_is_stable() {
    let mut ctx = context(MergeMode::MergeEntityUpsert, DeleteMode::Nothing, &["id"], &[]);
    ctx.pk_cols = names(&["serial_nr"]);
    ctx.original_entity_segment_key_cols = names(&["id", "serial_nr"]);
    let layout = build_column_layout(&names(&["id", "serial_nr", "name"]), &Vec::new(), &ctx, false, None);
    let roles: Vec<(&str, ColCategory)> =
        layout.iter().map(|cm| (cm.col_name.as_str(), cm.category)).collect();
    assert_eq!(
        roles,
        vec![("id", ColCategory::Identity), ("serial_nr", ColCategory::StablePk), ("name", ColCategory::Data)]
    );
    let values = vec![number("7"), number("99"), text("Ann")];
    let row = assemble_target_row(
        Bound::of_text("2024-01-01".to_string()),
        Bound::of_text("2025-01-01".to_string()),
        &values,
        &layout,
    );
    assert_eq!(row.identity_keys, fields(&[("id", number("7"))]));
    assert_eq!(row.pk_payload, fields(&[("serial_nr", number("99"))]));
    assert_eq!(row.data_payload, fields(&[("name", text("Ann"))]));
    assert!(row.lookup_keys.is_empty());
    assert_eq!(row.valid_until.text, "2025-01-01");
}

fn mapping(name: &str, category: ColCategory) -> ColMapping {
    ColMapping { col_name: name.to_string(), category, pg_type: "text".to_string() }
}

#[test]
fn source_rows_are_put_together() {
    let ctx = context(MergeMode::MergeEntityUpsert, DeleteMode::Nothing, &["id", "id2"], &[&["ssn"]]);
    let layout = vec![
        mapping("id", ColCategory::Identity),
        mapping("ssn", ColCategory::Lookup),
        mapping("name", ColCategory::Data),
        mapping("edit_at", ColCategory::Ephemeral),
        mapping("serial_nr", ColCategory::StablePk),
    ];
    let head = |row_id: i64| SourceHead {
        row_id,
        causal_id: "c".to_string(),
        valid_from: Bound::of_text("2024-01-01".to_string()),
        valid_until: Bound::of_text("2025-01-01".to_string()),
    };
    let row = assemble_source_row(
        head(4),
        &vec![number("7"), Value::Null, text("Ann"), text("now"), number("1")],
        &layout,
        &ctx,
    );
    assert_eq!(row.row_id, 4);
    assert_eq!(row.causal_id, "c");
    assert_eq!(row.identity_keys, fields(&[("id", number("7"))]));
    assert_eq!(row.lookup_keys, fields(&[("ssn", Value::Null)]));
    assert_eq!(row.data_payload, fields(&[("name", text("Ann"))]));
    assert_eq!(row.ephemeral_payload, fields(&[("edit_at", text("now"))]));
    assert_eq!(row.stable_pk_payload, fields(&[("id", number("7")), ("id2", Value::Null)]));
    assert!(row.is_identifiable);
    assert!(row.lookup_cols_are_null);
    // What was not read counts as NULL.
    let row = assemble_source_row(head(5), &vec![Value::Null, text("555")], &layout, &ctx);
    assert!(!row.is_identifiable);
    assert!(!row.lookup_cols_are_null);
    assert_eq!(row.data_payload, fields(&[("name", Value::Null)]));
    let bare = context(MergeMode::MergeEntityUpsert, DeleteMode::Nothing, &[], &[]);
    let row = assemble_source_row(head(6), &Vec::new(), &Vec::new(), &bare);
    assert!(row.is_identifiable);
    assert!(row.lookup_cols_are_null);
}

#[test]
fn text_arrays_are_written() {
    assert_eq!(pg_text_array(&names(&[])), "{}");
    assert_eq!(pg_text_array(&names(&["a", "b c"])), "{\"a\",\"b c\"}");
    assert_eq!(pg_text_array(&names(&["say \"hi\"", "back\\slash"])), "{\"say \\\"hi\\\"\",\"back\\\\slash\"}");
    assert_eq!(
        pg_nullable_text_array(&vec![Some("a".to_string()), None, Some("NULL".to_string())]),
        "{\"a\",NULL,\"NULL\"}"
    );
    assert_eq!(pg_nullable_text_array(&vec![None]), "{NULL}");
    assert_eq!(format_pg_array_literal(&vec![]), "{}");
    assert_eq!(
        format_pg_array_literal(&vec![Some("a".to_string()), None, Some("b with,comma".to_string())]),
        "{\"a\",NULL,\"b with,comma\"}"
    );
    assert_eq!(
        format_pg_array_literal(&vec![Some("say \"hi\"".to_string()), Some("back\\slash".to_string())]),
        "{\"say \"\"hi\"\"\",\"back\\\\slash\"}"
    );
    assert_eq!(pg_text_array_literal(&names(&[])), "'{}'");
    assert_eq!(pg_text_array_literal(&names(&["a", "it's"])), "ARRAY['a','it''s']");
    assert_eq!(integer_text(0), "0");
    assert_eq!(integer_text(-1), "-1");
    assert_eq!(integer_text(1234567890123), "1234567890123");
    assert_eq!(integer_text(i64::MIN), "-9223372036854775808");
    assert_eq!(integer_text(i64::MAX), "9223372036854775807");
}

fn plan_row() -> PlanRow {
    PlanRow {
        plan_op_seq: 3,
        statement_seq: 2,
        row_ids: vec![5, -1],
        operation: PlanAction::Update,
        update_effect: Some(UpdateEffect::Shrink),
        causal_id: Some("5".to_string()),
        is_new_entity: false,
        entity_keys: Some(fields(&[("id", number("7")), ("ssn", text("a\"b"))])),
        identity_keys: Some(fields(&[("id", number("7"))])),
        lookup_keys: Some(Fields::new()),
        s_t_relation: Some(AllenRelation::During),
        b_a_relation: None,
        old_valid_from: Some(Bound::of_text("2024-01-01".to_string())),
        old_valid_until: Some(Bound::of_text("2025-01-01".to_string())),
        new_valid_from: Some(Bound::of_text("2024-01-01".to_string())),
        new_valid_until: Some(Bound::of_text("2024-06-01".to_string())),
        old_valid_range: Some("[2024-01-01,2025-01-01)".to_string()),
        new_valid_range: Some("[2024-01-01,2024-06-01)".to_string()),
        data: Some(fields(&[("name", text("Ann")), ("n", Value::Null), ("ok", Value::Bool(true))])),
        feedback: None,
        trace: None,
        grouping_key: "existing_entity__7".to_string(),
    }
}

#[test]
fn a_plan_is_written_column_by_column() {
    let row = plan_row();
    let cells: Vec<Option<String>> = (0..22).map(|c| cell(&row, c)).collect();
    let some = |s: &str| Some(s.to_string());
    assert_eq!(
        cells,
        vec![
            some("3"),
            some("2"),
            some("{5,-1}"),
            some("UPDATE"),
            some("SHRINK"),
            some("5"),
            some("false"),
            some("{\"id\":7,\"ssn\":\"a\\\"b\"}"),
            some("{\"id\":7}"),
            some("{}"),
            some("during"),
            None,
            some("2024-01-01"),
            some("2025-01-01"),
            some("2024-01-01"),
            some("2024-06-01"),
            some("[2024-01-01,2025-01-01)"),
            some("[2024-01-01,2024-06-01)"),
            some("{\"n\":null,\"name\":\"Ann\",\"ok\":true}"),
            None,
            None,
            some("existing_entity__7"),
        ]
    );
    let mut second = plan_row();
    second.row_ids = Vec::new();
    second.operation = PlanAction::Error;
    second.is_new_entity = true;
    second.feedback = Some(Feedback::Error("a \"b\"".to_string()));
    assert_eq!(cell(&second, 2), None);
    assert_eq!(cell(&second, 6), some("true"));
    assert_eq!(cell(&second, 19), some("{\"error\":\"a \\\"b\\\"\"}"));
    assert_eq!(feedback_text(&Feedback::Info("x".to_string())), "{\"info\":\"x\"}");
    let columns = plan_columns(&vec![row, second]);
    assert_eq!(columns.len(), 22);
    assert_eq!(columns[0], "{\"3\",\"3\"}");
    assert_eq!(columns[2], "{\"{5,-1}\",NULL}");
    assert_eq!(columns[3], "{\"UPDATE\",\"ERROR\"}");
    assert_eq!(columns[8], "{\"{\\\"id\\\":7}\",\"{\\\"id\\\":7}\"}");
    assert_eq!(columns[11], "{NULL,NULL}");
    assert_eq!(columns[19], "{NULL,\"{\\\"error\\\":\\\"a \\\\\\\"b\\\\\\\"\\\"}\"}");
    assert_eq!(columns[21], "{\"existing_entity__7\",\"existing_entity__7\"}");
    assert_eq!(plan_columns(&Vec::new())[0], "{}");
}

fn source_row(row_id: i64, identity: Fields, lookup: Fields) -> SourceRow {
    SourceRow {
        row_id,
        causal_id: row_id.to_string(),
        valid_from: Bound::of_text("2024-01-01".to_string()),
        valid_until: Bound::of_text("2025-01-01".to_string()),
        identity_keys: identity,
        lookup_keys: lookup,
        data_payload: Fields::new(),
        ephemeral_payload: Fields::new(),
        stable_pk_payload: Fields::new(),
        is_identifiable: true,
        lookup_cols_are_null: false,
    }
}

fn param(col: &str, index: usize, set: usize) -> FilterParam {
    FilterParam {
        col_name: col.to_string(),
        pg_type: "text".to_string(),
        param_index: index,
        is_identity: false,
        key_set_id: set,
    }
}

#[test]
fn filter_values_are_the_distinct_tuples_of_the_source() {
    let rows = vec![
        source_row(1, fields(&[("id", number("1"))]), fields(&[("a", text("x")), ("b", text("1"))])),
        source_row(2, fields(&[("id", number("2"))]), fields(&[("a", text("x")), ("b", Value::Null)])),
        source_row(3, fields(&[("id", number("1"))]), fields(&[("a", text("x")), ("b", text("1"))])),
        source_row(4, fields(&[("id", Value::Null)]), fields(&[("a", text("y")), ("b", Value::Bool(true))])),
    ];
    let params = vec![param("a", 1, 0), param("b", 2, 0), param("id", 3, 1), param("gone", 4, 2)];
    let values = extract_filter_values(&rows, &params);
    assert_eq!(
        values,
        vec![
            "{\"x\",\"x\",\"y\"}".to_string(),
            "{\"1\",NULL,\"true\"}".to_string(),
            "{\"1\",\"2\",NULL}".to_string(),
            "{NULL}".to_string(),
        ]
    );
    assert!(extract_filter_values(&rows, &Vec::new()).is_empty());
    assert_eq!(extract_filter_values(&Vec::new(), &params), vec!["{}".to_string(); 4]);
}

#[test]
fn the_end_of_an_interval_is_worked_out() {
    let ctx = context(MergeMode::MergeEntityUpsert, DeleteMode::Nothing, &["id"], &[]);
    let unit = "'1 day'::interval";
    assert_eq!(
        build_until_expr("s", true, true, true, &ctx, unit),
        "COALESCE(upper(s.\"valid_range\"), COALESCE(s.\"valid_until\", (s.\"valid_to\" + '1 day'::interval)::date))"
    );
    assert_eq!(
        build_until_expr("s", true, true, false, &ctx, unit),
        "COALESCE(upper(s.\"valid_range\"), s.\"valid_until\")"
    );
    assert_eq!(
        build_until_expr("s", true, false, true, &ctx, unit),
        "COALESCE(upper(s.\"valid_range\"), (s.\"valid_to\" + '1 day'::interval)::date)"
    );
    assert_eq!(build_until_expr("s", true, false, false, &ctx, unit), "COALESCE(upper(s.\"valid_range\"), NULL)");
    assert_eq!(
        build_until_expr("t", false, true, true, &ctx, "1"),
        "COALESCE(t.\"valid_until\", (t.\"valid_to\" + 1)::date)"
    );
    assert_eq!(build_until_expr("t", false, true, false, &ctx, "1"), "t.\"valid_until\"");
    assert_eq!(build_until_expr("t", false, false, true, &ctx, "1"), "(t.\"valid_to\" + 1)::date");
    assert_eq!(build_until_expr("t", false, false, false, &ctx, "1"), "NULL");
}

#[test]
fn the_statement_for_the_source_is_written() {
    let ctx = context(MergeMode::MergeEntityUpsert, DeleteMode::Nothing, &["id"], &[]);
    let layout = vec![mapping("id", ColCategory::Identity), mapping("na\"me", ColCategory::Data)];
    let sql = build_source_sql_template(&names(&["row_id", "id", "valid_from", "valid_until"]), &layout, &ctx, "src");
    assert_eq!(
        sql,
        Ok("SELECT s.\"row_id\"::bigint, (s.\"row_id\"::text), (s.\"valid_from\")::text, (s.\"valid_until\")::text, s.\"id\"::text, s.\"na\"\"me\"::text FROM __SOURCE_IDENT__ AS s".to_string())
    );
    let mut founding = context(MergeMode::MergeEntityUpsert, DeleteMode::Nothing, &["id"], &[]);
    founding.founding_id_column = Some("fid".to_string());
    founding.era.range_subtype_category = 'N';
    let sql = build_source_sql_template(&names(&["valid_range", "valid_to"]), &Vec::new(), &founding, "src");
    assert_eq!(
        sql,
        Ok("SELECT s.\"row_id\"::bigint, (COALESCE(s.\"fid\"::text, s.\"row_id\"::text)), (COALESCE(lower(s.\"valid_range\"), NULL))::text, (COALESCE(upper(s.\"valid_range\"), (s.\"valid_to\" + 1)::date))::text FROM __SOURCE_IDENT__ AS s".to_string())
    );
    let err = build_source_sql_template(&names(&["valid_until"]), &Vec::new(), &ctx, "src").unwrap_err();
    assert_eq!(
        err.message(),
        "Source table \"src\" must have either the range column \"valid_range\" or the component column \"valid_from\"."
    );
    let err = build_source_sql_template(&names(&["valid_from"]), &Vec::new(), &ctx, "src").unwrap_err();
    assert_eq!(
        err.message(),
        "Source table \"src\" must have a \"valid_range\", \"valid_until\", or \"valid_to\" column."
    );
    let mut odd = context(MergeMode::MergeEntityUpsert, DeleteMode::Nothing, &["id"], &[]);
    odd.era.range_subtype_category = 'S';
    odd.era.valid_to_col = None;
    odd.era.valid_from_col = String::new();
    let err = build_source_sql_template(&names(&["valid_range"]), &Vec::new(), &odd, "src").unwrap_err();
    assert_eq!(err, ConfigError::UnsupportedSubtypeCategory('S'));
    let err = build_source_sql_template(&names(&["x"]), &Vec::new(), &odd, "src").unwrap_err();
    assert_eq!(
        err.message(),
        "Source table \"src\" must have either the range column \"valid_range\" or the component column \"<NULL>\"."
    );
    let err = build_source_sql_template(&names(&["", "x"]), &Vec::new(), &odd, "src").unwrap_err();
    assert_eq!(
        err.message(),
        "Source table \"src\" must have a \"valid_range\", \"valid_until\", or \"<NULL>\" column."
    );
}

#[test]
fn the_target_is_cut_down_to_the_entities_of_the_source() {
    let ctx = context(MergeMode::MergeEntityUpsert, DeleteMode::Nothing, &["id"], &[&["ssn"], &["nr", "dept"]]);
    assert_eq!(
        build_target_filter("src", &names(&["id", "ssn", "nr", "dept"]), &ctx),
        " WHERE (t.\"dept\", t.\"nr\", t.\"ssn\") IN (SELECT DISTINCT s.\"dept\", s.\"nr\", s.\"ssn\" FROM src AS s WHERE s.\"dept\" IS NOT NULL OR s.\"nr\" IS NOT NULL OR s.\"ssn\" IS NOT NULL) OR (t.\"id\") IN (SELECT DISTINCT s.\"id\" FROM src AS s WHERE s.\"id\" IS NOT NULL)"
    );
    // A key of which the source lacks a column is of no use.
    assert_eq!(
        build_target_filter("src", &names(&["id", "ssn"]), &ctx),
        " WHERE (t.\"id\") IN (SELECT DISTINCT s.\"id\" FROM src AS s WHERE s.\"id\" IS NOT NULL)"
    );
    assert_eq!(build_target_filter("src", &names(&["ssn"]), &ctx), "");
    let whole = context(MergeMode::MergeEntityReplace, DeleteMode::DeleteMissingEntities, &["id"], &[]);
    assert_eq!(build_target_filter("src", &names(&["id"]), &whole), "");
    let not_whole = context(MergeMode::MergeEntityUpsert, DeleteMode::DeleteMissingEntities, &["id"], &[]);
    assert_ne!(build_target_filter("src", &names(&["id"]), &not_whole), "");
}

#[test]
fn the_filter_is_written_with_parameters() {
    let ctx = context(MergeMode::MergeEntityUpsert, DeleteMode::Nothing, &["id"], &[&["ssn"], &["nr", "dept"], &["ssn"]]);
    let target_types = types(&[("id", "integer"), ("ssn", "text"), ("nr", "text"), ("dept", "integer")]);
    let (clause, params) =
        try_build_parameterized_filter(&target_types, &names(&["id", "ssn"]), &ctx).unwrap();
    assert_eq!(
        clause,
        " WHERE EXISTS (SELECT 1 FROM unnest($1::text::text[]) AS _u(v) WHERE t.\"ssn\" IS NOT DISTINCT FROM _u.v) OR EXISTS (SELECT 1 FROM ROWS FROM(unnest($2::text::text[]), unnest($3::text::integer[])) AS _u(_c0, _c1) WHERE t.\"nr\" IS NOT DISTINCT FROM _u._c0 AND t.\"dept\" IS NOT DISTINCT FROM _u._c1) OR EXISTS (SELECT 1 FROM unnest($4::text::integer[]) AS _u(v) WHERE t.\"id\" IS NOT DISTINCT FROM _u.v)"
    );
    let seen: Vec<(&str, &str, usize, bool, usize)> = params
        .iter()
        .map(|p| (p.col_name.as_str(), p.pg_type.as_str(), p.param_index, p.is_identity, p.key_set_id))
        .collect();
    assert_eq!(
        seen,
        vec![
            ("ssn", "text", 1, false, 0),
            ("nr", "text", 2, false, 1),
            ("dept", "integer", 3, false, 1),
            ("id", "integer", 4, true, 2),
        ]
    );
    // The type of a key column that is not known stands against parameters.
    assert!(try_build_parameterized_filter(&types(&[("id", "integer")]), &names(&["id"]), &ctx).is_none());
    let whole = context(MergeMode::MergeEntityPatch, DeleteMode::DeleteMissingTimelineAndEntities, &["id"], &[]);
    let (clause, params) = try_build_parameterized_filter(&Vec::new(), &names(&["id"]), &whole).unwrap();
    assert_eq!(clause, "");
    assert!(params.is_empty());
    let (clause, params) = try_build_parameterized_filter(
        &Vec::new(),
        &names(&["x"]),
        &context(MergeMode::MergeEntityUpsert, DeleteMode::Nothing, &["id"], &[]),
    )
    .unwrap();
    assert_eq!(clause, "");
    assert!(params.is_empty());
}

#[test]
fn the_statements_of_a_call_are_written() {
    let ctx = context(MergeMode::MergeEntityUpsert, DeleteMode::Nothing, &["id"], &[]);
    let layout = vec![mapping("id", ColCategory::Identity)];
    let (sql, params) = build_target_sql_template(
        "public.tgt",
        &names(&["id"]),
        &types(&[("id", "integer")]),
        &layout,
        &ctx,
    );
    assert_eq!(
        sql,
        "SELECT lower(t.\"valid_range\")::text, upper(t.\"valid_range\")::text, t.\"id\"::text FROM public.tgt AS t WHERE EXISTS (SELECT 1 FROM unnest($1::text::integer[]) AS _u(v) WHERE t.\"id\" IS NOT DISTINCT FROM _u.v)"
    );
    assert_eq!(params.map(|p| p.len()), Some(1));
    let (sql, params) = build_target_sql_template("public.tgt", &names(&["id"]), &Vec::new(), &Vec::new(), &ctx);
    assert_eq!(
        sql,
        "SELECT lower(t.\"valid_range\")::text, upper(t.\"valid_range\")::text FROM public.tgt AS t WHERE (t.\"id\") IN (SELECT DISTINCT s.\"id\" FROM __SOURCE_IDENT__ AS s WHERE s.\"id\" IS NOT NULL)"
    );
    assert!(params.is_none());
    let templates = build_sql_templates_from_cols(
        &names(&["row_id", "id", "name", "valid_from", "valid_until"]),
        &names(&["id", "name", "valid_range", "valid_from", "valid_until"]),
        &types(&[("id", "integer"), ("name", "text")]),
        &types(&[("id", "integer")]),
        "public.tgt",
        &ctx,
        "src",
    )
    .unwrap();
    assert_eq!(templates.target_ident, "public.tgt");
    assert_eq!(templates.source_col_layout.len(), 2);
    assert_eq!(templates.source_col_layout[1].pg_type, "text");
    assert_eq!(templates.target_col_layout.len(), 2);
    assert_eq!(
        templates.source_sql_template,
        "SELECT s.\"row_id\"::bigint, (s.\"row_id\"::text), (s.\"valid_from\")::text, (s.\"valid_until\")::text, s.\"id\"::text, s.\"name\"::text FROM __SOURCE_IDENT__ AS s"
    );
    assert!(templates.target_sql_template.ends_with("WHERE t.\"id\" IS NOT DISTINCT FROM _u.v)"));
    assert_eq!(templates.target_filter_params.map(|p| p.len()), Some(1));
    assert!(build_sql_templates_from_cols(&names(&["x"]), &names(&["id"]), &Vec::new(), &Vec::new(), "t", &ctx, "s").is_err());
}

#[test]
fn the_query_for_the_column_lists_is_written() {
    let sql = build_column_list_cte_query(
        4711,
        &names(&["id"]),
        &names(&[]),
        &names(&["id"]),
        &names(&["valid_from"]),
        &names(&[]),
        &names(&["na'me"]),
        "valid_range",
        "valid_from",
        "",
        &Some("valid_to".to_string()),
    );
    assert!(sql.starts_with("WITH target_cols AS (\n            SELECT pa.attname::text"));
    assert!(sql.contains("WHERE pa.attrelid = 4711::oid AND pa.attnum > 0 AND NOT pa.attisdropped"));
    assert!(sql.contains(
        "WHERE t.attname <> 'valid_range' AND t.attname <> 'valid_from' AND t.attname <> 'valid_to'\n"
    ));
    assert!(sql.contains("AND t.attname <> ALL(ARRAY['id']::text[])\n              AND t.attname <> ALL('{}'::text[])\n"));
    assert!(sql.contains("WHEN cdc.attname = ANY(ARRAY['na''me']::text[])"));
    assert!(sql.contains("FROM cols_for_insert cfi WHERE cfi.attname IS DISTINCT FROM 'valid_from' AND true),"));
    assert!(sql.contains("WHERE cffi.attname IS DISTINCT FROM 'valid_from' AND true)"));
    assert!(sql.ends_with("WHERE cffi.attname IS DISTINCT FROM 'valid_from' AND true)"));
    assert_eq!(sql.matches("4711::oid").count(), 6);
    assert_eq!(sql.lines().count(), 108);
}

fn state(cache_key: u64, source_cols_hash: u64, target: &str) -> CachedState {
    CachedState {
        cache_key,
        ctx: context(MergeMode::MergeEntityUpsert, DeleteMode::Nothing, &["id"], &[]),
        target_ident: target.to_string(),
        source_sql_template: String::new(),
        target_sql_template: String::new(),
        source_col_layout: Vec::new(),
        target_col_layout: Vec::new(),
        target_filter_params: None,
        source_cols_hash,
        source_oid: 0,
    }
}

#[test]
fn a_state_is_of_use_only_for_the_columns_it_was_made_for() {
    let mut cache = PlannerCache::new();
    assert_eq!(cache.len(), 0);
    assert!(!cache.probe(1, 10));
    assert_eq!((cache.hits(), cache.misses()), (0, 1));
    cache.store(state(1, 10, "a"));
    cache.store(state(2, 20, "b"));
    assert_eq!(cache.len(), 2);
    assert!(cache.probe(1, 10));
    assert_eq!(cache.get(1).map(|s| s.target_ident.as_str()), Some("a"));
    assert_eq!((cache.hits(), cache.misses()), (1, 1));
    // The columns of the source changed: the state is stale and is dropped.
    assert!(!cache.probe(2, 21));
    assert_eq!(cache.len(), 1);
    assert!(cache.get(2).is_none());
    assert_eq!((cache.hits(), cache.misses()), (1, 2));
    cache.store(state(1, 11, "c"));
    assert_eq!(cache.len(), 1);
    assert!(!cache.probe(1, 10));
    assert_eq!(cache.len(), 0);
    cache.store(state(3, 30, "d"));
    cache.clear();
    assert_eq!(cache.len(), 0);
    assert_eq!((cache.hits(), cache.misses()), (0, 0));
}
