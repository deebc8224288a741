use crate::config::same_names;
use crate::layout::{ColMappingModel};
use crate::quoting::{qi, quoted_identifier};
use crate::text::{join, join_spec};
use crate::types::{ColMapping, DeleteMode, MergeMode, PlannerContext};
use crate::validate::{ConfigError, ConfigErrorModel};
use crate::value::has_name;
use crate::views::{lemma_deep_empty, lemma_deep_push, lemma_take_all, lemma_take_step};
use vstd::prelude::*;

verus! {

/// The text that stands for the source relation in a template.
pub open spec fn source_mark() -> Seq<char> {
    "__SOURCE_IDENT__"@
}

/// What the templates read of an era.
pub struct EraNames {
    pub range_col: Seq<char>,
    pub valid_from_col: Seq<char>,
    pub valid_until_col: Seq<char>,
    pub valid_to_col: Option<Seq<char>>,
    pub range_subtype: Seq<char>,
    pub category: char,
}

/// What the templates read of the era of a context.
pub open spec fn era_names(ctx: &PlannerContext) -> EraNames {
    EraNames {
        range_col: ctx.era.range_col@,
        valid_from_col: ctx.era.valid_from_col@,
        valid_until_col: ctx.era.valid_until_col@,
        valid_to_col: ctx.era.valid_to_col.deep_view(),
        range_subtype: ctx.era.range_subtype@,
        category: ctx.era.range_subtype_category,
    }
}

/// The end of an interval worked out from the synchronized column: the
/// column plus one unit, as the subtype of the era.
pub open spec fn to_expr(alias: Seq<char>, era: EraNames, unit: Seq<char>) -> Seq<char> {
    "("@ + alias + "."@ + quoted_identifier(era.valid_to_col->0) + " + "@ + unit + ")::"@
        + era.range_subtype
}

/// The end of an interval as the component columns give it: the end
/// column, else the synchronized column plus one unit, else NULL.
pub open spec fn component_until(
    alias: Seq<char>,
    has_until: bool,
    has_to: bool,
    era: EraNames,
    unit: Seq<char>,
) -> Seq<char> {
    if has_until && has_to {
        "COALESCE("@ + alias + "."@ + quoted_identifier(era.valid_until_col) + ", "@ + to_expr(
            alias,
            era,
            unit,
        ) + ")"@
    } else if has_until {
        alias + "."@ + quoted_identifier(era.valid_until_col)
    } else if has_to {
        to_expr(alias, era, unit)
    } else {
        "NULL"@
    }
}

/// The expression for the end of the interval of a row: the upper bound of
/// the range where there is a range column, else what the component columns
/// give.
pub open spec fn until_expr(
    alias: Seq<char>,
    has_range: bool,
    has_until: bool,
    has_to: bool,
    era: EraNames,
    unit: Seq<char>,
) -> Seq<char> {
    if has_range {
        "COALESCE(upper("@ + alias + "."@ + quoted_identifier(era.range_col) + "), "@
            + component_until(alias, has_until, has_to, era, unit) + ")"@
    } else {
        component_until(alias, has_until, has_to, era, unit)
    }
}

fn build_to_expr(alias: &str, ctx: &PlannerContext, interval_expr: &str) -> (out: String)
    requires
        ctx.era.valid_to_col is Some,
    ensures
        out@ == to_expr(alias@, era_names(ctx), interval_expr@),
{
    let mut out = String::from_str("(");
    out.append(alias);
    out.append(".");
    let col = match &ctx.era.valid_to_col {
        Some(c) => qi(c.as_str()),
        None => String::new(),
    };
    out.append(col.as_str());
    out.append(" + ");
    out.append(interval_expr);
    out.append(")::");
    out.append(ctx.era.range_subtype.as_str());
    out
}

fn build_component_until(alias: &str, has_until: bool, has_to: bool, ctx: &PlannerContext, interval_expr: &str) -> (out: String)
    requires
        has_to ==> ctx.era.valid_to_col is Some,
    ensures
        out@ == component_until(alias@, has_until, has_to, era_names(ctx), interval_expr@),
{
    if has_until && has_to {
        let mut out = String::from_str("COALESCE(");
        out.append(alias);
        out.append(".");
        let col = qi(ctx.era.valid_until_col.as_str());
        out.append(col.as_str());
        out.append(", ");
        let to = build_to_expr(alias, ctx, interval_expr);
        out.append(to.as_str());
        out.append(")");
        out
    } else if has_until {
        let mut out = String::from_str(alias);
        out.append(".");
        let col = qi(ctx.era.valid_until_col.as_str());
        out.append(col.as_str());
        out
    } else if has_to {
        build_to_expr(alias, ctx, interval_expr)
    } else {
        String::from_str("NULL")
    }
}

/// Writes the expression for the end of the interval of a row.
pub fn build_until_expr(
    alias: &str,
    has_range: bool,
    has_until: bool,
    has_to: bool,
    ctx: &PlannerContext,
    interval_expr: &str,
) -> (out: String)
    requires
        has_to ==> ctx.era.valid_to_col is Some,
    ensures
        out@ == until_expr(alias@, has_range, has_until, has_to, era_names(ctx), interval_expr@),
{
    let fallback = build_component_until(alias, has_until, has_to, ctx, interval_expr);
    if has_range {
        let mut out = String::from_str("COALESCE(upper(");
        out.append(alias);
        out.append(".");
        let col = qi(ctx.era.range_col.as_str());
        out.append(col.as_str());
        out.append("), ");
        out.append(fallback.as_str());
        out.append(")");
        out
    } else {
        fallback
    }
}

/// The columns of a layout as they are selected from the relation `alias`,
/// each cast to text.
pub open spec fn selected_columns(layout: Seq<ColMappingModel>, alias: Seq<char>) -> Seq<Seq<char>> {
    layout.map_values(
        |cm: ColMappingModel| alias + "."@ + quoted_identifier(cm.col_name) + "::text"@,
    )
}

/// The select list of the columns of a layout, with a comma before each.
pub open spec fn column_list(layout: Seq<ColMappingModel>, alias: Seq<char>) -> Seq<char> {
    if layout.len() == 0 {
        Seq::empty()
    } else {
        ", "@ + join_spec(selected_columns(layout, alias), ", "@)
    }
}

/// Writes the select list of the columns of a layout.
pub fn build_column_list(layout: &Vec<ColMapping>, alias: &str) -> (out: String)
    ensures
        out@ == column_list(layout.deep_view(), alias@),
{
    let ghost lm = layout.deep_view();
    let mut parts: Vec<String> = Vec::new();
    let mut i: usize = 0;
    while i < layout.len()
        invariant
            i <= layout.len(),
            lm == layout.deep_view(),
            parts.len() == i,
            forall|j: int| 0 <= j < i ==> (#[trigger] parts[j])@ == selected_columns(lm, alias@)[j],
        decreases layout.len() - i,
    {
        assert(lm[i as int] == layout@[i as int].deep_view());
        let mut p = String::from_str(alias);
        p.append(".");
        let col = qi(layout[i].col_name.as_str());
        p.append(col.as_str());
        p.append("::text");
        parts.push(p);
        i += 1;
    }
    assert(parts.deep_view() =~= selected_columns(lm, alias@));
    if parts.len() == 0 {
        String::new()
    } else {
        let mut out = String::from_str(", ");
        let body = join(&parts, ", ");
        out.append(body.as_str());
        out
    }
}

/// The name of a column, or `<NULL>` where it has none.
pub open spec fn name_or_null(name: Seq<char>) -> Seq<char> {
    if name.len() == 0 {
        "<NULL>"@
    } else {
        name
    }
}

/// The unit by which the end of an interval lies behind its last point:
/// a day for a discrete subtype, 1 for a numeric one.
pub open spec fn unit_of(category: char) -> Option<Seq<char>> {
    if category == 'D' {
        Some("'1 day'::interval"@)
    } else if category == 'N' {
        Some("1"@)
    } else {
        None
    }
}

/// What the source offers for the bounds of its rows.
pub struct SourceBounds {
    pub has_range: bool,
    pub has_from: bool,
    pub has_until: bool,
    pub has_to: bool,
}

/// What a source with the columns `source_cols` offers for the bounds of its rows.
pub open spec fn source_offers(source_cols: Seq<Seq<char>>, era: EraNames) -> SourceBounds {
    SourceBounds {
        has_range: source_cols.contains(era.range_col),
        has_from: source_cols.contains(era.valid_from_col),
        has_until: source_cols.contains(era.valid_until_col),
        has_to: era.valid_to_col is Some && source_cols.contains(era.valid_to_col->0),
    }
}

/// Why no statement can read the source, if none can: it has no start of
/// the interval, or no end, or the subtype of the era is not supported.
pub open spec fn source_fault(source_cols: Seq<Seq<char>>, era: EraNames, source: Seq<char>) -> Option<
    ConfigErrorModel,
> {
    let offers = source_offers(source_cols, era);
    if !offers.has_from && !offers.has_range {
        Some(
            ConfigErrorModel::SourceLacksStart(source, era.range_col, name_or_null(era.valid_from_col)),
        )
    } else if !offers.has_range && !offers.has_until && !offers.has_to {
        Some(
            ConfigErrorModel::SourceLacksEnd(
                source,
                era.range_col,
                era.valid_until_col,
                match era.valid_to_col {
                    Some(c) => c,
                    None => "<NULL>"@,
                },
            ),
        )
    } else if unit_of(era.category) is None {
        Some(ConfigErrorModel::UnsupportedSubtypeCategory(era.category))
    } else {
        None
    }
}

/// The expression for the start of the interval of a source row.
pub open spec fn from_expr(offers: SourceBounds, era: EraNames) -> Seq<char> {
    if offers.has_range {
        "COALESCE(lower(s."@ + quoted_identifier(era.range_col) + "), "@ + (if offers.has_from {
            "s."@ + quoted_identifier(era.valid_from_col)
        } else {
            "NULL"@
        }) + ")"@
    } else {
        "s."@ + quoted_identifier(era.valid_from_col)
    }
}

/// The expression for the causal id of a source row: the founding id where
/// there is one, else the row id.
pub open spec fn causal_expr(row_id: Seq<char>, founding_id: Option<Seq<char>>) -> Seq<char> {
    match founding_id {
        Some(f) => "COALESCE(s."@ + quoted_identifier(f) + "::text, s."@ + quoted_identifier(row_id)
            + "::text)"@,
        None => "s."@ + quoted_identifier(row_id) + "::text"@,
    }
}

/// The statement that reads the source, with a mark in place of the
/// relation: row id, causal id, start and end of the interval, and the
/// columns of the layout.
pub open spec fn source_template(
    source_cols: Seq<Seq<char>>,
    layout: Seq<ColMappingModel>,
    era: EraNames,
    row_id: Seq<char>,
    founding_id: Option<Seq<char>>,
) -> Seq<char> {
    let offers = source_offers(source_cols, era);
    "SELECT s."@ + quoted_identifier(row_id) + "::bigint, ("@ + causal_expr(row_id, founding_id)
        + "), ("@ + from_expr(offers, era) + ")::text, ("@ + until_expr(
        "s"@,
        offers.has_range,
        offers.has_until,
        offers.has_to,
        era,
        unit_of(era.category)->0,
    ) + ")::text"@ + column_list(layout, "s"@) + " FROM "@ + source_mark() + " AS s"@
}

/// Writes the statement that reads the source.
pub fn build_source_sql_template(
    source_cols: &Vec<String>,
    col_layout: &Vec<ColMapping>,
    ctx: &PlannerContext,
    source_table_name: &str,
) -> (r: Result<String, ConfigError>)
    ensures
        match r {
            Ok(sql) => source_fault(source_cols.deep_view(), era_names(ctx), source_table_name@) is None
                && sql@ == source_template(
                source_cols.deep_view(),
                col_layout.deep_view(),
                era_names(ctx),
                ctx.row_id_column@,
                ctx.founding_id_column.deep_view(),
            ),
            Err(e) => Some(e.deep_view()) == source_fault(
                source_cols.deep_view(),
                era_names(ctx),
                source_table_name@,
            ),
        },
{
    let has_range = has_name(source_cols, ctx.era.range_col.as_str());
    let has_from = has_name(source_cols, ctx.era.valid_from_col.as_str());
    let has_until = has_name(source_cols, ctx.era.valid_until_col.as_str());
    let has_to = match &ctx.era.valid_to_col {
        Some(c) => has_name(source_cols, c.as_str()),
        None => false,
    };
    if !has_from && !has_range {
        let from_name = if ctx.era.valid_from_col.as_str().is_empty() {
            String::from_str("<NULL>")
        } else {
            ctx.era.valid_from_col.clone()
        };
        return Err(
            ConfigError::SourceLacksStart(
                String::from_str(source_table_name),
                ctx.era.range_col.clone(),
                from_name,
            ),
        );
    }
    if !has_range && !has_until && !has_to {
        let to_name = match &ctx.era.valid_to_col {
            Some(c) => c.clone(),
            None => String::from_str("<NULL>"),
        };
        return Err(
            ConfigError::SourceLacksEnd(
                String::from_str(source_table_name),
                ctx.era.range_col.clone(),
                ctx.era.valid_until_col.clone(),
                to_name,
            ),
        );
    }
    let category = ctx.era.range_subtype_category;
    let unit = if category == 'D' {
        "'1 day'::interval"
    } else if category == 'N' {
        "1"
    } else {
        return Err(ConfigError::UnsupportedSubtypeCategory(category));
    };
    let row_id = qi(ctx.row_id_column.as_str());
    let mut out = String::from_str("SELECT s.");
    out.append(row_id.as_str());
    out.append("::bigint, (");
    // The causal id.
    let mut causal = String::new();
    match &ctx.founding_id_column {
        Some(f) => {
            causal.append("COALESCE(s.");
            let fid = qi(f.as_str());
            causal.append(fid.as_str());
            causal.append("::text, s.");
            causal.append(row_id.as_str());
            causal.append("::text)");
        },
        None => {
            causal.append("s.");
            causal.append(row_id.as_str());
            causal.append("::text");
        },
    }
    proof {
        assert(causal@ =~= causal_expr(ctx.row_id_column@, ctx.founding_id_column.deep_view()));
    }
    out.append(causal.as_str());
    out.append("), (");
    // The start of the interval.
    let mut from = String::new();
    if has_range {
        from.append("COALESCE(lower(s.");
        let range = qi(ctx.era.range_col.as_str());
        from.append(range.as_str());
        from.append("), ");
        if has_from {
            let mut own = String::from_str("s.");
            let col = qi(ctx.era.valid_from_col.as_str());
            own.append(col.as_str());
            from.append(own.as_str());
        } else {
            from.append("NULL");
        }
        from.append(")");
    } else {
        from.append("s.");
        let col = qi(ctx.era.valid_from_col.as_str());
        from.append(col.as_str());
    }
    proof {
        assert(from@ =~= from_expr(source_offers(source_cols.deep_view(), era_names(ctx)), era_names(ctx)));
    }
    out.append(from.as_str());
    out.append(")::text, (");
    let until = build_until_expr("s", has_range, has_until, has_to, ctx, unit);
    out.append(until.as_str());
    out.append(")::text");
    let cols = build_column_list(col_layout, "s");
    out.append(cols.as_str());
    out.append(" FROM ");
    out.append("__SOURCE_IDENT__");
    out.append(" AS s");
    Ok(out)
}

/// Whether the whole target is read: a patch or a replacement of entities
/// that deletes the entities that the source does not mention.
pub open spec fn reads_whole_target(mode: MergeMode, delete_mode: DeleteMode) -> bool {
    (mode is MergeEntityPatch || mode is MergeEntityReplace) && delete_mode.spec_deletes_entities()
}

/// Whether the whole target is read.
pub fn needs_full_scan(ctx: &PlannerContext) -> (r: bool)
    ensures
        r == reads_whole_target(ctx.mode, ctx.delete_mode),
{
    matches!(ctx.mode, MergeMode::MergeEntityPatch | MergeMode::MergeEntityReplace)
        && ctx.delete_mode.deletes_entities()
}

/// The names of `s` that are among `within`.
pub open spec fn names_within(s: Seq<Seq<char>>, within: Seq<Seq<char>>) -> Seq<Seq<char>>
    decreases s.len(),
{
    if s.len() == 0 {
        s
    } else if within.contains(s.last()) {
        names_within(s.drop_last(), within).push(s.last())
    } else {
        names_within(s.drop_last(), within)
    }
}

/// Copies the names that are among `within`.
pub fn keep_names(names: &Vec<String>, within: &Vec<String>) -> (out: Vec<String>)
    ensures
        out.deep_view() == names_within(names.deep_view(), within.deep_view()),
{
    let ghost nm = names.deep_view();
    let mut out: Vec<String> = Vec::new();
    let mut i: usize = 0;
    proof {
        lemma_deep_empty(out);
    }
    while i < names.len()
        invariant
            i <= names.len(),
            nm == names.deep_view(),
            out.deep_view() == names_within(nm.take(i as int), within.deep_view()),
        decreases names.len() - i,
    {
        proof {
            lemma_take_step(nm, i as int);
            assert(nm[i as int] == names@[i as int]@);
        }
        if has_name(within, names[i].as_str()) {
            let ghost before_vec = out;
            let copy = names[i].clone();
            out.push(copy);
            proof {
                lemma_deep_push(before_vec, out, copy);
            }
        }
        i += 1;
    }
    proof {
        lemma_take_all(nm);
    }
    out
}

/// The columns `cols`, each of the relation `alias`, with `tail` behind
/// each, joined with `sep`.
pub open spec fn qualified(cols: Seq<Seq<char>>, alias: Seq<char>, tail: Seq<char>, sep: Seq<char>) -> Seq<
    char,
> {
    join_spec(cols.map_values(|c: Seq<char>| alias + "."@ + quoted_identifier(c) + tail), sep)
}

fn build_qualified(cols: &Vec<String>, alias: &str, tail: &str, sep: &str) -> (out: String)
    ensures
        out@ == qualified(cols.deep_view(), alias@, tail@, sep@),
{
    let ghost cm = cols.deep_view();
    let mut parts: Vec<String> = Vec::new();
    let mut i: usize = 0;
    while i < cols.len()
        invariant
            i <= cols.len(),
            cm == cols.deep_view(),
            parts.len() == i,
            forall|j: int|
                0 <= j < i ==> (#[trigger] parts[j])@ == alias@ + "."@ + quoted_identifier(cm[j])
                    + tail@,
        decreases cols.len() - i,
    {
        let mut p = String::from_str(alias);
        p.append(".");
        let col = qi(cols[i].as_str());
        p.append(col.as_str());
        p.append(tail);
        parts.push(p);
        i += 1;
    }
    assert(parts.deep_view() =~= cm.map_values(
        |c: Seq<char>| alias@ + "."@ + quoted_identifier(c) + tail@,
    ));
    join(&parts, sep)
}

/// The condition that the key columns `cols` of a target row are those of
/// a source row of which one of them is not NULL.
pub open spec fn key_condition(cols: Seq<Seq<char>>, source: Seq<char>) -> Seq<char> {
    "("@ + qualified(cols, "t"@, Seq::empty(), ", "@) + ") IN (SELECT DISTINCT "@ + qualified(
        cols,
        "s"@,
        Seq::empty(),
        ", "@,
    ) + " FROM "@ + source + " AS s WHERE "@ + qualified(cols, "s"@, " IS NOT NULL"@, " OR "@)
        + ")"@
}

/// Whether the source has all of the columns.
pub open spec fn has_all(cols: Seq<Seq<char>>, source_cols: Seq<Seq<char>>) -> bool {
    forall|i: int| 0 <= i < cols.len() ==> source_cols.contains(#[trigger] cols[i])
}

/// The conditions by which the target is cut down to the entities of the
/// source: one for the lookup columns, one for the identity columns that
/// the source has, each only if the source has all of its columns.
pub open spec fn key_conditions(
    lookup_cols: Seq<Seq<char>>,
    identity_cols: Seq<Seq<char>>,
    source_cols: Seq<Seq<char>>,
    source: Seq<char>,
) -> Seq<Seq<char>> {
    let by_lookup = if lookup_cols.len() > 0 && has_all(lookup_cols, source_cols) {
        seq![key_condition(lookup_cols, source)]
    } else {
        Seq::empty()
    };
    let ids = names_within(identity_cols, source_cols);
    if ids.len() > 0 && !(lookup_cols.len() > 0 && lookup_cols == ids) {
        by_lookup.push(key_condition(ids, source))
    } else {
        by_lookup
    }
}

/// The WHERE clause by which the target is cut down to the entities of the
/// source, empty where the whole target is read.
pub open spec fn target_filter(
    mode: MergeMode,
    delete_mode: DeleteMode,
    lookup_cols: Seq<Seq<char>>,
    identity_cols: Seq<Seq<char>>,
    source_cols: Seq<Seq<char>>,
    source: Seq<char>,
) -> Seq<char> {
    let parts = key_conditions(lookup_cols, identity_cols, source_cols, source);
    if reads_whole_target(mode, delete_mode) || parts.len() == 0 {
        Seq::empty()
    } else {
        " WHERE "@ + join_spec(parts, " OR "@)
    }
}

fn build_key_condition(cols: &Vec<String>, source_ident: &str) -> (out: String)
    ensures
        out@ == key_condition(cols.deep_view(), source_ident@),
{
    let mut out = String::from_str("(");
    let t_cols = build_qualified(cols, "t", "", ", ");
    out.append(t_cols.as_str());
    out.append(") IN (SELECT DISTINCT ");
    let s_cols = build_qualified(cols, "s", "", ", ");
    out.append(s_cols.as_str());
    out.append(" FROM ");
    out.append(source_ident);
    out.append(" AS s WHERE ");
    let not_null = build_qualified(cols, "s", " IS NOT NULL", " OR ");
    out.append(not_null.as_str());
    out.append(")");
    proof {
        crate::string_facts::lemma_empty_literal();
    }
    out
}

fn all_within(cols: &Vec<String>, source_cols: &Vec<String>) -> (r: bool)
    ensures
        r == has_all(cols.deep_view(), source_cols.deep_view()),
{
    let mut i: usize = 0;
    while i < cols.len()
        invariant
            i <= cols.len(),
            forall|j: int|
                0 <= j < i ==> source_cols.deep_view().contains(#[trigger] cols.deep_view()[j]),
        decreases cols.len() - i,
    {
        if !has_name(source_cols, cols[i].as_str()) {
            assert(!source_cols.deep_view().contains(cols.deep_view()[i as int]));
            return false;
        }
        i += 1;
    }
    true
}

/// Writes the WHERE clause by which the target is cut down to the entities
/// of the source relation `source_ident`.
pub fn build_target_filter(source_ident: &str, source_cols: &Vec<String>, ctx: &PlannerContext) -> (out: String)
    ensures
        out@ == target_filter(
            ctx.mode,
            ctx.delete_mode,
            ctx.all_lookup_cols.deep_view(),
            ctx.identity_columns.deep_view(),
            source_cols.deep_view(),
            source_ident@,
        ),
{
    if needs_full_scan(ctx) {
        return String::new();
    }
    let mut parts: Vec<String> = Vec::new();
    proof {
        lemma_deep_empty(parts);
    }
    let has_lookup = ctx.all_lookup_cols.len() > 0;
    if has_lookup && all_within(&ctx.all_lookup_cols, source_cols) {
        let ghost before_vec = parts;
        let p = build_key_condition(&ctx.all_lookup_cols, source_ident);
        parts.push(p);
        proof {
            lemma_deep_push(before_vec, parts, p);
            assert(parts.deep_view() =~= seq![
                key_condition(ctx.all_lookup_cols.deep_view(), source_ident@),
            ]);
        }
    }
    let ids = keep_names(&ctx.identity_columns, source_cols);
    if ids.len() > 0 && !(has_lookup && same_names(&ctx.all_lookup_cols, &ids)) {
        let ghost before_vec = parts;
        let p = build_key_condition(&ids, source_ident);
        parts.push(p);
        proof {
            lemma_deep_push(before_vec, parts, p);
        }
    }
    if parts.len() == 0 {
        return String::new();
    }
    let mut out = String::from_str(" WHERE ");
    let body = join(&parts, " OR ");
    out.append(body.as_str());
    out
}

} // verus!
