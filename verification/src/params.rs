use crate::config::{copy_names, same_names};
use crate::date::{decimal, decimal_chars};
use crate::filter::FilterParamModel;
use crate::layout::{
    build_column_layout, find_type, layout_of, layout_rules, type_of, ColMappingModel,
};
use crate::quoting::{qi, quoted_identifier};
use crate::sql::{
    build_column_list, build_source_sql_template, build_target_filter, column_list, era_names,
    keep_names, names_within, needs_full_scan, reads_whole_target, source_fault, source_mark,
    source_template, target_filter,
};
use crate::text::{join, join_spec, text_of_chars};
use crate::types::{ColMapping, FilterParam, PlannerContext};
use crate::validate::ConfigError;
use crate::views::{lemma_deep_empty, lemma_deep_push, lemma_take_all, lemma_take_step};
use vstd::prelude::*;

verus! {

/// A key set by which the target is filtered: its columns, and whether
/// they are identity columns.
pub type KeySetModel = (Seq<Seq<char>>, bool);

/// Whether one of the key sets has the columns `cols`.
pub open spec fn has_key_set(sets: Seq<KeySetModel>, cols: Seq<Seq<char>>) -> bool {
    exists|i: int| 0 <= i < sets.len() && (#[trigger] sets[i]).0 == cols
}

/// The lookup key sets that are not empty, each once.
pub open spec fn lookup_filter_sets(key_sets: Seq<Seq<Seq<char>>>) -> Seq<KeySetModel>
    decreases key_sets.len(),
{
    if key_sets.len() == 0 {
        Seq::empty()
    } else {
        let rest = lookup_filter_sets(key_sets.drop_last());
        if key_sets.last().len() > 0 && !has_key_set(rest, key_sets.last()) {
            rest.push((key_sets.last(), false))
        } else {
            rest
        }
    }
}

/// The key sets by which the target is filtered: the lookup key sets, and
/// the identity columns that the source has.
pub open spec fn filter_sets(
    key_sets: Seq<Seq<Seq<char>>>,
    identity_cols: Seq<Seq<char>>,
    source_cols: Seq<Seq<char>>,
) -> Seq<KeySetModel> {
    let by_lookup = lookup_filter_sets(key_sets);
    let ids = names_within(identity_cols, source_cols);
    if ids.len() > 0 && !has_key_set(by_lookup, ids) {
        by_lookup.push((ids, true))
    } else {
        by_lookup
    }
}

/// Whether the type of each of the columns is known.
pub open spec fn types_known(cols: Seq<Seq<char>>, types: Seq<(Seq<char>, Seq<char>)>) -> bool {
    forall|i: int| 0 <= i < cols.len() ==> type_of(types, #[trigger] cols[i]) is Some
}

/// Whether the type of each column of each key set is known.
pub open spec fn all_types_known(sets: Seq<KeySetModel>, types: Seq<(Seq<char>, Seq<char>)>) -> bool {
    forall|i: int| 0 <= i < sets.len() ==> types_known((#[trigger] sets[i]).0, types)
}

/// The parameter `$index` as an array of the type `typ`, unnested.
pub open spec fn unnest_call(index: int, typ: Seq<char>) -> Seq<char> {
    "unnest($"@ + decimal(index as nat) + "::text::"@ + typ + "[])"@
}

/// The condition for a key set of one column.
pub open spec fn single_condition(col: Seq<char>, typ: Seq<char>, index: int) -> Seq<char> {
    "EXISTS (SELECT 1 FROM "@ + unnest_call(index, typ) + " AS _u(v) WHERE t."@ + quoted_identifier(col)
        + " IS NOT DISTINCT FROM _u.v)"@
}

/// The name under which column `j` of a key set is unnested.
pub open spec fn unnest_alias(j: int) -> Seq<char> {
    "_c"@ + decimal(j as nat)
}

/// The condition for a key set of several columns, whose parameters start
/// at `first`.
pub open spec fn multi_condition(cols: Seq<Seq<char>>, types: Seq<(Seq<char>, Seq<char>)>, first: int) -> Seq<
    char,
> {
    "EXISTS (SELECT 1 FROM ROWS FROM("@ + join_spec(
        Seq::new(cols.len(), |j: int| unnest_call(first + j, type_of(types, cols[j])->0)),
        ", "@,
    ) + ") AS _u("@ + join_spec(Seq::new(cols.len(), |j: int| unnest_alias(j)), ", "@) + ") WHERE "@
        + join_spec(
        Seq::new(
            cols.len(),
            |j: int| "t."@ + quoted_identifier(cols[j]) + " IS NOT DISTINCT FROM _u."@ + unnest_alias(j),
        ),
        " AND "@,
    ) + ")"@
}

/// The condition for a key set whose parameters start at `first`.
pub open spec fn set_condition(cols: Seq<Seq<char>>, types: Seq<(Seq<char>, Seq<char>)>, first: int) -> Seq<
    char,
> {
    if cols.len() == 1 {
        single_condition(cols[0], type_of(types, cols[0])->0, first)
    } else {
        multi_condition(cols, types, first)
    }
}

/// The parameters of a key set, which start at `first`.
pub open spec fn set_params(
    set: KeySetModel,
    types: Seq<(Seq<char>, Seq<char>)>,
    key_set_id: int,
    first: int,
) -> Seq<FilterParamModel> {
    Seq::new(
        set.0.len(),
        |j: int|
            FilterParamModel {
                col_name: set.0[j],
                pg_type: type_of(types, set.0[j])->0,
                param_index: (first + j) as usize,
                is_identity: set.1,
                key_set_id: key_set_id as usize,
            },
    )
}

/// The number of the first parameter of the key set at place `k`.
pub open spec fn first_param(sets: Seq<KeySetModel>, k: int) -> int
    decreases k,
{
    if k <= 0 {
        1
    } else {
        first_param(sets, k - 1) + sets[k - 1].0.len()
    }
}

/// The conditions of the first `upto` key sets.
pub open spec fn set_conditions(sets: Seq<KeySetModel>, types: Seq<(Seq<char>, Seq<char>)>, upto: int) -> Seq<
    Seq<char>,
>
    decreases upto,
{
    if upto <= 0 {
        Seq::empty()
    } else {
        set_conditions(sets, types, upto - 1).push(
            set_condition(sets[upto - 1].0, types, first_param(sets, upto - 1)),
        )
    }
}

/// The parameters of the first `upto` key sets.
pub open spec fn all_params(sets: Seq<KeySetModel>, types: Seq<(Seq<char>, Seq<char>)>, upto: int) -> Seq<
    FilterParamModel,
>
    decreases upto,
{
    if upto <= 0 {
        Seq::empty()
    } else {
        all_params(sets, types, upto - 1) + set_params(
            sets[upto - 1],
            types,
            upto - 1,
            first_param(sets, upto - 1),
        )
    }
}

/// The WHERE clause with parameters by which the target is cut down to the
/// entities of the source, and its parameters: nothing where the type of a
/// key column is not known, or where there are more parameters than can be
/// numbered; an empty clause where the whole target is read or there is no
/// key set.
pub open spec fn parameterized_filter(
    types: Seq<(Seq<char>, Seq<char>)>,
    sets: Seq<KeySetModel>,
    whole: bool,
) -> Option<(Seq<char>, Seq<FilterParamModel>)> {
    if whole || sets.len() == 0 {
        Some((Seq::empty(), Seq::empty()))
    } else if !all_types_known(sets, types) || first_param(sets, sets.len() as int) > usize::MAX {
        None
    } else {
        Some(
            (
                " WHERE "@ + join_spec(set_conditions(sets, types, sets.len() as int), " OR "@),
                all_params(sets, types, sets.len() as int),
            ),
        )
    }
}

/// The numbers of the parameters rise from key set to key set.
proof fn lemma_first_param_rises(sets: Seq<KeySetModel>, a: int, b: int)
    requires
        0 <= a <= b,
    ensures
        1 <= first_param(sets, a) <= first_param(sets, b),
    decreases b,
{
    if a < b {
        lemma_first_param_rises(sets, a, b - 1);
    } else if a > 0 {
        lemma_first_param_rises(sets, a - 1, a - 1);
        lemma_first_param_rises(sets, 0, a - 1);
    }
}

fn number_text(n: usize) -> (out: String)
    ensures
        out@ == decimal(n as nat),
{
    let digits = decimal_chars(n as u64);
    text_of_chars(&digits)
}

fn build_unnest_call(index: usize, typ: &str) -> (out: String)
    ensures
        out@ == unnest_call(index as int, typ@),
{
    let mut out = String::from_str("unnest($");
    let n = number_text(index);
    out.append(n.as_str());
    out.append("::text::");
    out.append(typ);
    out.append("[])");
    out
}

fn build_alias(j: usize) -> (out: String)
    ensures
        out@ == unnest_alias(j as int),
{
    let mut out = String::from_str("_c");
    let n = number_text(j);
    out.append(n.as_str());
    out
}

fn holds_key_set(sets: &Vec<(Vec<String>, bool)>, cols: &Vec<String>) -> (r: bool)
    ensures
        r == has_key_set(sets.deep_view(), cols.deep_view()),
{
    let ghost sm = sets.deep_view();
    let mut i: usize = 0;
    while i < sets.len()
        invariant
            i <= sets.len(),
            sm == sets.deep_view(),
            forall|j: int| 0 <= j < i ==> (#[trigger] sm[j]).0 != cols.deep_view(),
        decreases sets.len() - i,
    {
        assert(sm[i as int] == sets@[i as int].deep_view());
        if same_names(&sets[i].0, cols) {
            return true;
        }
        i += 1;
    }
    false
}

/// The key sets by which the target is filtered.
pub fn build_filter_sets(source_cols: &Vec<String>, ctx: &PlannerContext) -> (sets: Vec<(Vec<String>, bool)>)
    ensures
        sets.deep_view() == filter_sets(
            ctx.lookup_key_sets.deep_view(),
            ctx.identity_columns.deep_view(),
            source_cols.deep_view(),
        ),
{
    let ghost km = ctx.lookup_key_sets.deep_view();
    let mut sets: Vec<(Vec<String>, bool)> = Vec::new();
    let mut i: usize = 0;
    proof {
        lemma_deep_empty(sets);
    }
    while i < ctx.lookup_key_sets.len()
        invariant
            i <= ctx.lookup_key_sets.len(),
            km == ctx.lookup_key_sets.deep_view(),
            sets.deep_view() == lookup_filter_sets(km.take(i as int)),
        decreases ctx.lookup_key_sets.len() - i,
    {
        proof {
            lemma_take_step(km, i as int);
            assert(km[i as int] == ctx.lookup_key_sets@[i as int].deep_view());
        }
        let key_set = &ctx.lookup_key_sets[i];
        if key_set.len() > 0 && !holds_key_set(&sets, key_set) {
            let ghost before_vec = sets;
            let entry = (copy_names(key_set), false);
            sets.push(entry);
            proof {
                lemma_deep_push(before_vec, sets, entry);
            }
        }
        i += 1;
    }
    proof {
        lemma_take_all(km);
    }
    let ids = keep_names(&ctx.identity_columns, source_cols);
    if ids.len() > 0 && !holds_key_set(&sets, &ids) {
        let ghost before_vec = sets;
        let entry = (ids, true);
        sets.push(entry);
        proof {
            lemma_deep_push(before_vec, sets, entry);
        }
    }
    sets
}

fn known_types(cols: &Vec<String>, types: &Vec<(String, String)>) -> (r: bool)
    ensures
        r == types_known(cols.deep_view(), types.deep_view()),
{
    let mut i: usize = 0;
    while i < cols.len()
        invariant
            i <= cols.len(),
            forall|j: int|
                0 <= j < i ==> type_of(types.deep_view(), #[trigger] cols.deep_view()[j]) is Some,
        decreases cols.len() - i,
    {
        if find_type(types, cols[i].as_str()).is_none() {
            assert(type_of(types.deep_view(), cols.deep_view()[i as int]) is None);
            return false;
        }
        i += 1;
    }
    true
}

/// Writes the WHERE clause with parameters by which the target is cut down
/// to the entities of the source.
pub fn try_build_parameterized_filter(
    target_col_types: &Vec<(String, String)>,
    source_cols: &Vec<String>,
    ctx: &PlannerContext,
) -> (r: Option<(String, Vec<FilterParam>)>)
    ensures
        match parameterized_filter(
            target_col_types.deep_view(),
            filter_sets(
                ctx.lookup_key_sets.deep_view(),
                ctx.identity_columns.deep_view(),
                source_cols.deep_view(),
            ),
            reads_whole_target(ctx.mode, ctx.delete_mode),
        ) {
            Some(f) => r matches Some(got) && got.0@ == f.0 && got.1.deep_view() == f.1,
            None => r is None,
        },
{
    let ghost tm = target_col_types.deep_view();
    if needs_full_scan(ctx) {
        let none: Vec<FilterParam> = Vec::new();
        proof {
            lemma_deep_empty(none);
        }
        return Some((String::new(), none));
    }
    let sets = build_filter_sets(source_cols, ctx);
    let ghost sm = sets.deep_view();
    if sets.len() == 0 {
        let none: Vec<FilterParam> = Vec::new();
        proof {
            lemma_deep_empty(none);
        }
        return Some((String::new(), none));
    }
    let mut k: usize = 0;
    while k < sets.len()
        invariant
            k <= sets.len(),
            sm == sets.deep_view(),
            sm == filter_sets(
                ctx.lookup_key_sets.deep_view(),
                ctx.identity_columns.deep_view(),
                source_cols.deep_view(),
            ),
            sm.len() > 0,
            !reads_whole_target(ctx.mode, ctx.delete_mode),
            tm == target_col_types.deep_view(),
            forall|j: int| 0 <= j < k ==> types_known((#[trigger] sm[j]).0, tm),
        decreases sets.len() - k,
    {
        assert(sm[k as int] == sets@[k as int].deep_view());
        if !known_types(&sets[k].0, target_col_types) {
            assert(!types_known(sm[k as int].0, tm));
            return None;
        }
        k += 1;
    }
    // The parameters must be few enough to be numbered.
    let mut next: usize = 1;
    let mut c: usize = 0;
    while c < sets.len()
        invariant
            c <= sets.len(),
            sm == sets.deep_view(),
            sm == filter_sets(
                ctx.lookup_key_sets.deep_view(),
                ctx.identity_columns.deep_view(),
                source_cols.deep_view(),
            ),
            sm.len() > 0,
            !reads_whole_target(ctx.mode, ctx.delete_mode),
            tm == target_col_types.deep_view(),
            next == first_param(sm, c as int),
        decreases sets.len() - c,
    {
        assert(sm[c as int] == sets@[c as int].deep_view());
        let width = sets[c].0.len();
        if width > usize::MAX - next {
            proof {
                lemma_first_param_rises(sm, c as int + 1, sm.len() as int);
            }
            return None;
        }
        next += width;
        c += 1;
    }
    let mut params: Vec<FilterParam> = Vec::new();
    let mut parts: Vec<String> = Vec::new();
    let mut param_index: usize = 1;
    let mut s: usize = 0;
    proof {
        lemma_deep_empty(params);
        lemma_deep_empty(parts);
    }
    while s < sets.len()
        invariant
            s <= sets.len(),
            sm == sets.deep_view(),
            tm == target_col_types.deep_view(),
            all_types_known(sm, tm),
            first_param(sm, sm.len() as int) <= usize::MAX,
            param_index == first_param(sm, s as int),
            parts.deep_view() == set_conditions(sm, tm, s as int),
            params.deep_view() == all_params(sm, tm, s as int),
        decreases sets.len() - s,
    {
        assert(sm[s as int] == sets@[s as int].deep_view());
        let cols = &sets[s].0;
        let ghost cm = cols.deep_view();
        let is_identity = sets[s].1;
        let ghost first = param_index as int;
        assert(types_known(cm, tm));
        proof {
            lemma_first_param_rises(sm, s as int + 1, sm.len() as int);
        }
        // The parameters of this key set.
        let ghost params0 = params.deep_view();
        let mut j: usize = 0;
        let mut calls: Vec<String> = Vec::new();
        let mut aliases: Vec<String> = Vec::new();
        let mut conditions: Vec<String> = Vec::new();
        assert(params.deep_view() =~= params0 + set_params(sm[s as int], tm, s as int, first).take(0));
        while j < cols.len()
            invariant
                j <= cols.len(),
                cm == cols.deep_view(),
                tm == target_col_types.deep_view(),
                types_known(cm, tm),
                sm[s as int].0 == cm,
                sm[s as int].1 == is_identity,
                s < sets.len(),
                first + cm.len() <= usize::MAX,
                param_index == first + j,
                calls.len() == j,
                aliases.len() == j,
                conditions.len() == j,
                forall|x: int|
                    0 <= x < j ==> (#[trigger] calls[x])@ == unnest_call(
                        first + x,
                        type_of(tm, cm[x])->0,
                    ),
                forall|x: int| 0 <= x < j ==> (#[trigger] aliases[x])@ == unnest_alias(x),
                forall|x: int|
                    0 <= x < j ==> (#[trigger] conditions[x])@ == "t."@ + quoted_identifier(cm[x])
                        + " IS NOT DISTINCT FROM _u."@ + unnest_alias(x),
                params.deep_view() == params0 + set_params(sm[s as int], tm, s as int, first).take(
                    j as int,
                ),
            decreases cols.len() - j,
        {
            assert(cm[j as int] == cols@[j as int]@);
            assert(type_of(tm, cm[j as int]) is Some);
            let typ = match find_type(target_col_types, cols[j].as_str()) {
                Some(t) => t.clone(),
                None => String::new(),
            };
            let ghost before_vec = params;
            let p = FilterParam {
                col_name: cols[j].clone(),
                pg_type: typ.clone(),
                param_index,
                is_identity,
                key_set_id: s,
            };
            params.push(p);
            proof {
                lemma_deep_push(before_vec, params, p);
                let all = set_params(sm[s as int], tm, s as int, first);
                assert(all.take(j + 1) =~= all.take(j as int).push(all[j as int]));
                assert(params.deep_view() =~= params0 + all.take(j + 1));
            }
            calls.push(build_unnest_call(param_index, typ.as_str()));
            let alias = build_alias(j);
            let mut condition = String::from_str("t.");
            let col = qi(cols[j].as_str());
            condition.append(col.as_str());
            condition.append(" IS NOT DISTINCT FROM _u.");
            condition.append(alias.as_str());
            conditions.push(condition);
            aliases.push(alias);
            param_index += 1;
            j += 1;
        }
        proof {
            let all = set_params(sm[s as int], tm, s as int, first);
            assert(all.take(cols.len() as int) =~= all);
        }
        let part = if cols.len() == 1 {
            assert(cm[0] == cols@[0]@);
            let mut part = String::from_str("EXISTS (SELECT 1 FROM ");
            part.append(calls[0].as_str());
            part.append(" AS _u(v) WHERE t.");
            let col = qi(cols[0].as_str());
            part.append(col.as_str());
            part.append(" IS NOT DISTINCT FROM _u.v)");
            part
        } else {
            proof {
                assert(calls.deep_view() =~= Seq::new(
                    cm.len(),
                    |x: int| unnest_call(first + x, type_of(tm, cm[x])->0),
                ));
                assert(aliases.deep_view() =~= Seq::new(cm.len(), |x: int| unnest_alias(x)));
                assert(conditions.deep_view() =~= Seq::new(
                    cm.len(),
                    |x: int|
                        "t."@ + quoted_identifier(cm[x]) + " IS NOT DISTINCT FROM _u."@ + unnest_alias(
                            x,
                        ),
                ));
            }
            let mut part = String::from_str("EXISTS (SELECT 1 FROM ROWS FROM(");
            let fns = join(&calls, ", ");
            part.append(fns.as_str());
            part.append(") AS _u(");
            let names = join(&aliases, ", ");
            part.append(names.as_str());
            part.append(") WHERE ");
            let conds = join(&conditions, " AND ");
            part.append(conds.as_str());
            part.append(")");
            part
        };
        let ghost before_parts = parts;
        parts.push(part);
        proof {
            lemma_deep_push(before_parts, parts, part);
        }
        s += 1;
    }
    let mut clause = String::from_str(" WHERE ");
    let body = join(&parts, " OR ");
    clause.append(body.as_str());
    Some((clause, params))
}

/// The statement that reads the target, up to its WHERE clause.
pub open spec fn target_select(target: Seq<char>, range_col: Seq<char>, layout: Seq<ColMappingModel>) -> Seq<
    char,
> {
    "SELECT lower(t."@ + quoted_identifier(range_col) + ")::text, upper(t."@ + quoted_identifier(
        range_col,
    ) + ")::text"@ + column_list(layout, "t"@) + " FROM "@ + target + " AS t"@
}

fn build_target_select(target_ident: &str, col_layout: &Vec<ColMapping>, ctx: &PlannerContext) -> (out: String)
    ensures
        out@ == target_select(target_ident@, ctx.era.range_col@, col_layout.deep_view()),
{
    let range = qi(ctx.era.range_col.as_str());
    let mut out = String::from_str("SELECT lower(t.");
    out.append(range.as_str());
    out.append(")::text, upper(t.");
    out.append(range.as_str());
    out.append(")::text");
    let cols = build_column_list(col_layout, "t");
    out.append(cols.as_str());
    out.append(" FROM ");
    out.append(target_ident);
    out.append(" AS t");
    out
}

/// Writes the statement that reads the target: with parameters where the
/// filter can be written with them, else with a mark in place of the source
/// relation.
pub fn build_target_sql_template(
    target_ident: &str,
    source_cols: &Vec<String>,
    target_col_types: &Vec<(String, String)>,
    col_layout: &Vec<ColMapping>,
    ctx: &PlannerContext,
) -> (r: (String, Option<Vec<FilterParam>>))
    ensures
        match parameterized_filter(
            target_col_types.deep_view(),
            filter_sets(
                ctx.lookup_key_sets.deep_view(),
                ctx.identity_columns.deep_view(),
                source_cols.deep_view(),
            ),
            reads_whole_target(ctx.mode, ctx.delete_mode),
        ) {
            Some(f) => r.0@ == target_select(target_ident@, ctx.era.range_col@, col_layout.deep_view())
                + f.0 && r.1.deep_view() == Some(f.1),
            None => r.0@ == target_select(target_ident@, ctx.era.range_col@, col_layout.deep_view())
                + target_filter(
                ctx.mode,
                ctx.delete_mode,
                ctx.all_lookup_cols.deep_view(),
                ctx.identity_columns.deep_view(),
                source_cols.deep_view(),
                source_mark(),
            ) && r.1 is None,
        },
{
    let mut sql = build_target_select(target_ident, col_layout, ctx);
    match try_build_parameterized_filter(target_col_types, source_cols, ctx) {
        Some(found) => {
            sql.append(found.0.as_str());
            (sql, Some(found.1))
        },
        None => {
            let filter = build_target_filter("__SOURCE_IDENT__", source_cols, ctx);
            sql.append(filter.as_str());
            (sql, None)
        },
    }
}

/// The statements by which source and target are read, and the layouts of
/// what they give.
#[derive(Debug)]
pub struct SqlTemplates {
    pub source_sql_template: String,
    pub target_sql_template: String,
    pub target_ident: String,
    pub source_col_layout: Vec<ColMapping>,
    pub target_col_layout: Vec<ColMapping>,
    /// The parameters of the statement for the target; none where the
    /// statement has a mark in place of the source relation.
    pub target_filter_params: Option<Vec<FilterParam>>,
}

/// Works out how source and target are read.
pub fn build_sql_templates_from_cols(
    source_cols: &Vec<String>,
    target_cols: &Vec<String>,
    target_col_types: &Vec<(String, String)>,
    source_col_types: &Vec<(String, String)>,
    target_ident: &str,
    ctx: &PlannerContext,
    source_table_name: &str,
) -> (r: Result<SqlTemplates, ConfigError>)
    ensures
        match r {
            Ok(t) => {
                &&& source_fault(source_cols.deep_view(), era_names(ctx), source_table_name@) is None
                &&& t.target_ident@ == target_ident@
                &&& t.source_col_layout.deep_view() == layout_of(
                    source_cols.deep_view(),
                    source_col_types.deep_view(),
                    layout_rules(ctx),
                    true,
                    Some(target_cols.deep_view()),
                )
                &&& t.target_col_layout.deep_view() == layout_of(
                    target_cols.deep_view(),
                    target_col_types.deep_view(),
                    layout_rules(ctx),
                    false,
                    None,
                )
                &&& t.source_sql_template@ == source_template(
                    source_cols.deep_view(),
                    t.source_col_layout.deep_view(),
                    era_names(ctx),
                    ctx.row_id_column@,
                    ctx.founding_id_column.deep_view(),
                )
                &&& match parameterized_filter(
                    target_col_types.deep_view(),
                    filter_sets(
                        ctx.lookup_key_sets.deep_view(),
                        ctx.identity_columns.deep_view(),
                        source_cols.deep_view(),
                    ),
                    reads_whole_target(ctx.mode, ctx.delete_mode),
                ) {
                    Some(f) => t.target_sql_template@ == target_select(
                        target_ident@,
                        ctx.era.range_col@,
                        t.target_col_layout.deep_view(),
                    ) + f.0 && t.target_filter_params.deep_view() == Some(f.1),
                    None => t.target_sql_template@ == target_select(
                        target_ident@,
                        ctx.era.range_col@,
                        t.target_col_layout.deep_view(),
                    ) + target_filter(
                        ctx.mode,
                        ctx.delete_mode,
                        ctx.all_lookup_cols.deep_view(),
                        ctx.identity_columns.deep_view(),
                        source_cols.deep_view(),
                        source_mark(),
                    ) && t.target_filter_params is None,
                }
            },
            Err(e) => Some(e.deep_view()) == source_fault(
                source_cols.deep_view(),
                era_names(ctx),
                source_table_name@,
            ),
        },
{
    let source_col_layout = build_column_layout(
        source_cols,
        source_col_types,
        ctx,
        true,
        Some(target_cols),
    );
    let source_sql_template = match build_source_sql_template(
        source_cols,
        &source_col_layout,
        ctx,
        source_table_name,
    ) {
        Ok(sql) => sql,
        Err(e) => {
            return Err(e);
        },
    };
    let target_col_layout = build_column_layout(target_cols, target_col_types, ctx, false, None);
    let target = build_target_sql_template(
        target_ident,
        source_cols,
        target_col_types,
        &target_col_layout,
        ctx,
    );
    Ok(
        SqlTemplates {
            source_sql_template,
            target_sql_template: target.0,
            target_ident: String::from_str(target_ident),
            source_col_layout,
            target_col_layout,
            target_filter_params: target.1,
        },
    )
}

} // verus!
