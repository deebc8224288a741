use crate::interval::Bound;
use crate::text::same_text;
use crate::types::{
    ColCategory, ColMapping, PlannerContext, SourceRow, SourceRowModel, TargetRow, TargetRowModel,
};
use crate::value::{has_name, lookup, put, Fields, FieldsModel, Value, ValueModel};
use crate::views::{lemma_deep_empty, lemma_deep_push, lemma_take_all, lemma_take_step};
use vstd::prelude::*;

verus! {

/// What a [`ColMapping`] is to the contracts.
pub struct ColMappingModel {
    pub col_name: Seq<char>,
    pub category: ColCategory,
    pub pg_type: Seq<char>,
}

impl DeepView for ColMapping {
    type V = ColMappingModel;

    open spec fn deep_view(&self) -> ColMappingModel {
        ColMappingModel { col_name: self.col_name@, category: self.category, pg_type: self.pg_type@ }
    }
}

/// What the layout of a read goes by.
pub struct LayoutRules {
    pub temporal: Seq<Seq<char>>,
    pub identity: Seq<Seq<char>>,
    pub lookup: Seq<Seq<char>>,
    pub ephemeral: Seq<Seq<char>>,
    pub segment_keys: Seq<Seq<char>>,
    pub pk: Seq<Seq<char>>,
    pub row_id: Seq<char>,
    pub founding_id: Option<Seq<char>>,
}

/// What the layout of a read goes by, of a context.
pub open spec fn layout_rules(ctx: &PlannerContext) -> LayoutRules {
    LayoutRules {
        temporal: ctx.temporal_cols.deep_view(),
        identity: ctx.identity_columns.deep_view(),
        lookup: ctx.all_lookup_cols.deep_view(),
        ephemeral: ctx.ephemeral_columns.deep_view(),
        segment_keys: ctx.original_entity_segment_key_cols.deep_view(),
        pk: ctx.pk_cols.deep_view(),
        row_id: ctx.row_id_column@,
        founding_id: ctx.founding_id_column.deep_view(),
    }
}

/// Whether a column belongs to the bookkeeping of a merge and is never read.
pub open spec fn is_bookkeeping(col: Seq<char>) -> bool {
    col == "era_id"@ || col == "era_name"@ || col == "merge_status"@ || col == "merge_statuses"@
        || col == "merge_errors"@
}

/// Whether a column is read at all: not a bound of the era, not a column
/// of bookkeeping, and of a source neither the row id nor the founding id.
pub open spec fn is_read(col: Seq<char>, rules: LayoutRules, is_source: bool) -> bool {
    !rules.temporal.contains(col) && !(is_source && col == rules.row_id) && !is_bookkeeping(col)
        && !(is_source && rules.founding_id == Some(col))
}

/// Whether a column is kept out of the data of a row.
pub open spec fn kept_from_data(col: Seq<char>, rules: LayoutRules, is_source: bool) -> bool {
    rules.segment_keys.contains(col) || rules.temporal.contains(col) || rules.ephemeral.contains(col)
        || (is_source && col == rules.row_id) || is_bookkeeping(col)
}

/// The role of a column in the rows that are read, if it is read: identity
/// before lookup before ephemeral before data before primary key. A data
/// column of a source is read only if the other table has it too.
pub open spec fn role_of(
    col: Seq<char>,
    rules: LayoutRules,
    is_source: bool,
    other_cols: Option<Seq<Seq<char>>>,
) -> Option<ColCategory> {
    if !is_read(col, rules, is_source) {
        None
    } else if rules.identity.contains(col) {
        Some(ColCategory::Identity)
    } else if rules.lookup.contains(col) {
        Some(ColCategory::Lookup)
    } else if rules.ephemeral.contains(col) {
        Some(ColCategory::Ephemeral)
    } else if !kept_from_data(col, rules, is_source) {
        if other_cols is Some && !other_cols->0.contains(col) {
            None
        } else {
            Some(ColCategory::Data)
        }
    } else if rules.pk.contains(col) {
        Some(ColCategory::StablePk)
    } else {
        None
    }
}

/// The type that a list of columns with their types gives for a column.
pub open spec fn type_of(types: Seq<(Seq<char>, Seq<char>)>, col: Seq<char>) -> Option<Seq<char>>
    decreases types.len(),
{
    if types.len() == 0 {
        None
    } else if types[0].0 == col {
        Some(types[0].1)
    } else {
        type_of(types.drop_first(), col)
    }
}

/// The type of a column as the layout records it: `text` where none is known.
pub open spec fn layout_type(types: Seq<(Seq<char>, Seq<char>)>, col: Seq<char>) -> Seq<char> {
    match type_of(types, col) {
        Some(t) => t,
        None => "text"@,
    }
}

/// The layout of a read of the columns `cols`: the columns that are read,
/// in order, each with its role and type.
pub open spec fn layout_of(
    cols: Seq<Seq<char>>,
    types: Seq<(Seq<char>, Seq<char>)>,
    rules: LayoutRules,
    is_source: bool,
    other_cols: Option<Seq<Seq<char>>>,
) -> Seq<ColMappingModel>
    decreases cols.len(),
{
    if cols.len() == 0 {
        Seq::empty()
    } else {
        let rest = layout_of(cols.drop_last(), types, rules, is_source, other_cols);
        match role_of(cols.last(), rules, is_source, other_cols) {
            Some(category) => rest.push(
                ColMappingModel {
                    col_name: cols.last(),
                    category,
                    pg_type: layout_type(types, cols.last()),
                },
            ),
            None => rest,
        }
    }
}

/// The type of a column in a list of columns with their types.
pub fn find_type<'a>(types: &'a Vec<(String, String)>, col: &str) -> (r: Option<&'a String>)
    ensures
        r.deep_view() == type_of(types.deep_view(), col@),
{
    let ghost tm = types.deep_view();
    let mut i: usize = 0;
    proof {
        lemma_take_all(tm);
    }
    while i < types.len()
        invariant
            i <= types.len(),
            tm == types.deep_view(),
            type_of(tm, col@) == type_of(tm.skip(i as int), col@),
        decreases types.len() - i,
    {
        proof {
            lemma_take_step(tm, i as int);
            assert(tm[i as int] == types@[i as int].deep_view());
        }
        if same_text(types[i].0.as_str(), col) {
            return Some(&types[i].1);
        }
        i += 1;
    }
    None
}

fn bookkeeping(col: &str) -> (r: bool)
    ensures
        r == is_bookkeeping(col@),
{
    same_text(col, "era_id") || same_text(col, "era_name") || same_text(col, "merge_status")
        || same_text(col, "merge_statuses") || same_text(col, "merge_errors")
}

fn role(col: &str, ctx: &PlannerContext, is_source: bool, other_table_cols: Option<&Vec<String>>) -> (r: Option<
    ColCategory,
>)
    ensures
        r == role_of(col@, layout_rules(ctx), is_source, other_table_cols.deep_view()),
{
    let is_row_id = is_source && same_text(col, ctx.row_id_column.as_str());
    let is_founding = is_source && match &ctx.founding_id_column {
        Some(f) => same_text(col, f.as_str()),
        None => false,
    };
    let temporal = has_name(&ctx.temporal_cols, col);
    let book = bookkeeping(col);
    if temporal || is_row_id || book || is_founding {
        return None;
    }
    if has_name(&ctx.identity_columns, col) {
        return Some(ColCategory::Identity);
    }
    if has_name(&ctx.all_lookup_cols, col) {
        return Some(ColCategory::Lookup);
    }
    if has_name(&ctx.ephemeral_columns, col) {
        return Some(ColCategory::Ephemeral);
    }
    if !has_name(&ctx.original_entity_segment_key_cols, col) {
        match other_table_cols {
            Some(others) => {
                if !has_name(others, col) {
                    return None;
                }
            },
            None => {},
        }
        return Some(ColCategory::Data);
    }
    if has_name(&ctx.pk_cols, col) {
        return Some(ColCategory::StablePk);
    }
    None
}

/// Works out which columns of a table are read, and as what.
pub fn build_column_layout(
    table_cols: &Vec<String>,
    col_types: &Vec<(String, String)>,
    ctx: &PlannerContext,
    is_source: bool,
    other_table_cols: Option<&Vec<String>>,
) -> (layout: Vec<ColMapping>)
    ensures
        layout.deep_view() == layout_of(
            table_cols.deep_view(),
            col_types.deep_view(),
            layout_rules(ctx),
            is_source,
            other_table_cols.deep_view(),
        ),
{
    let ghost cm = table_cols.deep_view();
    let ghost tm = col_types.deep_view();
    let ghost rules = layout_rules(ctx);
    let ghost om = other_table_cols.deep_view();
    let mut layout: Vec<ColMapping> = Vec::new();
    let mut i: usize = 0;
    proof {
        lemma_deep_empty(layout);
    }
    while i < table_cols.len()
        invariant
            i <= table_cols.len(),
            cm == table_cols.deep_view(),
            tm == col_types.deep_view(),
            rules == layout_rules(ctx),
            om == other_table_cols.deep_view(),
            layout.deep_view() == layout_of(cm.take(i as int), tm, rules, is_source, om),
        decreases table_cols.len() - i,
    {
        proof {
            lemma_take_step(cm, i as int);
            assert(cm[i as int] == table_cols@[i as int]@);
        }
        let col = &table_cols[i];
        match role(col.as_str(), ctx, is_source, other_table_cols) {
            Some(category) => {
                let pg_type = match find_type(col_types, col.as_str()) {
                    Some(t) => t.clone(),
                    None => String::from_str("text"),
                };
                let ghost before_vec = layout;
                let entry = ColMapping { col_name: col.clone(), category, pg_type };
                layout.push(entry);
                proof {
                    lemma_deep_push(before_vec, layout, entry);
                }
            },
            None => {},
        }
        i += 1;
    }
    proof {
        lemma_take_all(cm);
    }
    layout
}

/// The value of the column at place `i` of a read; NULL where the read has
/// no value for it.
pub open spec fn value_at(values: Seq<ValueModel>, i: int) -> ValueModel {
    if 0 <= i < values.len() {
        values[i]
    } else {
        ValueModel::Null
    }
}

/// The values of the columns of one role, by the names of the columns.
pub open spec fn collected(
    layout: Seq<ColMappingModel>,
    values: Seq<ValueModel>,
    category: ColCategory,
    upto: int,
) -> FieldsModel
    decreases upto,
{
    if upto <= 0 {
        Seq::empty()
    } else {
        let rest = collected(layout, values, category, upto - 1);
        if layout[upto - 1].category == category {
            put(rest, layout[upto - 1].col_name, value_at(values, upto - 1))
        } else {
            rest
        }
    }
}

/// For each of `cols` what `identity` has for it, NULL where it has nothing.
pub open spec fn stable_keys(identity: FieldsModel, cols: Seq<Seq<char>>) -> FieldsModel
    decreases cols.len(),
{
    if cols.len() == 0 {
        Seq::empty()
    } else {
        put(
            stable_keys(identity, cols.drop_last()),
            cols.last(),
            match lookup(identity, cols.last()) {
                Some(v) => v,
                None => ValueModel::Null,
            },
        )
    }
}

/// Whether one of the values is not NULL.
pub open spec fn some_value(m: FieldsModel) -> bool {
    exists|i: int| 0 <= i < m.len() && !((#[trigger] m[i]).1 is Null)
}

/// Whether a row can be told apart by its identity: there are no identity
/// columns, or one of them is not NULL.
pub open spec fn identifiable(identity: FieldsModel, identity_columns: Seq<Seq<char>>) -> bool {
    identity_columns.len() == 0 || some_value(identity)
}

/// Whether a row has no lookup key: there are no lookup columns, or all of
/// them are NULL.
pub open spec fn lookup_is_null(lookup_keys: FieldsModel, lookup_columns: Seq<Seq<char>>) -> bool {
    lookup_columns.len() == 0 || !some_value(lookup_keys)
}

/// The fixed part of a source row that is read.
pub struct SourceHead {
    pub row_id: i64,
    pub causal_id: String,
    pub valid_from: Bound,
    pub valid_until: Bound,
}

/// The source row that a read gives.
pub open spec fn source_row_of(
    row_id: i64,
    causal_id: Seq<char>,
    valid_from: crate::interval::BoundModel,
    valid_until: crate::interval::BoundModel,
    values: Seq<ValueModel>,
    layout: Seq<ColMappingModel>,
    identity_columns: Seq<Seq<char>>,
    lookup_columns: Seq<Seq<char>>,
) -> SourceRowModel {
    let n = layout.len() as int;
    let identity = collected(layout, values, ColCategory::Identity, n);
    let lookup_keys = collected(layout, values, ColCategory::Lookup, n);
    SourceRowModel {
        row_id,
        causal_id,
        valid_from,
        valid_until,
        identity_keys: identity,
        lookup_keys,
        data_payload: collected(layout, values, ColCategory::Data, n),
        ephemeral_payload: collected(layout, values, ColCategory::Ephemeral, n),
        stable_pk_payload: stable_keys(identity, identity_columns),
        is_identifiable: identifiable(identity, identity_columns),
        lookup_cols_are_null: lookup_is_null(lookup_keys, lookup_columns),
    }
}

/// The target row that a read gives.
pub open spec fn target_row_of(
    valid_from: crate::interval::BoundModel,
    valid_until: crate::interval::BoundModel,
    values: Seq<ValueModel>,
    layout: Seq<ColMappingModel>,
) -> TargetRowModel {
    let n = layout.len() as int;
    TargetRowModel {
        valid_from,
        valid_until,
        identity_keys: collected(layout, values, ColCategory::Identity, n),
        lookup_keys: collected(layout, values, ColCategory::Lookup, n),
        data_payload: collected(layout, values, ColCategory::Data, n),
        ephemeral_payload: collected(layout, values, ColCategory::Ephemeral, n),
        pk_payload: collected(layout, values, ColCategory::StablePk, n),
    }
}

fn collect(layout: &Vec<ColMapping>, values: &Vec<Value>, category: ColCategory) -> (out: Fields)
    ensures
        out.deep_view() == collected(
            layout.deep_view(),
            values.deep_view(),
            category,
            layout.len() as int,
        ),
{
    let ghost lm = layout.deep_view();
    let ghost vm = values.deep_view();
    let mut out = Fields::new();
    let mut i: usize = 0;
    while i < layout.len()
        invariant
            i <= layout.len(),
            lm == layout.deep_view(),
            vm == values.deep_view(),
            out.deep_view() == collected(lm, vm, category, i as int),
        decreases layout.len() - i,
    {
        assert(lm[i as int] == layout@[i as int].deep_view());
        if layout[i].category == category {
            let v = if i < values.len() {
                assert(vm[i as int] == values@[i as int].deep_view());
                values[i].clone()
            } else {
                Value::Null
            };
            out.insert(layout[i].col_name.clone(), v);
        }
        i += 1;
    }
    out
}

/// Whether one of the values is not NULL.
pub fn has_value(fields: &Fields) -> (r: bool)
    ensures
        r == some_value(fields.deep_view()),
{
    let ghost m = fields.deep_view();
    let mut i: usize = 0;
    while i < fields.len()
        invariant
            i <= m.len(),
            m == fields.deep_view(),
            forall|j: int| 0 <= j < i ==> (#[trigger] m[j]).1 is Null,
        decreases m.len() - i,
    {
        if !fields.value_at(i).is_null() {
            assert(!(m[i as int].1 is Null));
            return true;
        }
        i += 1;
    }
    false
}

/// Puts a source row together from the values that were read for it.
pub fn assemble_source_row(
    head: SourceHead,
    values: &Vec<Value>,
    layout: &Vec<ColMapping>,
    ctx: &PlannerContext,
) -> (row: SourceRow)
    ensures
        row.deep_view() == source_row_of(
            head.row_id,
            head.causal_id@,
            head.valid_from.deep_view(),
            head.valid_until.deep_view(),
            values.deep_view(),
            layout.deep_view(),
            ctx.identity_columns.deep_view(),
            ctx.all_lookup_cols.deep_view(),
        ),
{
    let identity = collect(layout, values, ColCategory::Identity);
    let lookup_keys = collect(layout, values, ColCategory::Lookup);
    let data = collect(layout, values, ColCategory::Data);
    let ephemeral = collect(layout, values, ColCategory::Ephemeral);
    let ghost im = identity.deep_view();
    let ghost cols = ctx.identity_columns.deep_view();
    let mut stable = Fields::new();
    let mut i: usize = 0;
    assert(cols.take(0) =~= Seq::empty());
    while i < ctx.identity_columns.len()
        invariant
            i <= ctx.identity_columns.len(),
            im == identity.deep_view(),
            cols == ctx.identity_columns.deep_view(),
            stable.deep_view() == stable_keys(im, cols.take(i as int)),
        decreases ctx.identity_columns.len() - i,
    {
        proof {
            lemma_take_step(cols, i as int);
            assert(cols[i as int] == ctx.identity_columns@[i as int]@);
        }
        let v = match identity.get(ctx.identity_columns[i].as_str()) {
            Some(v) => v.clone(),
            None => Value::Null,
        };
        stable.insert(ctx.identity_columns[i].clone(), v);
        i += 1;
    }
    proof {
        lemma_take_all(cols);
    }
    let is_identifiable = ctx.identity_columns.len() == 0 || has_value(&identity);
    let lookup_cols_are_null = ctx.all_lookup_cols.len() == 0 || !has_value(&lookup_keys);
    SourceRow {
        row_id: head.row_id,
        causal_id: head.causal_id,
        valid_from: head.valid_from,
        valid_until: head.valid_until,
        identity_keys: identity,
        lookup_keys,
        data_payload: data,
        ephemeral_payload: ephemeral,
        stable_pk_payload: stable,
        is_identifiable,
        lookup_cols_are_null,
    }
}

/// Puts a target row together from the values that were read for it.
pub fn assemble_target_row(
    valid_from: Bound,
    valid_until: Bound,
    values: &Vec<Value>,
    layout: &Vec<ColMapping>,
) -> (row: TargetRow)
    ensures
        row.deep_view() == target_row_of(
            valid_from.deep_view(),
            valid_until.deep_view(),
            values.deep_view(),
            layout.deep_view(),
        ),
{
    TargetRow {
        valid_from,
        valid_until,
        identity_keys: collect(layout, values, ColCategory::Identity),
        lookup_keys: collect(layout, values, ColCategory::Lookup),
        data_payload: collect(layout, values, ColCategory::Data),
        ephemeral_payload: collect(layout, values, ColCategory::Ephemeral),
        pk_payload: collect(layout, values, ColCategory::StablePk),
    }
}

} // verus!
