use crate::date::{date_minus_one, day_before, number_before, number_minus_one};
use crate::diff::diff_complete;
use crate::interval::{
    allen, before, blank_bound, compute_update_effect, effect_of, level, precedes, AllenRelation,
    Bound, BoundModel, UpdateEffect,
};
use crate::segments::is_active;
use crate::text::same_text;
use crate::types::{
    clone_bound, clone_fields, clone_ids, clone_text, ContextModel, DiffRow, DiffRowModel,
    EntityGroup, GroupModel, PlanAction, PlanRow, PlanRowModel, PlannerContext, SourceRow,
    SourceRowModel, TargetRow, TargetRowModel,
};
use crate::value::{
    equal_ignoring_nulls, fill_missing, fill_missing_into, lookup, maps_equal_ignoring_nulls,
    merge_data_ephemeral, merged_payload, overlay, overlay_onto, put, Fields, FieldsModel, Value,
    ValueModel,
};
use crate::views::{lemma_deep_empty, lemma_deep_push, lemma_take_all, lemma_take_step};
use vstd::prelude::*;

verus! {

/// Whether a character is white space: a blank, a tab, or one of the
/// characters that end or feed a line.
pub open spec fn is_white(c: char) -> bool {
    c == ' ' || c == '\t' || c == '\n' || c == '\r' || c == '\x0b' || c == '\x0c'
}

/// Whether a text holds white space.
pub open spec fn holds_white(s: Seq<char>) -> bool {
    exists|i: int| 0 <= i < s.len() && is_white(#[trigger] s[i])
}

/// A bound as it stands in a range: between double quotes if it holds
/// white space.
pub open spec fn quoted(s: Seq<char>) -> Seq<char> {
    if holds_white(s) {
        "\""@ + s + "\""@
    } else {
        s
    }
}

fn has_white(s: &str) -> (r: bool)
    ensures
        r == holds_white(s@),
{
    for c in it: s.chars()
        invariant
            it.seq() == s@,
            forall|j: int| 0 <= j < it.index() ==> !is_white(#[trigger] s@[j]),
    {
        if c == ' ' || c == '\t' || c == '\n' || c == '\r' || c == '\x0b' || c == '\x0c' {
            assert(is_white(s@[it.index() as int]));
            return true;
        }
    }
    false
}

/// The range `[from,until)` as text.
pub open spec fn range_text(from: Seq<char>, until: Seq<char>) -> Seq<char> {
    "["@ + quoted(from) + ","@ + quoted(until) + ")"@
}

fn quote(s: &str) -> (out: String)
    ensures
        out@ == quoted(s@),
{
    if has_white(s) {
        let mut out = String::from_str("\"");
        out.append(s);
        out.append("\"");
        out
    } else {
        String::from_str(s)
    }
}

/// Writes the range `[from,until)`, with double quotes around a bound that
/// holds white space.
pub fn format_range(from: &str, until: &str) -> (out: String)
    ensures
        out@ == range_text(from@, until@),
{
    let mut out = String::from_str("[");
    let f = quote(from);
    out.append(f.as_str());
    out.append(",");
    let u = quote(until);
    out.append(u.as_str());
    out.append(")");
    out
}

/// Whether two payloads hold the same once NULL counts as absent; two
/// absent payloads do, an absent and a present one do not.
pub open spec fn payload_same(a: Option<FieldsModel>, b: Option<FieldsModel>) -> bool {
    match (a, b) {
        (Some(x), Some(y)) => equal_ignoring_nulls(x, y),
        (None, None) => true,
        _ => false,
    }
}

fn same_payload(a: &Option<Fields>, b: &Option<Fields>) -> (r: bool)
    ensures
        r == payload_same(a.deep_view(), b.deep_view()),
{
    match (a, b) {
        (Some(x), Some(y)) => maps_equal_ignoring_nulls(x, y),
        (None, None) => true,
        _ => false,
    }
}

/// Whether a final segment leaves its target row as it is: same interval,
/// same values.
pub open spec fn unchanged(d: DiffRowModel) -> bool {
    d.final_valid_from->0.text == d.target_valid_from->0.text && d.final_valid_until->0.text
        == d.target_valid_until->0.text && payload_same(
        merged_payload(d.final_payload, d.ephemeral_payload),
        merged_payload(d.target_payload, d.target_ephemeral),
    )
}

/// The operation for one row of a diff, and the effect of an update.
///
/// A segment without target row is inserted, a target row without segment
/// deleted. A segment that leaves its target row as it is is skipped. Of
/// the segments of one target row the one of rank 1 updates the row, the
/// others are inserted.
pub open spec fn classification(d: DiffRowModel, rank: Option<usize>, n: bool) -> (
    PlanAction,
    Option<UpdateEffect>,
) {
    if d.target_valid_from is None && d.final_valid_from is None {
        (PlanAction::Error, None)
    } else if d.target_valid_from is None {
        (PlanAction::Insert, None)
    } else if d.final_valid_from is None {
        (PlanAction::Delete, None)
    } else if unchanged(d) {
        (PlanAction::SkipIdentical, None)
    } else if rank is Some && rank->0 != 1 {
        (PlanAction::Insert, None)
    } else {
        (
            PlanAction::Update,
            Some(
                effect_of(
                    d.target_valid_from->0,
                    d.target_valid_until->0,
                    d.final_valid_from->0,
                    d.final_valid_until->0,
                    n,
                ),
            ),
        )
    }
}

/// Says what is to be done for one row of a diff.
pub fn classify_single_diff(d: &DiffRow, update_rank: Option<usize>, is_numeric: bool) -> (r: (
    PlanAction,
    Option<UpdateEffect>,
))
    requires
        diff_complete(d.deep_view()),
    ensures
        r == classification(d.deep_view(), update_rank, is_numeric),
{
    match (&d.target_valid_from, &d.final_valid_from, &d.target_valid_until, &d.final_valid_until) {
        (None, Some(_), _, _) => (PlanAction::Insert, None),
        (Some(_), None, _, _) => (PlanAction::Delete, None),
        (Some(t_from), Some(f_from), Some(t_until), Some(f_until)) => {
            let f_merged = merge_data_ephemeral(&d.final_payload, &d.ephemeral_payload);
            let t_merged = merge_data_ephemeral(&d.target_payload, &d.target_ephemeral);
            let identical = same_payload(&f_merged, &t_merged);
            if same_text(f_from.text.as_str(), t_from.text.as_str()) && same_text(
                f_until.text.as_str(),
                t_until.text.as_str(),
            ) && identical {
                (PlanAction::SkipIdentical, None)
            } else {
                let split = match update_rank {
                    Some(r) => r != 1,
                    None => false,
                };
                if split {
                    (PlanAction::Insert, None)
                } else {
                    (
                        PlanAction::Update,
                        Some(compute_update_effect(t_from, t_until, f_from, f_until, is_numeric)),
                    )
                }
            }
        },
        _ => (PlanAction::Error, None),
    }
}

/// Whether a row takes part in the ranking: it has a segment and a target row.
pub open spec fn ranked(d: DiffRowModel) -> bool {
    d.target_valid_from is Some && d.final_valid_from is Some
}

/// Whether the segment starts where its target row starts.
pub open spec fn starts_with_target(d: DiffRowModel) -> bool {
    d.final_valid_from->0.text == d.target_valid_from->0.text
}

/// Whether the segment keeps the data of its target row.
pub open spec fn keeps_payload(d: DiffRowModel) -> bool {
    payload_same(d.final_payload, d.target_payload)
}

/// The bound, or the blank one where it is absent.
pub open spec fn or_blank(b: Option<BoundModel>) -> BoundModel {
    match b {
        Some(x) => x,
        None => blank_bound(),
    }
}

/// Whether `a` ranks before `b` among the segments of one target row:
/// first the one that starts with the target row, then the one that keeps
/// its data, then the earlier start, then the earlier end.
pub open spec fn ranks_before(a: DiffRowModel, b: DiffRowModel, n: bool) -> bool {
    if starts_with_target(a) != starts_with_target(b) {
        starts_with_target(a)
    } else if keeps_payload(a) != keeps_payload(b) {
        keeps_payload(a)
    } else if !level(or_blank(a.final_valid_from), or_blank(b.final_valid_from), n) {
        before(or_blank(a.final_valid_from), or_blank(b.final_valid_from), n)
    } else {
        before(or_blank(a.final_valid_until), or_blank(b.final_valid_until), n)
    }
}

/// Whether the row at `j` is a segment of the target row of the row at `i`
/// and comes before it in rank, or ties with it and stands before it.
pub open spec fn outranks(diffs: Seq<DiffRowModel>, j: int, i: int, n: bool) -> bool {
    j != i && ranked(diffs[j]) && diffs[j].target_valid_from->0.text
        == diffs[i].target_valid_from->0.text && (ranks_before(diffs[j], diffs[i], n) || (
    !ranks_before(diffs[i], diffs[j], n) && j < i))
}

/// How many of the first `upto` rows outrank the row at `i`.
pub open spec fn outrankers(diffs: Seq<DiffRowModel>, i: int, upto: int, n: bool) -> nat
    decreases upto,
{
    if upto <= 0 {
        0
    } else if outranks(diffs, upto - 1, i, n) {
        outrankers(diffs, i, upto - 1, n) + 1
    } else {
        outrankers(diffs, i, upto - 1, n)
    }
}

/// The rank of the row at `i` among the segments of its target row, from 1;
/// the greatest number there is stands for any rank beyond it.
pub open spec fn update_rank(diffs: Seq<DiffRowModel>, i: int, n: bool) -> Option<usize> {
    if ranked(diffs[i]) {
        let rank = outrankers(diffs, i, diffs.len() as int, n) + 1;
        if rank <= usize::MAX {
            Some(rank as usize)
        } else {
            Some(usize::MAX)
        }
    } else {
        None
    }
}

/// What a row has under column `col`, NULL where it has nothing: looked for
/// among its identity keys, its lookup keys and its data, in this order.
pub open spec fn source_column(sr: SourceRowModel, col: Seq<char>) -> ValueModel {
    match lookup(sr.identity_keys, col) {
        Some(v) => v,
        None => match lookup(sr.lookup_keys, col) {
            Some(v) => v,
            None => match lookup(sr.data_payload, col) {
                Some(v) => v,
                None => ValueModel::Null,
            },
        },
    }
}

/// What a target row has under column `col`, among its lookup keys or else
/// its identity keys.
pub open spec fn target_column(t: TargetRowModel, col: Seq<char>) -> Option<ValueModel> {
    match lookup(t.lookup_keys, col) {
        Some(v) => Some(v),
        None => lookup(t.identity_keys, col),
    }
}

/// The lookup value of a group under `col`: that of its first source row,
/// and for an existing entity that of its first target row where the source
/// has NULL.
pub open spec fn group_column(group: GroupModel, col: Seq<char>) -> ValueModel {
    if group.source_rows.len() > 0 {
        let own = source_column(group.source_rows[0].source, col);
        if own is Null && !group.is_new_entity && group.target_rows.len() > 0 {
            match target_column(group.target_rows[0], col) {
                Some(v) => v,
                None => own,
            }
        } else {
            own
        }
    } else {
        match target_column(group.target_rows[0], col) {
            Some(v) => v,
            None => ValueModel::Null,
        }
    }
}

/// The lookup values of a group under `cols`.
pub open spec fn group_columns(group: GroupModel, cols: Seq<Seq<char>>) -> FieldsModel
    decreases cols.len(),
{
    if cols.len() == 0 {
        Seq::empty()
    } else {
        put(group_columns(group, cols.drop_last()), cols.last(), group_column(group, cols.last()))
    }
}

/// The lookup keys that the rows of a group carry: nothing for a group
/// without rows, an empty set where there are no lookup columns.
pub open spec fn group_lookup_keys(group: GroupModel, ctx: ContextModel) -> Option<FieldsModel> {
    if ctx.all_lookup_cols.len() == 0 {
        Some(Seq::empty())
    } else if group.source_rows.len() == 0 && group.target_rows.len() == 0 {
        None
    } else {
        Some(group_columns(group, ctx.all_lookup_cols))
    }
}

/// Whether one of the source rows of the group is active.
pub open spec fn has_active(group: GroupModel) -> bool {
    exists|i: int| 0 <= i < group.source_rows.len() && is_active(#[trigger] group.source_rows[i])
}

/// The last point of an interval that ends at `until`: one unit before its
/// end, which is a day for a date and 1 for a number. Nothing where the
/// end is no date, or no whole number in a numeric era.
pub open spec fn last_point(until: Seq<char>, numeric: bool) -> Option<ValueModel> {
    if numeric {
        match number_before(until) {
            Some(t) => Some(ValueModel::Number(t)),
            None => None,
        }
    } else {
        match day_before(until) {
            Some(t) => Some(ValueModel::Text(t)),
            None => None,
        }
    }
}

/// The data of a row of the plan: the final data with the ephemeral values
/// laid over it, and with the synchronized column set to the last point of
/// the interval where there is such a column and such a point.
pub open spec fn plan_data(d: DiffRowModel, ctx: ContextModel) -> Option<FieldsModel> {
    match d.final_payload {
        None => None,
        Some(p) => {
            let with_ephemeral = match d.ephemeral_payload {
                Some(e) => overlay(p, e, false, Seq::empty()),
                None => p,
            };
            Some(
                match (ctx.valid_to_col, d.final_valid_until) {
                    (Some(col), Some(u)) => match last_point(u.text, ctx.numeric) {
                        Some(v) => put(with_ephemeral, col, v),
                        None => with_ephemeral,
                    },
                    _ => with_ephemeral,
                },
            )
        },
    }
}

/// The keys of the entity of a row: its identity keys, and what the lookup
/// keys and the target's other key columns add to them; nothing where all
/// are empty.
pub open spec fn entity_keys_of(d: DiffRowModel, lookup_keys: Option<FieldsModel>) -> Option<FieldsModel> {
    let a = match lookup_keys {
        Some(lk) => fill_missing(d.identity_keys, lk),
        None => d.identity_keys,
    };
    let b = match d.target_pk_payload {
        Some(pk) => fill_missing(a, pk),
        None => a,
    };
    if b.len() == 0 {
        None
    } else {
        Some(b)
    }
}

/// The range of an interval of which both ends are there.
pub open spec fn range_of_bounds(from: Option<BoundModel>, until: Option<BoundModel>) -> Option<Seq<char>> {
    match (from, until) {
        (Some(f), Some(u)) => Some(range_text(f.text, u.text)),
        _ => None,
    }
}

/// A number of rows as a sequence number, which stops at the largest one.
pub open spec fn sequence_number(k: int) -> i64 {
    if k <= i64::MAX {
        k as i64
    } else {
        i64::MAX
    }
}

/// The row of the plan for one row of a diff.
pub open spec fn plan_row_of(
    d: DiffRowModel,
    action: (PlanAction, Option<UpdateEffect>),
    seq: i64,
    lookup_keys: Option<FieldsModel>,
    ctx: ContextModel,
) -> PlanRowModel {
    let deleting = action.0 is Delete;
    PlanRowModel {
        plan_op_seq: seq,
        statement_seq: 0,
        row_ids: if deleting {
            Seq::empty()
        } else {
            d.row_ids
        },
        operation: action.0,
        update_effect: if deleting {
            None
        } else {
            action.1
        },
        causal_id: if deleting {
            None
        } else {
            d.causal_id
        },
        is_new_entity: d.is_new_entity,
        entity_keys: entity_keys_of(d, lookup_keys),
        identity_keys: if d.identity_keys.len() == 0 {
            None
        } else {
            Some(d.identity_keys)
        },
        lookup_keys,
        s_t_relation: if deleting {
            None
        } else {
            d.s_t_relation
        },
        b_a_relation: if !deleting && d.target_valid_from is Some && d.target_valid_until is Some
            && d.final_valid_from is Some && d.final_valid_until is Some {
            allen(
                d.target_valid_from->0,
                d.target_valid_until->0,
                d.final_valid_from->0,
                d.final_valid_until->0,
                ctx.numeric,
            )
        } else {
            None
        },
        old_valid_from: d.target_valid_from,
        old_valid_until: d.target_valid_until,
        new_valid_from: if deleting {
            None
        } else {
            d.final_valid_from
        },
        new_valid_until: if deleting {
            None
        } else {
            d.final_valid_until
        },
        old_valid_range: range_of_bounds(d.target_valid_from, d.target_valid_until),
        new_valid_range: if deleting {
            None
        } else {
            range_of_bounds(d.final_valid_from, d.final_valid_until)
        },
        data: if deleting {
            None
        } else {
            plan_data(d, ctx)
        },
        feedback: None,
        trace: None,
        grouping_key: if deleting {
            Seq::empty()
        } else {
            d.grouping_key
        },
    }
}

/// What is done for the row at `i`, or nothing where the row is left out of
/// the plan. A stretch of the target that no source row covers is deleted
/// if the delete mode says so: the timeline flag counts for an entity with
/// active source rows, the entity flag for one without. Else it is left out.
pub open spec fn final_action(
    diffs: Seq<DiffRowModel>,
    i: int,
    group: GroupModel,
    ctx: ContextModel,
) -> Option<(PlanAction, Option<UpdateEffect>)> {
    let c = classification(diffs[i], update_rank(diffs, i, ctx.numeric), ctx.numeric);
    if c.0 is SkipIdentical && !diffs[i].has_source_coverage {
        let deletes = if has_active(group) {
            ctx.delete_mode.spec_deletes_timeline()
        } else {
            ctx.delete_mode.spec_deletes_entities()
        };
        if deletes {
            Some((PlanAction::Delete, c.1))
        } else {
            None
        }
    } else {
        Some(c)
    }
}

/// The rows of the plan for the first `upto` rows of a diff.
pub open spec fn classified_upto(
    diffs: Seq<DiffRowModel>,
    upto: int,
    group: GroupModel,
    ctx: ContextModel,
) -> Seq<PlanRowModel>
    decreases upto,
{
    if upto <= 0 {
        Seq::empty()
    } else {
        let rest = classified_upto(diffs, upto - 1, group, ctx);
        match final_action(diffs, upto - 1, group, ctx) {
            Some(a) => rest.push(
                plan_row_of(
                    diffs[upto - 1],
                    a,
                    sequence_number(rest.len() as int + 1),
                    group_lookup_keys(group, ctx),
                    ctx,
                ),
            ),
            None => rest,
        }
    }
}

/// The rows of the plan for the diff of one entity, numbered from 1.
pub open spec fn classified(diffs: Seq<DiffRowModel>, group: GroupModel, ctx: ContextModel) -> Seq<
    PlanRowModel,
> {
    classified_upto(diffs, diffs.len() as int, group, ctx)
}

fn column_of_source(sr: &SourceRow, col: &str) -> (v: Value)
    ensures
        v.deep_view() == source_column(sr.deep_view(), col@),
{
    match sr.identity_keys.get(col) {
        Some(v) => v.clone(),
        None => match sr.lookup_keys.get(col) {
            Some(v) => v.clone(),
            None => match sr.data_payload.get(col) {
                Some(v) => v.clone(),
                None => Value::Null,
            },
        },
    }
}

fn column_of_target(t: &TargetRow, col: &str) -> (v: Option<Value>)
    ensures
        v.deep_view() == target_column(t.deep_view(), col@),
{
    match t.lookup_keys.get(col) {
        Some(v) => Some(v.clone()),
        None => match t.identity_keys.get(col) {
            Some(v) => Some(v.clone()),
            None => None,
        },
    }
}

fn column_of_group(group: &EntityGroup, col: &str) -> (v: Value)
    requires
        group.source_rows.len() > 0 || group.target_rows.len() > 0,
    ensures
        v.deep_view() == group_column(group.deep_view(), col@),
{
    let ghost gm = group.deep_view();
    if group.source_rows.len() > 0 {
        assert(gm.source_rows[0] == group.source_rows@[0].deep_view());
        let own = column_of_source(&group.source_rows[0].source, col);
        if own.is_null() && !group.is_new_entity && group.target_rows.len() > 0 {
            assert(gm.target_rows[0] == group.target_rows@[0].deep_view());
            match column_of_target(&group.target_rows[0], col) {
                Some(v) => v,
                None => own,
            }
        } else {
            own
        }
    } else {
        assert(gm.target_rows[0] == group.target_rows@[0].deep_view());
        match column_of_target(&group.target_rows[0], col) {
            Some(v) => v,
            None => Value::Null,
        }
    }
}

fn lookup_keys_of_group(group: &EntityGroup, ctx: &PlannerContext) -> (r: Option<Fields>)
    ensures
        r.deep_view() == group_lookup_keys(group.deep_view(), ctx.deep_view()),
{
    let ghost gm = group.deep_view();
    let ghost cols = ctx.deep_view().all_lookup_cols;
    if ctx.all_lookup_cols.len() == 0 {
        return Some(Fields::new());
    }
    if group.source_rows.len() == 0 && group.target_rows.len() == 0 {
        return None;
    }
    let mut keys = Fields::new();
    let mut i: usize = 0;
    while i < ctx.all_lookup_cols.len()
        invariant
            i <= ctx.all_lookup_cols.len(),
            gm == group.deep_view(),
            cols == ctx.all_lookup_cols.deep_view(),
            group.source_rows.len() > 0 || group.target_rows.len() > 0,
            keys.deep_view() == group_columns(gm, cols.take(i as int)),
        decreases ctx.all_lookup_cols.len() - i,
    {
        proof {
            lemma_take_step(cols, i as int);
        }
        let v = column_of_group(group, ctx.all_lookup_cols[i].as_str());
        keys.insert(ctx.all_lookup_cols[i].clone(), v);
        i += 1;
    }
    proof {
        lemma_take_all(cols);
    }
    Some(keys)
}

fn group_has_active(group: &EntityGroup) -> (r: bool)
    ensures
        r == has_active(group.deep_view()),
{
    let ghost rows = group.deep_view().source_rows;
    let mut i: usize = 0;
    while i < group.source_rows.len()
        invariant
            i <= group.source_rows.len(),
            rows == group.source_rows.deep_view(),
            forall|j: int| 0 <= j < i ==> !is_active(#[trigger] rows[j]),
        decreases group.source_rows.len() - i,
    {
        assert(rows[i as int] == group.source_rows@[i as int].deep_view());
        if group.source_rows[i].early_feedback.is_none() && !group.source_rows[i].is_eclipsed {
            assert(is_active(group.deep_view().source_rows[i as int]));
            return true;
        }
        i += 1;
    }
    false
}

fn bound_before(a: &Option<Bound>, b: &Option<Bound>, n: bool) -> (r: bool)
    ensures
        r == before(or_blank(a.deep_view()), or_blank(b.deep_view()), n),
{
    let blank = Bound::blank();
    let x = match a {
        Some(v) => v,
        None => &blank,
    };
    let y = match b {
        Some(v) => v,
        None => &blank,
    };
    precedes(x, y, n)
}

fn row_ranks_before(a: &DiffRow, b: &DiffRow, a_keeps: bool, b_keeps: bool, n: bool) -> (r: bool)
    requires
        ranked(a.deep_view()),
        ranked(b.deep_view()),
        a_keeps == keeps_payload(a.deep_view()),
        b_keeps == keeps_payload(b.deep_view()),
    ensures
        r == ranks_before(a.deep_view(), b.deep_view(), n),
{
    let a_starts = starts(a);
    let b_starts = starts(b);
    if a_starts != b_starts {
        a_starts
    } else if a_keeps != b_keeps {
        a_keeps
    } else if bound_before(&a.final_valid_from, &b.final_valid_from, n) {
        true
    } else if bound_before(&b.final_valid_from, &a.final_valid_from, n) {
        false
    } else {
        bound_before(&a.final_valid_until, &b.final_valid_until, n)
    }
}

fn starts(d: &DiffRow) -> (r: bool)
    requires
        ranked(d.deep_view()),
    ensures
        r == starts_with_target(d.deep_view()),
{
    match (&d.final_valid_from, &d.target_valid_from) {
        (Some(f), Some(t)) => same_text(f.text.as_str(), t.text.as_str()),
        _ => false,
    }
}

fn is_ranked(d: &DiffRow) -> (r: bool)
    ensures
        r == ranked(d.deep_view()),
{
    d.target_valid_from.is_some() && d.final_valid_from.is_some()
}

fn same_target(a: &DiffRow, b: &DiffRow) -> (r: bool)
    requires
        ranked(a.deep_view()),
        ranked(b.deep_view()),
    ensures
        r == (a.deep_view().target_valid_from->0.text == b.deep_view().target_valid_from->0.text),
{
    match (&a.target_valid_from, &b.target_valid_from) {
        (Some(x), Some(y)) => same_text(x.text.as_str(), y.text.as_str()),
        _ => false,
    }
}

fn rank_of(diff_rows: &Vec<DiffRow>, keeps: &Vec<bool>, i: usize, n: bool) -> (r: Option<usize>)
    requires
        i < diff_rows.len(),
        keeps.len() == diff_rows.len(),
        forall|j: int|
            0 <= j < diff_rows.len() ==> keeps[j] == keeps_payload(#[trigger] diff_rows.deep_view()[j]),
    ensures
        r == update_rank(diff_rows.deep_view(), i as int, n),
{
    let ghost dm = diff_rows.deep_view();
    assert(dm[i as int] == diff_rows@[i as int].deep_view());
    if !is_ranked(&diff_rows[i]) {
        return None;
    }
    let mut count: usize = 0;
    let mut j: usize = 0;
    while j < diff_rows.len()
        invariant
            j <= diff_rows.len(),
            i < diff_rows.len(),
            dm == diff_rows.deep_view(),
            keeps.len() == diff_rows.len(),
            forall|k: int| 0 <= k < diff_rows.len() ==> keeps[k] == keeps_payload(#[trigger] dm[k]),
            ranked(dm[i as int]),
            count == outrankers(dm, i as int, j as int, n),
            count <= j,
        decreases diff_rows.len() - j,
    {
        assert(dm[j as int] == diff_rows@[j as int].deep_view());
        assert(dm[i as int] == diff_rows@[i as int].deep_view());
        if j != i && is_ranked(&diff_rows[j]) && same_target(&diff_rows[j], &diff_rows[i]) {
            let first = row_ranks_before(&diff_rows[j], &diff_rows[i], keeps[j], keeps[i], n);
            let over = first || (!row_ranks_before(
                &diff_rows[i],
                &diff_rows[j],
                keeps[i],
                keeps[j],
                n,
            ) && j < i);
            if over {
                count += 1;
            }
        }
        j += 1;
    }
    // Row `i` does not outrank itself, so fewer rows than there are do.
    proof {
        lemma_outrankers_bound(dm, i as int, dm.len() as int, n);
    }
    Some(count + 1)
}

/// The row at `i` is not among those that outrank it.
proof fn lemma_outrankers_bound(diffs: Seq<DiffRowModel>, i: int, upto: int, n: bool)
    requires
        0 <= i < diffs.len(),
        0 <= upto <= diffs.len(),
    ensures
        outrankers(diffs, i, upto, n) <= upto,
        upto > i ==> outrankers(diffs, i, upto, n) < upto,
    decreases upto,
{
    if upto > 0 {
        lemma_outrankers_bound(diffs, i, upto - 1, n);
    }
}

fn data_of_plan(d: &DiffRow, ctx: &PlannerContext) -> (r: Option<Fields>)
    ensures
        r.deep_view() == plan_data(d.deep_view(), ctx.deep_view()),
{
    match &d.final_payload {
        None => None,
        Some(p) => {
            let mut data = p.clone();
            match &d.ephemeral_payload {
                Some(e) => {
                    let none: Vec<String> = Vec::new();
                    proof {
                        lemma_deep_empty(none);
                    }
                    overlay_onto(&mut data, e, false, &none);
                },
                None => {},
            }
            match (&ctx.era.valid_to_col, &d.final_valid_until) {
                (Some(col), Some(u)) => {
                    let last = if ctx.is_numeric() {
                        match number_minus_one(u.text.as_str()) {
                            Some(t) => Some(Value::Number(t)),
                            None => None,
                        }
                    } else {
                        match date_minus_one(u.text.as_str()) {
                            Some(t) => Some(Value::Text(t)),
                            None => None,
                        }
                    };
                    match last {
                        Some(v) => {
                            data.insert(col.clone(), v);
                        },
                        None => {},
                    }
                },
                _ => {},
            }
            Some(data)
        },
    }
}

fn keys_of_entity(d: &DiffRow, lookup_keys: &Option<Fields>) -> (r: Option<Fields>)
    ensures
        r.deep_view() == entity_keys_of(d.deep_view(), lookup_keys.deep_view()),
{
    let mut keys = d.identity_keys.clone();
    match lookup_keys {
        Some(lk) => {
            fill_missing_into(&mut keys, lk);
        },
        None => {},
    }
    match &d.target_pk_payload {
        Some(pk) => {
            fill_missing_into(&mut keys, pk);
        },
        None => {},
    }
    if keys.is_empty() {
        None
    } else {
        Some(keys)
    }
}

fn range_of(from: &Option<Bound>, until: &Option<Bound>) -> (r: Option<String>)
    ensures
        r.deep_view() == range_of_bounds(from.deep_view(), until.deep_view()),
{
    match (from, until) {
        (Some(f), Some(u)) => Some(format_range(f.text.as_str(), u.text.as_str())),
        _ => None,
    }
}

fn plan_row(
    d: &DiffRow,
    action: (PlanAction, Option<UpdateEffect>),
    seq: i64,
    lookup_keys: &Option<Fields>,
    ctx: &PlannerContext,
) -> (row: PlanRow)
    ensures
        row.deep_view() == plan_row_of(
            d.deep_view(),
            action,
            seq,
            lookup_keys.deep_view(),
            ctx.deep_view(),
        ),
{
    let deleting = matches!(action.0, PlanAction::Delete);
    let entity_keys = keys_of_entity(d, lookup_keys);
    let identity_keys = if d.identity_keys.is_empty() {
        None
    } else {
        Some(d.identity_keys.clone())
    };
    let old_valid_range = range_of(&d.target_valid_from, &d.target_valid_until);
    if deleting {
        PlanRow {
            plan_op_seq: seq,
            statement_seq: 0,
            row_ids: Vec::new(),
            operation: action.0,
            update_effect: None,
            causal_id: None,
            is_new_entity: d.is_new_entity,
            entity_keys,
            identity_keys,
            lookup_keys: clone_fields(lookup_keys),
            s_t_relation: None,
            b_a_relation: None,
            old_valid_from: clone_bound(&d.target_valid_from),
            old_valid_until: clone_bound(&d.target_valid_until),
            new_valid_from: None,
            new_valid_until: None,
            old_valid_range,
            new_valid_range: None,
            data: None,
            feedback: None,
            trace: None,
            grouping_key: String::new(),
        }
    } else {
        let b_a_relation = match (
            &d.target_valid_from,
            &d.target_valid_until,
            &d.final_valid_from,
            &d.final_valid_until,
        ) {
            (Some(of), Some(ou), Some(nf), Some(nu)) => AllenRelation::compute(
                of,
                ou,
                nf,
                nu,
                ctx.is_numeric(),
            ),
            _ => None,
        };
        PlanRow {
            plan_op_seq: seq,
            statement_seq: 0,
            row_ids: clone_ids(&d.row_ids),
            operation: action.0,
            update_effect: action.1,
            causal_id: clone_text(&d.causal_id),
            is_new_entity: d.is_new_entity,
            entity_keys,
            identity_keys,
            lookup_keys: clone_fields(lookup_keys),
            s_t_relation: d.s_t_relation,
            b_a_relation,
            old_valid_from: clone_bound(&d.target_valid_from),
            old_valid_until: clone_bound(&d.target_valid_until),
            new_valid_from: clone_bound(&d.final_valid_from),
            new_valid_until: clone_bound(&d.final_valid_until),
            old_valid_range,
            new_valid_range: range_of(&d.final_valid_from, &d.final_valid_until),
            data: data_of_plan(d, ctx),
            feedback: None,
            trace: None,
            grouping_key: d.grouping_key.clone(),
        }
    }
}

/// The sequence number of the row that comes after `count` rows.
pub fn number_after(count: usize) -> (seq: i64)
    ensures
        seq == sequence_number(count as int + 1),
{
    let c = count as u64;
    if c < 0x7fff_ffff_ffff_ffff {
        (c + 1) as i64
    } else {
        0x7fff_ffff_ffff_ffff
    }
}

/// Turns the diff of one entity into rows of the plan.
pub fn classify_operations(diff_rows: Vec<DiffRow>, group: &EntityGroup, ctx: &PlannerContext) -> (plan_rows: Vec<PlanRow>)
    requires
        forall|i: int|
            0 <= i < diff_rows.len() ==> diff_complete(#[trigger] diff_rows.deep_view()[i]),
    ensures
        plan_rows.deep_view() == classified(
            diff_rows.deep_view(),
            group.deep_view(),
            ctx.deep_view(),
        ),
{
    let ghost dm = diff_rows.deep_view();
    let ghost gm = group.deep_view();
    let ghost cm = ctx.deep_view();
    let n = ctx.is_numeric();
    let lookup_keys = lookup_keys_of_group(group, ctx);
    let active = group_has_active(group);
    let deletes = if active {
        ctx.delete_mode.deletes_timeline()
    } else {
        ctx.delete_mode.deletes_entities()
    };
    let mut keeps: Vec<bool> = Vec::new();
    let mut k: usize = 0;
    while k < diff_rows.len()
        invariant
            k <= diff_rows.len(),
            dm == diff_rows.deep_view(),
            keeps.len() == k,
            forall|j: int| 0 <= j < k ==> keeps[j] == keeps_payload(#[trigger] dm[j]),
        decreases diff_rows.len() - k,
    {
        assert(dm[k as int] == diff_rows@[k as int].deep_view());
        keeps.push(same_payload(&diff_rows[k].final_payload, &diff_rows[k].target_payload));
        k += 1;
    }
    let mut plan_rows: Vec<PlanRow> = Vec::new();
    let mut i: usize = 0;
    proof {
        lemma_deep_empty(plan_rows);
    }
    while i < diff_rows.len()
        invariant
            i <= diff_rows.len(),
            dm == diff_rows.deep_view(),
            gm == group.deep_view(),
            cm == ctx.deep_view(),
            n == cm.numeric,
            keeps.len() == diff_rows.len(),
            forall|j: int| 0 <= j < diff_rows.len() ==> keeps[j] == keeps_payload(#[trigger] dm[j]),
            forall|j: int| 0 <= j < diff_rows.len() ==> diff_complete(#[trigger] dm[j]),
            lookup_keys.deep_view() == group_lookup_keys(gm, cm),
            deletes == (if has_active(gm) {
                cm.delete_mode.spec_deletes_timeline()
            } else {
                cm.delete_mode.spec_deletes_entities()
            }),
            plan_rows.deep_view() == classified_upto(dm, i as int, gm, cm),
        decreases diff_rows.len() - i,
    {
        assert(dm[i as int] == diff_rows@[i as int].deep_view());
        let rank = rank_of(&diff_rows, &keeps, i, n);
        let c = classify_single_diff(&diff_rows[i], rank, n);
        let action: Option<(PlanAction, Option<UpdateEffect>)> = if matches!(
            c.0,
            PlanAction::SkipIdentical
        ) && !diff_rows[i].has_source_coverage {
            if deletes {
                Some((PlanAction::Delete, c.1))
            } else {
                None
            }
        } else {
            Some(c)
        };
        match action {
            Some(a) => {
                let ghost before_vec = plan_rows;
                let count = plan_rows.len();
                let seq = number_after(count);
                let row = plan_row(&diff_rows[i], a, seq, &lookup_keys, ctx);
                plan_rows.push(row);
                proof {
                    lemma_deep_push(before_vec, plan_rows, row);
                }
            },
            None => {},
        }
        i += 1;
    }
    plan_rows
}

} // verus!
