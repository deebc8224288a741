use crate::date::{integer_text, signed_number};
use crate::hashing::{json_string, json_string_text, object_json, object_text};
use crate::interval::{allen_name, effect_name, Bound, BoundModel};
use crate::text::push_char;
use crate::types::{action_name, Feedback, FeedbackModel, PlanRow, PlanRowModel};
use crate::value::{Fields, FieldsModel};
use crate::views::{lemma_take_all, lemma_take_step};
use vstd::prelude::*;

verus! {

/// `s` with a backslash before each double quote and each backslash.
pub open spec fn backslashed(s: Seq<char>) -> Seq<char>
    decreases s.len(),
{
    if s.len() == 0 {
        s
    } else if s.last() == '"' || s.last() == '\\' {
        backslashed(s.drop_last()).push('\\').push(s.last())
    } else {
        backslashed(s.drop_last()).push(s.last())
    }
}

/// One element of a text array: `NULL`, or the text between double quotes.
pub open spec fn array_element(v: Option<Seq<char>>) -> Seq<char> {
    match v {
        Some(s) => seq!['"'] + backslashed(s) + seq!['"'],
        None => "NULL"@,
    }
}

/// The elements of a text array, with commas between them.
pub open spec fn array_elements(values: Seq<Option<Seq<char>>>) -> Seq<char>
    decreases values.len(),
{
    if values.len() == 0 {
        Seq::empty()
    } else if values.len() == 1 {
        array_element(values[0])
    } else {
        array_elements(values.drop_last()) + seq![','] + array_element(values.last())
    }
}

/// The literal of a PostgreSQL text array with these elements.
pub open spec fn array_text(values: Seq<Option<Seq<char>>>) -> Seq<char> {
    seq!['{'] + array_elements(values) + seq!['}']
}

/// Appends `s` with a backslash before each double quote and each backslash.
fn push_backslashed(out: &mut String, s: &str)
    ensures
        final(out)@ == old(out)@ + backslashed(s@),
{
    let ghost start = out@;
    assert(out@ =~= start + backslashed(s@.take(0)));
    for c in it: s.chars()
        invariant
            it.seq() == s@,
            out@ == start + backslashed(s@.take(it.index() as int)),
    {
        let ghost k = it.index() as int;
        assert(s@.take(k + 1).drop_last() =~= s@.take(k));
        assert(s@.take(k + 1).last() == c);
        if c == '"' || c == '\\' {
            push_char(out, '\\');
        }
        push_char(out, c);
        assert(out@ =~= start + backslashed(s@.take(k + 1)));
    }
    assert(s@.take(s@.len() as int) =~= s@);
}

fn push_element(out: &mut String, v: Option<&String>)
    ensures
        final(out)@ == old(out)@ + array_element(v.deep_view()),
{
    let ghost start = out@;
    match v {
        Some(s) => {
            push_char(out, '"');
            push_backslashed(out, s.as_str());
            push_char(out, '"');
            assert(out@ =~= start + array_element(v.deep_view()));
        },
        None => {
            out.append("NULL");
        },
    }
}

/// Writes the literal of a PostgreSQL text array whose elements may be NULL.
pub fn pg_nullable_text_array(values: &Vec<Option<String>>) -> (out: String)
    ensures
        out@ == array_text(values.deep_view()),
{
    let ghost vm = values.deep_view();
    let mut out = String::new();
    push_char(&mut out, '{');
    let ghost mut body: Seq<char> = Seq::empty();
    let mut i: usize = 0;
    assert(out@ =~= seq!['{'] + body);
    assert(vm.take(0) =~= Seq::empty());
    while i < values.len()
        invariant
            i <= values.len(),
            vm == values.deep_view(),
            body == array_elements(vm.take(i as int)),
            out@ == seq!['{'] + body,
        decreases values.len() - i,
    {
        proof {
            lemma_take_step(vm, i as int);
            assert(vm[i as int] == values@[i as int].deep_view());
        }
        let ghost prev = body;
        if i > 0 {
            push_char(&mut out, ',');
        }
        push_element(&mut out, values[i].as_ref());
        proof {
            if i > 0 {
                body = prev + seq![','] + array_element(vm[i as int]);
            } else {
                body = array_element(vm[i as int]);
                assert(prev =~= Seq::empty());
            }
            assert(out@ =~= seq!['{'] + body);
        }
        i += 1;
    }
    proof {
        lemma_take_all(vm);
    }
    push_char(&mut out, '}');
    assert(out@ =~= array_text(vm));
    out
}

/// The values as elements of which none is NULL.
pub open spec fn all_present(values: Seq<Seq<char>>) -> Seq<Option<Seq<char>>> {
    values.map_values(|v: Seq<char>| Some(v))
}

/// Writes the literal of a PostgreSQL text array.
pub fn pg_text_array(values: &Vec<String>) -> (out: String)
    ensures
        out@ == array_text(all_present(values.deep_view())),
{
    let mut wrapped: Vec<Option<String>> = Vec::new();
    let mut i: usize = 0;
    while i < values.len()
        invariant
            i <= values.len(),
            wrapped.len() == i,
            forall|j: int| 0 <= j < i ==> (#[trigger] wrapped[j]).deep_view() == Some(values[j]@),
        decreases values.len() - i,
    {
        wrapped.push(Some(values[i].clone()));
        i += 1;
    }
    assert(wrapped.deep_view() =~= all_present(values.deep_view()));
    pg_nullable_text_array(&wrapped)
}

/// The row ids as the literal of an array of numbers.
pub open spec fn ids_text(ids: Seq<i64>) -> Seq<char> {
    seq!['{'] + ids_body(ids) + seq!['}']
}

/// The row ids, with commas between them.
pub open spec fn ids_body(ids: Seq<i64>) -> Seq<char>
    decreases ids.len(),
{
    if ids.len() == 0 {
        Seq::empty()
    } else if ids.len() == 1 {
        signed_number(ids[0] as int)
    } else {
        ids_body(ids.drop_last()) + seq![','] + signed_number(ids.last() as int)
    }
}

fn row_ids_text(ids: &Vec<i64>) -> (out: String)
    ensures
        out@ == ids_text(ids@),
{
    let mut out = String::new();
    push_char(&mut out, '{');
    let ghost mut body: Seq<char> = Seq::empty();
    let mut i: usize = 0;
    assert(out@ =~= seq!['{'] + body);
    assert(ids@.take(0) =~= Seq::empty());
    while i < ids.len()
        invariant
            i <= ids.len(),
            body == ids_body(ids@.take(i as int)),
            out@ == seq!['{'] + body,
        decreases ids.len() - i,
    {
        proof {
            lemma_take_step(ids@, i as int);
        }
        let ghost prev = body;
        if i > 0 {
            push_char(&mut out, ',');
        }
        let t = integer_text(ids[i]);
        out.append(t.as_str());
        proof {
            if i > 0 {
                body = prev + seq![','] + signed_number(ids@[i as int] as int);
            } else {
                body = signed_number(ids@[i as int] as int);
                assert(prev =~= Seq::empty());
            }
            assert(out@ =~= seq!['{'] + body);
        }
        i += 1;
    }
    proof {
        lemma_take_all(ids@);
    }
    push_char(&mut out, '}');
    assert(out@ =~= ids_text(ids@));
    out
}

/// The JSON text of a feedback: an object with the one member `error` or `info`.
pub open spec fn feedback_json(f: FeedbackModel) -> Seq<char> {
    match f {
        FeedbackModel::Error(m) => "{\"error\":"@ + json_string_text(m) + "}"@,
        FeedbackModel::Info(m) => "{\"info\":"@ + json_string_text(m) + "}"@,
    }
}

/// Writes a feedback as JSON.
pub fn feedback_text(f: &Feedback) -> (out: String)
    ensures
        out@ == feedback_json(f.deep_view()),
{
    match f {
        Feedback::Error(m) => {
            let mut out = String::from_str("{\"error\":");
            let t = json_string(m.as_str());
            out.append(t.as_str());
            out.append("}");
            out
        },
        Feedback::Info(m) => {
            let mut out = String::from_str("{\"info\":");
            let t = json_string(m.as_str());
            out.append(t.as_str());
            out.append("}");
            out
        },
    }
}

/// The JSON text of fields that may be absent.
pub open spec fn fields_cell(f: Option<FieldsModel>) -> Option<Seq<char>> {
    match f {
        Some(m) => Some(object_json(m)),
        None => None,
    }
}

/// The text of a bound that may be absent.
pub open spec fn bound_cell(b: Option<BoundModel>) -> Option<Seq<char>> {
    match b {
        Some(x) => Some(x.text),
        None => None,
    }
}

/// The number of columns of a plan.
pub const PLAN_COLUMNS: usize = 22;

/// What a row of the plan has in column `c` of the plan, counted from 0, as
/// text; nothing for NULL.
pub open spec fn plan_cell(row: PlanRowModel, c: int) -> Option<Seq<char>> {
    if c == 0 {
        Some(signed_number(row.plan_op_seq as int))
    } else if c == 1 {
        Some(signed_number(row.statement_seq as int))
    } else if c == 2 {
        if row.row_ids.len() == 0 {
            None
        } else {
            Some(ids_text(row.row_ids))
        }
    } else if c == 3 {
        Some(action_name(row.operation))
    } else if c == 4 {
        match row.update_effect {
            Some(e) => Some(effect_name(e)),
            None => None,
        }
    } else if c == 5 {
        row.causal_id
    } else if c == 6 {
        Some(
            if row.is_new_entity {
                "true"@
            } else {
                "false"@
            },
        )
    } else if c == 7 {
        fields_cell(row.entity_keys)
    } else if c == 8 {
        fields_cell(row.identity_keys)
    } else if c == 9 {
        fields_cell(row.lookup_keys)
    } else if c == 10 {
        match row.s_t_relation {
            Some(r) => Some(allen_name(r)),
            None => None,
        }
    } else if c == 11 {
        match row.b_a_relation {
            Some(r) => Some(allen_name(r)),
            None => None,
        }
    } else if c == 12 {
        bound_cell(row.old_valid_from)
    } else if c == 13 {
        bound_cell(row.old_valid_until)
    } else if c == 14 {
        bound_cell(row.new_valid_from)
    } else if c == 15 {
        bound_cell(row.new_valid_until)
    } else if c == 16 {
        row.old_valid_range
    } else if c == 17 {
        row.new_valid_range
    } else if c == 18 {
        fields_cell(row.data)
    } else if c == 19 {
        match row.feedback {
            Some(f) => Some(feedback_json(f)),
            None => None,
        }
    } else if c == 20 {
        fields_cell(row.trace)
    } else {
        Some(row.grouping_key)
    }
}

fn fields_text(f: &Option<Fields>) -> (r: Option<String>)
    ensures
        r.deep_view() == fields_cell(f.deep_view()),
{
    match f {
        Some(m) => Some(object_text(m)),
        None => None,
    }
}

fn bound_text(b: &Option<Bound>) -> (r: Option<String>)
    ensures
        r.deep_view() == bound_cell(b.deep_view()),
{
    match b {
        Some(x) => Some(x.text.clone()),
        None => None,
    }
}

/// What a row of the plan has in column `c` of the plan, as text.
pub fn cell(row: &PlanRow, c: usize) -> (r: Option<String>)
    ensures
        r.deep_view() == plan_cell(row.deep_view(), c as int),
{
    if c == 0 {
        Some(integer_text(row.plan_op_seq))
    } else if c == 1 {
        Some(integer_text(row.statement_seq as i64))
    } else if c == 2 {
        if row.row_ids.len() == 0 {
            None
        } else {
            Some(row_ids_text(&row.row_ids))
        }
    } else if c == 3 {
        Some(String::from_str(row.operation.as_str()))
    } else if c == 4 {
        match row.update_effect {
            Some(e) => Some(String::from_str(e.as_str())),
            None => None,
        }
    } else if c == 5 {
        crate::types::clone_text(&row.causal_id)
    } else if c == 6 {
        Some(
            if row.is_new_entity {
                String::from_str("true")
            } else {
                String::from_str("false")
            },
        )
    } else if c == 7 {
        fields_text(&row.entity_keys)
    } else if c == 8 {
        fields_text(&row.identity_keys)
    } else if c == 9 {
        fields_text(&row.lookup_keys)
    } else if c == 10 {
        match row.s_t_relation {
            Some(r) => Some(String::from_str(r.as_str())),
            None => None,
        }
    } else if c == 11 {
        match row.b_a_relation {
            Some(r) => Some(String::from_str(r.as_str())),
            None => None,
        }
    } else if c == 12 {
        bound_text(&row.old_valid_from)
    } else if c == 13 {
        bound_text(&row.old_valid_until)
    } else if c == 14 {
        bound_text(&row.new_valid_from)
    } else if c == 15 {
        bound_text(&row.new_valid_until)
    } else if c == 16 {
        crate::types::clone_text(&row.old_valid_range)
    } else if c == 17 {
        crate::types::clone_text(&row.new_valid_range)
    } else if c == 18 {
        fields_text(&row.data)
    } else if c == 19 {
        match &row.feedback {
            Some(f) => Some(feedback_text(f)),
            None => None,
        }
    } else if c == 20 {
        fields_text(&row.trace)
    } else {
        Some(row.grouping_key.clone())
    }
}

/// Column `c` of the plan as the literal of a text array, one element for
/// each row.
pub open spec fn plan_column(rows: Seq<PlanRowModel>, c: int) -> Seq<char> {
    array_text(rows.map_values(|r: PlanRowModel| plan_cell(r, c)))
}

/// The plan as one text array for each of its columns.
pub fn plan_columns(plan_rows: &Vec<PlanRow>) -> (columns: Vec<String>)
    ensures
        columns.len() == PLAN_COLUMNS,
        forall|c: int|
            0 <= c < PLAN_COLUMNS ==> (#[trigger] columns[c])@ == plan_column(plan_rows.deep_view(), c),
{
    let ghost rm = plan_rows.deep_view();
    let mut columns: Vec<String> = Vec::new();
    let mut c: usize = 0;
    while c < PLAN_COLUMNS
        invariant
            c <= PLAN_COLUMNS,
            rm == plan_rows.deep_view(),
            columns.len() == c,
            forall|k: int| 0 <= k < c ==> (#[trigger] columns[k])@ == plan_column(rm, k),
        decreases PLAN_COLUMNS - c,
    {
        let mut cells: Vec<Option<String>> = Vec::new();
        let mut i: usize = 0;
        while i < plan_rows.len()
            invariant
                i <= plan_rows.len(),
                rm == plan_rows.deep_view(),
                cells.len() == i,
                forall|j: int|
                    0 <= j < i ==> (#[trigger] cells[j]).deep_view() == plan_cell(rm[j], c as int),
            decreases plan_rows.len() - i,
        {
            assert(rm[i as int] == plan_rows@[i as int].deep_view());
            cells.push(cell(&plan_rows[i], c));
            i += 1;
        }
        assert(cells.deep_view() =~= rm.map_values(|r: PlanRowModel| plan_cell(r, c as int)));
        columns.push(pg_nullable_text_array(&cells));
        c += 1;
    }
    columns
}

} // verus!
