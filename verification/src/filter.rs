use crate::quoting::doubled;
use crate::config::same_names;
use crate::text::push_char;
use crate::types::{FilterParam, SourceRow, SourceRowModel};
use crate::value::{lookup, value_text};
use crate::views::{lemma_deep_empty, lemma_deep_push, lemma_take_all, lemma_take_step};
use vstd::prelude::*;

verus! {

/// What a [`FilterParam`] is to the contracts.
pub struct FilterParamModel {
    pub col_name: Seq<char>,
    pub pg_type: Seq<char>,
    pub param_index: usize,
    pub is_identity: bool,
    pub key_set_id: usize,
}

impl DeepView for FilterParam {
    type V = FilterParamModel;

    open spec fn deep_view(&self) -> FilterParamModel {
        FilterParamModel {
            col_name: self.col_name@,
            pg_type: self.pg_type@,
            param_index: self.param_index,
            is_identity: self.is_identity,
            key_set_id: self.key_set_id,
        }
    }
}

/// `s` with each double quote and each backslash doubled.
pub open spec fn literal_escaped(s: Seq<char>) -> Seq<char>
    decreases s.len(),
{
    if s.len() == 0 {
        s
    } else if s.last() == '"' || s.last() == '\\' {
        literal_escaped(s.drop_last()).push(s.last()).push(s.last())
    } else {
        literal_escaped(s.drop_last()).push(s.last())
    }
}

/// One element of an array literal: `NULL`, or the text between double quotes.
pub open spec fn literal_element(v: Option<Seq<char>>) -> Seq<char> {
    match v {
        Some(s) => seq!['"'] + literal_escaped(s) + seq!['"'],
        None => "NULL"@,
    }
}

/// The elements of an array literal, with commas between them.
pub open spec fn literal_elements(values: Seq<Option<Seq<char>>>) -> Seq<char>
    decreases values.len(),
{
    if values.len() == 0 {
        Seq::empty()
    } else if values.len() == 1 {
        literal_element(values[0])
    } else {
        literal_elements(values.drop_last()) + seq![','] + literal_element(values.last())
    }
}

/// The literal of a PostgreSQL array with these elements.
pub open spec fn array_literal(values: Seq<Option<Seq<char>>>) -> Seq<char> {
    seq!['{'] + literal_elements(values) + seq!['}']
}

fn push_literal_escaped(out: &mut String, s: &str)
    ensures
        final(out)@ == old(out)@ + literal_escaped(s@),
{
    let ghost start = out@;
    assert(out@ =~= start + literal_escaped(s@.take(0)));
    for c in it: s.chars()
        invariant
            it.seq() == s@,
            out@ == start + literal_escaped(s@.take(it.index() as int)),
    {
        let ghost k = it.index() as int;
        assert(s@.take(k + 1).drop_last() =~= s@.take(k));
        assert(s@.take(k + 1).last() == c);
        push_char(out, c);
        if c == '"' || c == '\\' {
            push_char(out, c);
        }
        assert(out@ =~= start + literal_escaped(s@.take(k + 1)));
    }
    assert(s@.take(s@.len() as int) =~= s@);
}

/// Writes the literal of a PostgreSQL array.
pub fn format_pg_array_literal(values: &Vec<Option<String>>) -> (out: String)
    ensures
        out@ == array_literal(values.deep_view()),
{
    let ghost vm = values.deep_view();
    let mut out = String::new();
    push_char(&mut out, '{');
    let ghost mut body: Seq<char> = Seq::empty();
    let mut i: usize = 0;
    assert(out@ =~= seq!['{'] + body);
    assert(vm.take(0) =~= Seq::empty());
    while i < values.len()
        invariant
            i <= values.len(),
            vm == values.deep_view(),
            body == literal_elements(vm.take(i as int)),
            out@ == seq!['{'] + body,
        decreases values.len() - i,
    {
        proof {
            lemma_take_step(vm, i as int);
            assert(vm[i as int] == values@[i as int].deep_view());
        }
        let ghost prev = body;
        let ghost before_elem = out@;
        if i > 0 {
            push_char(&mut out, ',');
        }
        let ghost with_comma = out@;
        match &values[i] {
            Some(s) => {
                push_char(&mut out, '"');
                push_literal_escaped(&mut out, s.as_str());
                push_char(&mut out, '"');
                assert(out@ =~= with_comma + literal_element(vm[i as int]));
            },
            None => {
                out.append("NULL");
            },
        }
        proof {
            if i > 0 {
                body = prev + seq![','] + literal_element(vm[i as int]);
            } else {
                body = literal_element(vm[i as int]);
                assert(prev =~= Seq::empty());
            }
            assert(out@ =~= seq!['{'] + body);
        }
        i += 1;
    }
    proof {
        lemma_take_all(vm);
    }
    push_char(&mut out, '}');
    assert(out@ =~= array_literal(vm));
    out
}

/// What a source row has under a column by which the target is filtered:
/// looked for among its identity keys and else its lookup keys; nothing for
/// NULL and where the row lacks the column.
pub open spec fn filter_value(row: SourceRowModel, col: Seq<char>) -> Option<Seq<char>> {
    let held = match lookup(row.identity_keys, col) {
        Some(v) => Some(v),
        None => lookup(row.lookup_keys, col),
    };
    match held {
        Some(v) => if v is Null {
            None
        } else {
            Some(value_text(v))
        },
        None => None,
    }
}

/// The columns of the parameters of key set `id`, in order.
pub open spec fn key_set_columns(params: Seq<FilterParamModel>, id: usize) -> Seq<Seq<char>>
    decreases params.len(),
{
    if params.len() == 0 {
        Seq::empty()
    } else if params.last().key_set_id == id {
        key_set_columns(params.drop_last(), id).push(params.last().col_name)
    } else {
        key_set_columns(params.drop_last(), id)
    }
}

/// The parameter indexes of the parameters of key set `id`, in order.
pub open spec fn key_set_indexes(params: Seq<FilterParamModel>, id: usize) -> Seq<usize>
    decreases params.len(),
{
    if params.len() == 0 {
        Seq::empty()
    } else if params.last().key_set_id == id {
        key_set_indexes(params.drop_last(), id).push(params.last().param_index)
    } else {
        key_set_indexes(params.drop_last(), id)
    }
}

/// The place of the first of `indexes` that is `index`, or their number.
pub open spec fn place_of(indexes: Seq<usize>, index: usize) -> int
    decreases indexes.len(),
{
    if indexes.len() == 0 {
        0
    } else if indexes[0] == index {
        0
    } else {
        1 + place_of(indexes.drop_first(), index)
    }
}

/// What a row has under each of the columns.
pub open spec fn tuple_of(row: SourceRowModel, cols: Seq<Seq<char>>) -> Seq<Option<Seq<char>>> {
    cols.map_values(|c: Seq<char>| filter_value(row, c))
}

/// The text that stands for NULL where tuples are compared.
pub open spec fn null_mark() -> Seq<char> {
    seq!['\0', 'N', 'U', 'L', 'L', '\0']
}

/// A tuple as it is compared with others.
pub open spec fn tuple_key(t: Seq<Option<Seq<char>>>) -> Seq<Seq<char>> {
    t.map_values(
        |v: Option<Seq<char>>|
            match v {
                Some(s) => s,
                None => null_mark(),
            },
    )
}

/// Whether one of the tuples compares equal to `t`.
pub open spec fn has_tuple(tuples: Seq<Seq<Option<Seq<char>>>>, t: Seq<Option<Seq<char>>>) -> bool {
    exists|i: int| 0 <= i < tuples.len() && tuple_key(#[trigger] tuples[i]) == tuple_key(t)
}

/// The tuples that the rows have under the columns, each once, in the
/// order of the rows.
pub open spec fn distinct_tuples(rows: Seq<SourceRowModel>, cols: Seq<Seq<char>>) -> Seq<
    Seq<Option<Seq<char>>>,
>
    decreases rows.len(),
{
    if rows.len() == 0 {
        Seq::empty()
    } else {
        let rest = distinct_tuples(rows.drop_last(), cols);
        let t = tuple_of(rows.last(), cols);
        if has_tuple(rest, t) {
            rest
        } else {
            rest.push(t)
        }
    }
}

/// What the tuples have at place `j`; nothing where a tuple is too short.
pub open spec fn tuple_column(tuples: Seq<Seq<Option<Seq<char>>>>, j: int) -> Seq<Option<Seq<char>>> {
    tuples.map_values(
        |t: Seq<Option<Seq<char>>>|
            if 0 <= j < t.len() {
                t[j]
            } else {
                None
            },
    )
}

/// The value of the parameter at place `i`: the literal of the array of
/// what the distinct tuples of its key set have under its column.
pub open spec fn filter_literal(rows: Seq<SourceRowModel>, params: Seq<FilterParamModel>, i: int) -> Seq<
    char,
> {
    let id = params[i].key_set_id;
    array_literal(
        tuple_column(
            distinct_tuples(rows, key_set_columns(params, id)),
            place_of(key_set_indexes(params, id), params[i].param_index),
        ),
    )
}

fn value_for_filter(row: &SourceRow, col: &str) -> (r: Option<String>)
    ensures
        r.deep_view() == filter_value(row.deep_view(), col@),
{
    let held = match row.identity_keys.get(col) {
        Some(v) => Some(v),
        None => row.lookup_keys.get(col),
    };
    match held {
        Some(v) => if v.is_null() {
            None
        } else {
            Some(v.render())
        },
        None => None,
    }
}

fn key_of_value(v: &Option<String>) -> (r: String)
    ensures
        r@ == (match v.deep_view() {
            Some(s) => s,
            None => null_mark(),
        }),
{
    match v {
        Some(s) => s.clone(),
        None => {
            let mut out = String::new();
            push_char(&mut out, '\0');
            push_char(&mut out, 'N');
            push_char(&mut out, 'U');
            push_char(&mut out, 'L');
            push_char(&mut out, 'L');
            push_char(&mut out, '\0');
            assert(out@ =~= null_mark());
            out
        },
    }
}

/// The distinct tuples that the rows have under the columns.
fn tuples_under(source_rows: &Vec<SourceRow>, cols: &Vec<String>) -> (tuples: Vec<Vec<Option<String>>>)
    ensures
        tuples.deep_view() == distinct_tuples(source_rows.deep_view(), cols.deep_view()),
{
    let ghost rm = source_rows.deep_view();
    let ghost cm = cols.deep_view();
    let mut tuples: Vec<Vec<Option<String>>> = Vec::new();
    let mut keys: Vec<Vec<String>> = Vec::new();
    let mut i: usize = 0;
    proof {
        lemma_deep_empty(tuples);
        assert(rm.take(0) =~= Seq::empty());
    }
    while i < source_rows.len()
        invariant
            i <= source_rows.len(),
            rm == source_rows.deep_view(),
            cm == cols.deep_view(),
            tuples.deep_view() == distinct_tuples(rm.take(i as int), cm),
            keys.len() == tuples.len(),
            forall|j: int|
                0 <= j < keys.len() ==> (#[trigger] keys[j]).deep_view() == tuple_key(
                    tuples.deep_view()[j],
                ),
        decreases source_rows.len() - i,
    {
        proof {
            lemma_take_step(rm, i as int);
            assert(rm[i as int] == source_rows@[i as int].deep_view());
        }
        let mut tuple: Vec<Option<String>> = Vec::new();
        let mut key: Vec<String> = Vec::new();
        let mut c: usize = 0;
        while c < cols.len()
            invariant
                c <= cols.len(),
                i < source_rows.len(),
                rm == source_rows.deep_view(),
                cm == cols.deep_view(),
                tuple.len() == c,
                key.len() == c,
                forall|j: int|
                    0 <= j < c ==> (#[trigger] tuple[j]).deep_view() == filter_value(
                        rm[i as int],
                        cm[j],
                    ),
                forall|j: int|
                    0 <= j < c ==> (#[trigger] key[j])@ == (match tuple[j].deep_view() {
                        Some(s) => s,
                        None => null_mark(),
                    }),
            decreases cols.len() - c,
        {
            assert(rm[i as int] == source_rows@[i as int].deep_view());
            let v = value_for_filter(&source_rows[i], cols[c].as_str());
            key.push(key_of_value(&v));
            tuple.push(v);
            c += 1;
        }
        let ghost tm = tuple.deep_view();
        proof {
            assert(tm =~= tuple_of(rm[i as int], cm));
            assert(key.deep_view() =~= tuple_key(tm));
        }
        let ghost found = tuples.deep_view();
        let mut seen = false;
        let mut j: usize = 0;
        while j < keys.len()
            invariant
                j <= keys.len(),
                keys.len() == tuples.len(),
                found == tuples.deep_view(),
                key.deep_view() == tuple_key(tm),
                forall|k: int|
                    0 <= k < keys.len() ==> (#[trigger] keys[k]).deep_view() == tuple_key(found[k]),
                seen ==> has_tuple(found, tm),
                !seen ==> forall|k: int| 0 <= k < j ==> tuple_key(#[trigger] found[k]) != tuple_key(tm),
            decreases keys.len() - j,
        {
            if same_names(&keys[j], &key) {
                assert(tuple_key(found[j as int]) == tuple_key(tm));
                seen = true;
            }
            j += 1;
        }
        if !seen {
            let ghost before_vec = tuples;
            keys.push(key);
            tuples.push(tuple);
            proof {
                lemma_deep_push(before_vec, tuples, tuple);
            }
        }
        i += 1;
    }
    proof {
        lemma_take_all(rm);
    }
    tuples
}

/// For each parameter of the filter by which the target is read the array
/// of the values that the source rows have for it.
pub fn extract_filter_values(source_rows: &Vec<SourceRow>, filter_params: &Vec<FilterParam>) -> (values: Vec<String>)
    ensures
        values.len() == filter_params.len(),
        forall|i: int|
            0 <= i < filter_params.len() ==> (#[trigger] values[i])@ == filter_literal(
                source_rows.deep_view(),
                filter_params.deep_view(),
                i,
            ),
{
    let ghost rm = source_rows.deep_view();
    let ghost pm = filter_params.deep_view();
    let mut values: Vec<String> = Vec::new();
    let mut i: usize = 0;
    while i < filter_params.len()
        invariant
            i <= filter_params.len(),
            rm == source_rows.deep_view(),
            pm == filter_params.deep_view(),
            values.len() == i,
            forall|j: int| 0 <= j < i ==> (#[trigger] values[j])@ == filter_literal(rm, pm, j),
        decreases filter_params.len() - i,
    {
        assert(pm[i as int] == filter_params@[i as int].deep_view());
        let id = filter_params[i].key_set_id;
        let index = filter_params[i].param_index;
        // The columns of the key set of this parameter, and its place among them.
        let mut cols: Vec<String> = Vec::new();
        let mut place: usize = 0;
        let mut placed = false;
        let mut k: usize = 0;
        let ghost mut indexes: Seq<usize> = Seq::empty();
        proof {
            lemma_deep_empty(cols);
            assert(pm.take(0) =~= Seq::empty());
        }
        while k < filter_params.len()
            invariant
                k <= filter_params.len(),
                pm == filter_params.deep_view(),
                cols.deep_view() == key_set_columns(pm.take(k as int), id),
                indexes == key_set_indexes(pm.take(k as int), id),
                cols.len() == indexes.len(),
                indexes.len() <= k,
                place <= indexes.len(),
                place == place_of(indexes, index),
                placed == (place < indexes.len()),
            decreases filter_params.len() - k,
        {
            proof {
                lemma_take_step(pm, k as int);
                assert(pm[k as int] == filter_params@[k as int].deep_view());
            }
            if filter_params[k].key_set_id == id {
                let ghost before_vec = cols;
                let copy = filter_params[k].col_name.clone();
                cols.push(copy);
                proof {
                    lemma_deep_push(before_vec, cols, copy);
                    lemma_place_of_push(indexes, index, filter_params[k as int].param_index);
                    indexes = indexes.push(filter_params[k as int].param_index);
                }
                if !placed {
                    if filter_params[k].param_index == index {
                        placed = true;
                    } else {
                        place += 1;
                    }
                }
            }
            k += 1;
        }
        proof {
            lemma_take_all(pm);
        }
        let tuples = tuples_under(source_rows, &cols);
        let ghost tm = tuples.deep_view();
        let mut column: Vec<Option<String>> = Vec::new();
        let mut t: usize = 0;
        while t < tuples.len()
            invariant
                t <= tuples.len(),
                tm == tuples.deep_view(),
                column.len() == t,
                forall|j: int|
                    0 <= j < t ==> (#[trigger] column[j]).deep_view() == tuple_column(
                        tm,
                        place as int,
                    )[j],
            decreases tuples.len() - t,
        {
            assert(tm[t as int] == tuples@[t as int].deep_view());
            let v = if place < tuples[t].len() {
                assert(tm[t as int][place as int] == tuples@[t as int]@[place as int].deep_view());
                tuples[t][place].clone()
            } else {
                None
            };
            column.push(v);
            t += 1;
        }
        assert(column.deep_view() =~= tuple_column(tm, place as int));
        values.push(format_pg_array_literal(&column));
        i += 1;
    }
    values
}

/// The place of an index among indexes with one more behind them.
proof fn lemma_place_of_push(indexes: Seq<usize>, index: usize, more: usize)
    ensures
        place_of(indexes, index) <= indexes.len(),
        place_of(indexes.push(more), index) == (if place_of(indexes, index) < indexes.len() {
            place_of(indexes, index)
        } else if more == index {
            indexes.len() as int
        } else {
            indexes.len() as int + 1
        }),
    decreases indexes.len(),
{
    let longer = indexes.push(more);
    if indexes.len() == 0 {
        assert(longer.drop_first() =~= Seq::empty());
        assert(longer[0] == more);
        assert(place_of(longer.drop_first(), index) == 0);
    } else {
        assert(longer.drop_first() =~= indexes.drop_first().push(more));
        assert(longer[0] == indexes[0]);
        lemma_place_of_push(indexes.drop_first(), index, more);
    }
}

} // verus!
