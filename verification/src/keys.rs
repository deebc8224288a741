use crate::sorting::{sort_by, sort_vec};
use crate::text::{join, join_spec, lex_lt, text_lt};
use crate::types::{ContextModel, PlannerContext, SourceRow, SourceRowModel};
use crate::value::{lookup, value_text, Fields, FieldsModel, Value, ValueModel};
use crate::views::{lemma_deep_empty, lemma_deep_push, lemma_take_all, lemma_take_step};
use vstd::prelude::*;

verus! {

/// The lexicographic order of texts, as a relation.
pub open spec fn text_order() -> spec_fn(Seq<char>, Seq<char>) -> bool {
    |a: Seq<char>, b: Seq<char>| lex_lt(a, b)
}

/// `name=value`, for one entry of a key.
pub open spec fn pair_text(name: Seq<char>, v: ValueModel) -> Seq<char> {
    name + "="@ + value_text(v)
}

/// For each of `cols` that `m` holds with a value that is not NULL, its
/// `name=value`, in the order of `cols`.
pub open spec fn key_parts(m: FieldsModel, cols: Seq<Seq<char>>) -> Seq<Seq<char>>
    decreases cols.len(),
{
    if cols.len() == 0 {
        Seq::empty()
    } else {
        let rest = key_parts(m, cols.drop_last());
        match lookup(m, cols.last()) {
            Some(v) => if v is Null {
                rest
            } else {
                rest.push(pair_text(cols.last(), v))
            },
            None => rest,
        }
    }
}

/// The key that `m` has under the columns `cols`: empty where all of them
/// are NULL or missing.
pub open spec fn key_for_cols(m: FieldsModel, cols: Seq<Seq<char>>) -> Seq<char> {
    join_spec(key_parts(m, cols), "__"@)
}

/// `name=value` for each entry of `m` that is not NULL, in the order of `m`.
pub open spec fn entry_parts(m: FieldsModel) -> Seq<Seq<char>>
    decreases m.len(),
{
    if m.len() == 0 {
        Seq::empty()
    } else if m.last().1 is Null {
        entry_parts(m.drop_last())
    } else {
        entry_parts(m.drop_last()).push(pair_text(m.last().0, m.last().1))
    }
}

/// The key that stands for all of `m`: its `name=value` texts in
/// lexicographic order, joined with `__`.
pub open spec fn map_key(m: FieldsModel) -> Seq<char> {
    join_spec(sort_by(entry_parts(m), text_order()), "__"@)
}

/// The text of column `c` in `m`, `_NULL_` where `m` lacks it.
pub open spec fn column_text(m: FieldsModel, c: Seq<char>) -> Seq<char> {
    match lookup(m, c) {
        Some(v) => value_text(v),
        None => "_NULL_"@,
    }
}

/// The texts of the columns `cols` in `m`.
pub open spec fn column_texts(m: FieldsModel, cols: Seq<Seq<char>>) -> Seq<Seq<char>> {
    cols.map_values(|c: Seq<char>| column_text(m, c))
}

/// The columns `cols` of `m`, joined with `__`.
pub open spec fn columns_key(m: FieldsModel, cols: Seq<Seq<char>>) -> Seq<char> {
    join_spec(column_texts(m, cols), "__"@)
}

/// Whether `m` holds none of `cols` with a value that is not NULL.
pub open spec fn all_null(m: FieldsModel, cols: Seq<Seq<char>>) -> bool {
    forall|i: int|
        0 <= i < cols.len() ==> (lookup(m, #[trigger] cols[i]) is None || lookup(m, cols[i])->0 is Null)
}

/// The text of a value as PostgreSQL writes it inside a `jsonb`.
pub open spec fn pg_value_text(v: ValueModel) -> Seq<char> {
    match v {
        ValueModel::Null => "null"@,
        ValueModel::Bool(b) => if b {
            "true"@
        } else {
            "false"@
        },
        ValueModel::Number(t) => t,
        ValueModel::Text(t) => "\""@ + t + "\""@,
    }
}

/// `"name": value`, for each entry of `m`.
pub open spec fn pg_members(m: FieldsModel) -> Seq<Seq<char>> {
    m.map_values(|e: (Seq<char>, ValueModel)| "\""@ + e.0 + "\": "@ + pg_value_text(e.1))
}

/// The fields as PostgreSQL writes a `jsonb` object, with a blank after
/// each colon and comma.
pub open spec fn pg_object_text(m: FieldsModel) -> Seq<char> {
    "{"@ + join_spec(pg_members(m), ", "@) + "}"@
}

/// The grouping key of a source row: for a row of an existing entity the
/// identity columns of that entity; for a new one the founding id where
/// founding ids are in use, else its natural key, else its identity columns
/// if one of them is not NULL, else its causal id.
pub open spec fn grouping_key_of(
    sr: SourceRowModel,
    is_new: bool,
    discovered: Option<FieldsModel>,
    canonical: Option<FieldsModel>,
    ctx: ContextModel,
) -> Seq<char> {
    if !is_new {
        let id_map = match discovered {
            Some(d) => d,
            None => sr.identity_keys,
        };
        "existing_entity__"@ + columns_key(id_map, ctx.identity_columns)
    } else if ctx.founding {
        "new_entity__"@ + sr.causal_id
    } else {
        let nk = match canonical {
            Some(c) => c,
            None => sr.lookup_keys,
        };
        if nk.len() > 0 {
            "new_entity__"@ + columns_key(nk, ctx.all_lookup_cols)
        } else if all_null(sr.identity_keys, ctx.identity_columns) {
            "new_entity__"@ + sr.causal_id
        } else {
            "new_entity__"@ + columns_key(sr.identity_keys, ctx.identity_columns)
        }
    }
}

/// `name=value`.
pub fn pair(name: &str, v: &Value) -> (out: String)
    ensures
        out@ == pair_text(name@, v.deep_view()),
{
    let mut out = String::from_str(name);
    out.append("=");
    let t = v.render();
    out.append(t.as_str());
    out
}

/// The key that `map` has under the columns `cols`.
pub fn build_key_for_cols(map: &Fields, cols: &Vec<String>) -> (out: String)
    ensures
        out@ == key_for_cols(map.deep_view(), cols.deep_view()),
{
    let ghost m = map.deep_view();
    let ghost cs = cols.deep_view();
    let mut parts: Vec<String> = Vec::new();
    let mut i: usize = 0;
    proof {
        lemma_deep_empty(parts);
    }
    while i < cols.len()
        invariant
            i <= cols.len(),
            cs == cols.deep_view(),
            m == map.deep_view(),
            parts.deep_view() == key_parts(m, cs.take(i as int)),
        decreases cols.len() - i,
    {
        proof {
            lemma_take_step(cs, i as int);
        }
        match map.get(cols[i].as_str()) {
            Some(v) => {
                if !v.is_null() {
                    let ghost before = parts;
                    let p = pair(cols[i].as_str(), v);
                    parts.push(p);
                    proof {
                        lemma_deep_push(before, parts, p);
                    }
                }
            },
            None => {},
        }
        i += 1;
    }
    proof {
        lemma_take_all(cs);
    }
    join(&parts, "__")
}

/// The key that stands for all of `map`.
pub fn json_map_to_key(map: &Fields) -> (out: String)
    ensures
        out@ == map_key(map.deep_view()),
{
    let ghost m = map.deep_view();
    let mut parts: Vec<String> = Vec::new();
    let mut i: usize = 0;
    proof {
        lemma_deep_empty(parts);
    }
    while i < map.len()
        invariant
            i <= m.len(),
            m == map.deep_view(),
            parts.deep_view() == entry_parts(m.take(i as int)),
        decreases m.len() - i,
    {
        proof {
            lemma_take_step(m, i as int);
        }
        if !map.value_at(i).is_null() {
            let ghost before = parts;
            let p = pair(map.key_at(i).as_str(), map.value_at(i));
            parts.push(p);
            proof {
                lemma_deep_push(before, parts, p);
            }
        }
        i += 1;
    }
    proof {
        lemma_take_all(m);
    }
    let less = |a: &String, b: &String| -> (r: bool)
        ensures
            r == lex_lt(a@, b@),
        { text_lt(a.as_str(), b.as_str()) };
    let sorted = sort_vec(parts, less, Ghost(text_order()));
    join(&sorted, "__")
}

/// The texts of the columns `cols` in `map`.
pub fn column_values(map: &Fields, cols: &Vec<String>) -> (out: Vec<String>)
    ensures
        out.deep_view() == column_texts(map.deep_view(), cols.deep_view()),
{
    let ghost m = map.deep_view();
    let ghost cs = cols.deep_view();
    let mut out: Vec<String> = Vec::new();
    let mut i: usize = 0;
    while i < cols.len()
        invariant
            i <= cols.len(),
            cs == cols.deep_view(),
            m == map.deep_view(),
            out.len() == i,
            forall|j: int| 0 <= j < i ==> out[j]@ == column_text(m, cs[j]),
        decreases cols.len() - i,
    {
        let t = match map.get(cols[i].as_str()) {
            Some(v) => v.render(),
            None => String::from_str("_NULL_"),
        };
        out.push(t);
        i += 1;
    }
    assert(out.deep_view() =~= column_texts(m, cs));
    out
}

/// The columns `cols` of `map`, joined with `__`.
pub fn build_columns_key(map: &Fields, cols: &Vec<String>) -> (out: String)
    ensures
        out@ == columns_key(map.deep_view(), cols.deep_view()),
{
    let parts = column_values(map, cols);
    join(&parts, "__")
}

/// Whether `map` holds none of `cols` with a value that is not NULL.
pub fn columns_all_null(map: &Fields, cols: &Vec<String>) -> (r: bool)
    ensures
        r == all_null(map.deep_view(), cols.deep_view()),
{
    let ghost m = map.deep_view();
    let ghost cs = cols.deep_view();
    let mut i: usize = 0;
    while i < cols.len()
        invariant
            i <= cols.len(),
            cs == cols.deep_view(),
            m == map.deep_view(),
            forall|j: int|
                0 <= j < i ==> (lookup(m, #[trigger] cs[j]) is None || lookup(m, cs[j])->0 is Null),
        decreases cols.len() - i,
    {
        match map.get(cols[i].as_str()) {
            Some(v) => {
                if !v.is_null() {
                    assert(!(lookup(m, cs[i as int]) is None || lookup(m, cs[i as int])->0 is Null));
                    return false;
                }
            },
            None => {},
        }
        i += 1;
    }
    true
}

/// The text of a value as PostgreSQL writes it inside a `jsonb`.
fn pg_value(v: &Value) -> (out: String)
    ensures
        out@ == pg_value_text(v.deep_view()),
{
    match v {
        Value::Null => String::from_str("null"),
        Value::Bool(b) => if *b {
            String::from_str("true")
        } else {
            String::from_str("false")
        },
        Value::Number(t) => t.clone(),
        Value::Text(t) => {
            let mut out = String::from_str("\"");
            out.append(t.as_str());
            out.append("\"");
            out
        },
    }
}

/// The fields as PostgreSQL writes a `jsonb` object.
pub fn json_to_pg_text(map: &Fields) -> (out: String)
    ensures
        out@ == pg_object_text(map.deep_view()),
{
    let ghost m = map.deep_view();
    let mut parts: Vec<String> = Vec::new();
    let mut i: usize = 0;
    while i < map.len()
        invariant
            i <= m.len(),
            m == map.deep_view(),
            parts.len() == i,
            forall|j: int| 0 <= j < i ==> parts[j]@ == pg_members(m)[j],
        decreases m.len() - i,
    {
        let mut p = String::from_str("\"");
        p.append(map.key_at(i).as_str());
        p.append("\": ");
        let v = pg_value(map.value_at(i));
        p.append(v.as_str());
        parts.push(p);
        i += 1;
    }
    assert(parts.deep_view() =~= pg_members(m));
    let body = join(&parts, ", ");
    let mut out = String::from_str("{");
    out.append(body.as_str());
    out.append("}");
    out
}

/// The grouping key of a source row.
pub fn build_grouping_key(
    sr: &SourceRow,
    is_new: bool,
    discovered_identity: &Option<Fields>,
    canonical_nk: &Option<Fields>,
    ctx: &PlannerContext,
) -> (out: String)
    ensures
        out@ == grouping_key_of(
            sr.deep_view(),
            is_new,
            discovered_identity.deep_view(),
            canonical_nk.deep_view(),
            ctx.deep_view(),
        ),
{
    if !is_new {
        let id_map = match discovered_identity {
            Some(d) => d,
            None => &sr.identity_keys,
        };
        let key = build_columns_key(id_map, &ctx.identity_columns);
        let mut out = String::from_str("existing_entity__");
        out.append(key.as_str());
        out
    } else if ctx.is_founding_mode() {
        let mut out = String::from_str("new_entity__");
        out.append(sr.causal_id.as_str());
        out
    } else {
        let nk = match canonical_nk {
            Some(c) => c,
            None => &sr.lookup_keys,
        };
        let mut out = String::from_str("new_entity__");
        if !nk.is_empty() {
            let key = build_columns_key(nk, &ctx.all_lookup_cols);
            out.append(key.as_str());
        } else if columns_all_null(&sr.identity_keys, &ctx.identity_columns) {
            out.append(sr.causal_id.as_str());
        } else {
            let key = build_columns_key(&sr.identity_keys, &ctx.identity_columns);
            out.append(key.as_str());
        }
        out
    }
}

} // verus!
