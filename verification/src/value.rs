use crate::text::{lex_lt, same_text, text_lt};
use crate::views::{
    lemma_deep_empty, lemma_deep_insert, lemma_deep_push, lemma_deep_set, lemma_take_all,
    lemma_take_step,
};
use vstd::prelude::*;

verus! {

/// A column value: SQL NULL or a scalar.
#[derive(Debug, PartialEq, Eq)]
pub enum Value {
    Null,
    Bool(bool),
    /// A number, held as its decimal text.
    Number(String),
    Text(String),
}

/// What a [`Value`] is to the contracts.
pub enum ValueModel {
    Null,
    Bool(bool),
    Number(Seq<char>),
    Text(Seq<char>),
}

impl DeepView for Value {
    type V = ValueModel;

    open spec fn deep_view(&self) -> ValueModel {
        match self {
            Value::Null => ValueModel::Null,
            Value::Bool(b) => ValueModel::Bool(*b),
            Value::Number(t) => ValueModel::Number(t@),
            Value::Text(t) => ValueModel::Text(t@),
        }
    }
}

/// The text that stands for a value inside a key: the text itself for
/// numbers and texts, `true` or `false`, and `_NULL_` for NULL.
pub open spec fn value_text(v: ValueModel) -> Seq<char> {
    match v {
        ValueModel::Null => "_NULL_"@,
        ValueModel::Bool(b) => if b {
            "true"@
        } else {
            "false"@
        },
        ValueModel::Number(t) => t,
        ValueModel::Text(t) => t,
    }
}

impl Clone for Value {
    fn clone(&self) -> (r: Self)
        ensures
            r == *self,
    {
        match self {
            Value::Null => Value::Null,
            Value::Bool(b) => Value::Bool(*b),
            Value::Number(t) => Value::Number(t.clone()),
            Value::Text(t) => Value::Text(t.clone()),
        }
    }
}

impl Value {
    pub fn is_null(&self) -> (r: bool)
        ensures
            r == (self.deep_view() is Null),
    {
        match self {
            Value::Null => true,
            _ => false,
        }
    }

    /// Whether the two values are of one kind and hold the same.
    pub fn same(&self, other: &Value) -> (r: bool)
        ensures
            r == (self.deep_view() == other.deep_view()),
    {
        match (self, other) {
            (Value::Null, Value::Null) => true,
            (Value::Bool(a), Value::Bool(b)) => *a == *b,
            (Value::Number(a), Value::Number(b)) => same_text(a.as_str(), b.as_str()),
            (Value::Text(a), Value::Text(b)) => same_text(a.as_str(), b.as_str()),
            _ => false,
        }
    }

    /// The text that stands for the value inside a key.
    pub fn render(&self) -> (r: String)
        ensures
            r@ == value_text(self.deep_view()),
    {
        match self {
            Value::Null => String::from_str("_NULL_"),
            Value::Bool(b) => if *b {
                String::from_str("true")
            } else {
                String::from_str("false")
            },
            Value::Number(t) => t.clone(),
            Value::Text(t) => t.clone(),
        }
    }
}

/// What a [`Fields`] is to the contracts: its entries, in the order of their names.
pub type FieldsModel = Seq<(Seq<char>, ValueModel)>;

/// The value stored under `key`, if there is one.
pub open spec fn lookup(m: FieldsModel, key: Seq<char>) -> Option<ValueModel>
    decreases m.len(),
{
    if m.len() == 0 {
        None
    } else if m[0].0 == key {
        Some(m[0].1)
    } else {
        lookup(m.drop_first(), key)
    }
}

/// The entries after `value` was stored under `key`: an entry of that name
/// is replaced, a new one goes to its place in the order of names.
pub open spec fn put(m: FieldsModel, key: Seq<char>, value: ValueModel) -> FieldsModel
    decreases m.len(),
{
    if m.len() == 0 {
        seq![(key, value)]
    } else if m[0].0 == key {
        seq![(key, value)] + m.drop_first()
    } else if lex_lt(key, m[0].0) {
        seq![(key, value)] + m
    } else {
        seq![m[0]] + put(m.drop_first(), key, value)
    }
}

/// The names stand in strictly rising order.
pub open spec fn ordered(m: FieldsModel) -> bool {
    forall|i: int, j: int| 0 <= i < j < m.len() ==> lex_lt(#[trigger] m[i].0, #[trigger] m[j].0)
}

/// Every name of `m` comes after `key`.
pub open spec fn all_after(m: FieldsModel, key: Seq<char>) -> bool {
    forall|i: int| 0 <= i < m.len() ==> lex_lt(key, #[trigger] m[i].0)
}

/// The names of `put(m, key, value)` are those of `m` and `key`.
pub proof fn lemma_put_names(m: FieldsModel, key: Seq<char>, value: ValueModel, i: int)
    requires
        0 <= i < put(m, key, value).len(),
    ensures
        put(m, key, value)[i].0 == key || exists|j: int|
            0 <= j < m.len() && #[trigger] m[j].0 == put(m, key, value)[i].0,
    decreases m.len(),
{
    let out = put(m, key, value);
    if m.len() == 0 {
    } else if m[0].0 == key {
        if i > 0 {
            assert(out[i] == m.drop_first()[i - 1]);
            assert(m[i].0 == out[i].0);
        }
    } else if lex_lt(key, m[0].0) {
        if i > 0 {
            assert(out[i] == m[i - 1]);
            assert(m[i - 1].0 == out[i].0);
        }
    } else {
        if i == 0 {
            assert(out[0] == m[0]);
            assert(m[0].0 == out[0].0);
        } else {
            let rest = put(m.drop_first(), key, value);
            assert(out[i] == rest[i - 1]);
            lemma_put_names(m.drop_first(), key, value, i - 1);
            if rest[i - 1].0 != key {
                let j = choose|j: int|
                    0 <= j < m.drop_first().len() && #[trigger] m.drop_first()[j].0 == rest[i - 1].0;
                assert(m[j + 1].0 == out[i].0);
            }
        }
    }
}

/// Storing a value keeps the names in strictly rising order: fields are a
/// map from names to values, whatever the order in which they were stored.
pub proof fn lemma_put_keeps_order(m: FieldsModel, key: Seq<char>, value: ValueModel)
    requires
        ordered(m),
    ensures
        ordered(put(m, key, value)),
    decreases m.len(),
{
    let out = put(m, key, value);
    if m.len() == 0 {
    } else if m[0].0 == key {
        assert forall|i: int, j: int| 0 <= i < j < out.len() implies lex_lt(
            #[trigger] out[i].0,
            #[trigger] out[j].0,
        ) by {
            assert(out[j] == m[j]);
            if i > 0 {
                assert(out[i] == m[i]);
            } else {
                assert(lex_lt(m[0].0, m[j].0));
            }
        }
    } else if lex_lt(key, m[0].0) {
        assert forall|i: int, j: int| 0 <= i < j < out.len() implies lex_lt(
            #[trigger] out[i].0,
            #[trigger] out[j].0,
        ) by {
            assert(out[j] == m[j - 1]);
            if i > 0 {
                assert(out[i] == m[i - 1]);
            } else if j - 1 > 0 {
                assert(lex_lt(m[0].0, m[j - 1].0));
                crate::text::lemma_lex_transitive(key, m[0].0, m[j - 1].0);
            }
        }
    } else {
        let tail = m.drop_first();
        assert forall|i: int, j: int| 0 <= i < j < tail.len() implies lex_lt(
            #[trigger] tail[i].0,
            #[trigger] tail[j].0,
        ) by {
            assert(tail[i] == m[i + 1] && tail[j] == m[j + 1]);
        }
        lemma_put_keeps_order(tail, key, value);
        let rest = put(tail, key, value);
        crate::text::lemma_lex_total(key, m[0].0);
        assert forall|i: int, j: int| 0 <= i < j < out.len() implies lex_lt(
            #[trigger] out[i].0,
            #[trigger] out[j].0,
        ) by {
            assert(out[j] == rest[j - 1]);
            if i > 0 {
                assert(out[i] == rest[i - 1]);
            } else {
                assert(out[0] == m[0]);
                lemma_put_names(tail, key, value, j - 1);
                if rest[j - 1].0 != key {
                    let k = choose|k: int| 0 <= k < tail.len() && #[trigger] tail[k].0 == rest[j - 1].0;
                    assert(tail[k] == m[k + 1]);
                    assert(lex_lt(m[0].0, m[k + 1].0));
                }
            }
        }
    }
}

/// What was stored under a name is found under it, and what is found
/// under another name stays as it was.
pub proof fn lemma_lookup_after_put(m: FieldsModel, key: Seq<char>, value: ValueModel, other: Seq<char>)
    ensures
        lookup(put(m, key, value), key) == Some(value),
        other != key ==> lookup(put(m, key, value), other) == lookup(m, other),
    decreases m.len(),
{
    let out = put(m, key, value);
    if m.len() == 0 {
        assert(out.drop_first() =~= m);
    } else if m[0].0 == key {
        assert(out.drop_first() =~= m.drop_first());
    } else if lex_lt(key, m[0].0) {
        assert(out.drop_first() =~= m);
    } else {
        let tail = m.drop_first();
        lemma_lookup_after_put(tail, key, value, other);
        assert(out.drop_first() =~= put(tail, key, value));
        assert(out[0] == m[0]);
    }
}

/// Values stored under two names give the same fields in either order:
/// what the fields hold does not depend on the order in which it was set.
pub proof fn lemma_put_commutes(
    m: FieldsModel,
    k1: Seq<char>,
    v1: ValueModel,
    k2: Seq<char>,
    v2: ValueModel,
)
    requires
        ordered(m),
        k1 != k2,
    ensures
        put(put(m, k1, v1), k2, v2) == put(put(m, k2, v2), k1, v1),
    decreases m.len(),
{
    crate::text::lemma_lex_total(k1, k2);
    crate::text::lemma_lex_irreflexive(k1);
    crate::text::lemma_lex_irreflexive(k2);
    let a = put(m, k1, v1);
    let b = put(m, k2, v2);
    if m.len() == 0 {
        assert(a.drop_first() =~= m);
        assert(b.drop_first() =~= m);
        assert(put(a, k2, v2) =~= put(b, k1, v1));
    } else {
        let h = m[0];
        let tail = m.drop_first();
        crate::text::lemma_lex_total(k1, h.0);
        crate::text::lemma_lex_total(k2, h.0);
        crate::text::lemma_lex_irreflexive(h.0);
        assert forall|i: int, j: int| 0 <= i < j < tail.len() implies lex_lt(
            #[trigger] tail[i].0,
            #[trigger] tail[j].0,
        ) by {
            assert(tail[i] == m[i + 1] && tail[j] == m[j + 1]);
        }
        if tail.len() > 0 {
            assert(lex_lt(m[0].0, m[1].0));
            assert(tail[0] == m[1]);
        }
        let first_at_head = h.0 == k1 || lex_lt(k1, h.0);
        let second_at_head = h.0 == k2 || lex_lt(k2, h.0);
        if !first_at_head && !second_at_head {
            lemma_put_commutes(tail, k1, v1, k2, v2);
            assert(a =~= seq![h] + put(tail, k1, v1));
            assert(b =~= seq![h] + put(tail, k2, v2));
            assert(a.drop_first() =~= put(tail, k1, v1));
            assert(b.drop_first() =~= put(tail, k2, v2));
            assert(put(a, k2, v2) =~= seq![h] + put(put(tail, k1, v1), k2, v2));
            assert(put(b, k1, v1) =~= seq![h] + put(put(tail, k2, v2), k1, v1));
        } else if first_at_head && !second_at_head {
            // The first goes to the head, the second behind it.
            assert(lex_lt(h.0, k2));
            if h.0 != k1 {
                crate::text::lemma_lex_transitive(k1, h.0, k2);
            }
            lemma_head_put(m, k1, v1, k2, v2);
        } else if !first_at_head && second_at_head {
            assert(lex_lt(h.0, k1));
            if h.0 != k2 {
                crate::text::lemma_lex_transitive(k2, h.0, k1);
            }
            lemma_head_put(m, k2, v2, k1, v1);
        } else {
            // Both come before what the head holds, or one of them is the head.
            lemma_both_at_head(m, k1, v1, k2, v2);
            lemma_both_at_head(m, k2, v2, k1, v1);
        }
    }
}

/// Where `k1` goes to the head of `m` and `k2` lies behind the head, the
/// two can be stored in either order.
proof fn lemma_head_put(m: FieldsModel, k1: Seq<char>, v1: ValueModel, k2: Seq<char>, v2: ValueModel)
    requires
        m.len() > 0,
        m[0].0 == k1 || lex_lt(k1, m[0].0),
        lex_lt(m[0].0, k2),
        lex_lt(k1, k2) || k1 == m[0].0,
        k1 != k2,
    ensures
        put(put(m, k1, v1), k2, v2) == put(put(m, k2, v2), k1, v1),
{
    let h = m[0];
    let tail = m.drop_first();
    crate::text::lemma_lex_total(k2, h.0);
    crate::text::lemma_lex_total(k1, k2);
    crate::text::lemma_lex_total(k1, h.0);
    crate::text::lemma_lex_irreflexive(h.0);
    let a = put(m, k1, v1);
    let b = put(m, k2, v2);
    assert(b =~= seq![h] + put(tail, k2, v2));
    assert(b.drop_first() =~= put(tail, k2, v2));
    assert(b[0] == h);
    if h.0 == k1 {
        assert(a =~= seq![(k1, v1)] + tail);
        assert(a.drop_first() =~= tail);
        assert(put(a, k2, v2) =~= seq![(k1, v1)] + put(tail, k2, v2));
        assert(put(b, k1, v1) =~= seq![(k1, v1)] + put(tail, k2, v2));
    } else {
        assert(a =~= seq![(k1, v1)] + m);
        assert(a.drop_first() =~= m);
        assert(put(a, k2, v2) =~= seq![(k1, v1)] + b);
        assert(put(b, k1, v1) =~= seq![(k1, v1)] + b);
    }
}

/// Where both `k1` and `k2` go to the head of `m`, storing `k2` behind
/// `k1` gives the two in their order before what `m` held behind them.
proof fn lemma_both_at_head(m: FieldsModel, k1: Seq<char>, v1: ValueModel, k2: Seq<char>, v2: ValueModel)
    requires
        m.len() > 0,
        ordered(m),
        m[0].0 == k1 || lex_lt(k1, m[0].0),
        m[0].0 == k2 || lex_lt(k2, m[0].0),
        k1 != k2,
    ensures
        put(put(m, k1, v1), k2, v2) == (if lex_lt(k1, k2) {
            seq![(k1, v1), (k2, v2)] + (if m[0].0 == k2 {
                m.drop_first()
            } else {
                m
            })
        } else {
            seq![(k2, v2), (k1, v1)] + (if m[0].0 == k1 {
                m.drop_first()
            } else {
                m
            })
        }),
{
    let h = m[0];
    let tail = m.drop_first();
    crate::text::lemma_lex_total(k1, k2);
    crate::text::lemma_lex_total(k1, h.0);
    crate::text::lemma_lex_total(k2, h.0);
    crate::text::lemma_lex_irreflexive(h.0);
    crate::text::lemma_lex_irreflexive(k1);
    crate::text::lemma_lex_irreflexive(k2);
    let a = put(m, k1, v1);
    if h.0 == k1 {
        // Then `k2` comes before `k1`.
        assert(a =~= seq![(k1, v1)] + tail);
        assert(put(a, k2, v2) =~= seq![(k2, v2)] + a);
        assert(seq![(k2, v2)] + a =~= seq![(k2, v2), (k1, v1)] + tail);
    } else {
        assert(a =~= seq![(k1, v1)] + m);
        assert(a.drop_first() =~= m);
        if lex_lt(k2, k1) {
            assert(put(a, k2, v2) =~= seq![(k2, v2)] + a);
            assert(seq![(k2, v2)] + a =~= seq![(k2, v2), (k1, v1)] + m);
        } else {
            assert(lex_lt(k1, k2));
            if h.0 == k2 {
                assert(put(m, k2, v2) =~= seq![(k2, v2)] + tail);
                assert(put(a, k2, v2) =~= seq![(k1, v1)] + put(m, k2, v2));
                assert(seq![(k1, v1)] + (seq![(k2, v2)] + tail) =~= seq![(k1, v1), (k2, v2)] + tail);
            } else {
                assert(put(m, k2, v2) =~= seq![(k2, v2)] + m);
                assert(put(a, k2, v2) =~= seq![(k1, v1)] + put(m, k2, v2));
                assert(seq![(k1, v1)] + (seq![(k2, v2)] + m) =~= seq![(k1, v1), (k2, v2)] + m);
            }
        }
    }
}

/// The entries whose value is not NULL.
pub open spec fn without_nulls(m: FieldsModel) -> FieldsModel
    decreases m.len(),
{
    if m.len() == 0 {
        m
    } else if m.last().1 is Null {
        without_nulls(m.drop_last())
    } else {
        without_nulls(m.drop_last()).push(m.last())
    }
}

/// Leaving out the NULLs keeps the names in order.
pub proof fn lemma_without_nulls_keeps_order(m: FieldsModel)
    requires
        ordered(m),
    ensures
        ordered(without_nulls(m)),
        forall|i: int|
            0 <= i < without_nulls(m).len() ==> exists|j: int|
                0 <= j < m.len() && m[j] == #[trigger] without_nulls(m)[i],
    decreases m.len(),
{
    if m.len() > 0 {
        let init = m.drop_last();
        let rest = without_nulls(init);
        let out = without_nulls(m);
        assert forall|i: int, j: int| 0 <= i < j < init.len() implies lex_lt(
            #[trigger] init[i].0,
            #[trigger] init[j].0,
        ) by {
            assert(init[i] == m[i] && init[j] == m[j]);
        }
        lemma_without_nulls_keeps_order(init);
        assert forall|i: int| 0 <= i < out.len() implies exists|j: int|
            0 <= j < m.len() && m[j] == #[trigger] out[i] by {
            if i < rest.len() {
                assert(out[i] == rest[i]);
                let j = choose|j: int| 0 <= j < init.len() && init[j] == rest[i];
                assert(m[j] == out[i]);
            } else {
                assert(m[m.len() - 1] == out[i]);
            }
        }
        assert forall|i: int, j: int| 0 <= i < j < out.len() implies lex_lt(
            #[trigger] out[i].0,
            #[trigger] out[j].0,
        ) by {
            if j < rest.len() {
                assert(out[i] == rest[i] && out[j] == rest[j]);
            } else {
                assert(out[i] == rest[i]);
                let k = choose|k: int| 0 <= k < init.len() && init[k] == rest[i];
                assert(m[k] == out[i]);
                assert(out[j] == m[m.len() - 1]);
            }
        }
    }
}

/// Laying fields over a base keeps the names in order.
pub proof fn lemma_overlay_keeps_order(
    base: FieldsModel,
    src: FieldsModel,
    strip_all: bool,
    keep_if_null: Seq<Seq<char>>,
)
    requires
        ordered(base),
    ensures
        ordered(overlay(base, src, strip_all, keep_if_null)),
    decreases src.len(),
{
    if src.len() > 0 {
        lemma_overlay_keeps_order(base, src.drop_last(), strip_all, keep_if_null);
        lemma_put_keeps_order(
            overlay(base, src.drop_last(), strip_all, keep_if_null),
            src.last().0,
            src.last().1,
        );
    }
}

/// Filling in what is missing keeps the names in order.
pub proof fn lemma_fill_keeps_order(base: FieldsModel, src: FieldsModel)
    requires
        ordered(base),
    ensures
        ordered(fill_missing(base, src)),
        ordered(fill_blank(base, src)),
    decreases src.len(),
{
    if src.len() > 0 {
        lemma_fill_keeps_order(base, src.drop_last());
        lemma_put_keeps_order(fill_missing(base, src.drop_last()), src.last().0, src.last().1);
        lemma_put_keeps_order(fill_blank(base, src.drop_last()), src.last().0, src.last().1);
    }
}

/// Whether an entry of `src` is left out when `src` is laid over a base:
/// a NULL is left out if every NULL is (`strip_all`) or if its column is
/// one of `keep_if_null`.
pub open spec fn skipped(
    entry: (Seq<char>, ValueModel),
    strip_all: bool,
    keep_if_null: Seq<Seq<char>>,
) -> bool {
    entry.1 is Null && (strip_all || keep_if_null.contains(entry.0))
}

/// `base` with the entries of `src` stored over it in order, but for the
/// skipped ones.
pub open spec fn overlay(
    base: FieldsModel,
    src: FieldsModel,
    strip_all: bool,
    keep_if_null: Seq<Seq<char>>,
) -> FieldsModel
    decreases src.len(),
{
    if src.len() == 0 {
        base
    } else if skipped(src.last(), strip_all, keep_if_null) {
        overlay(base, src.drop_last(), strip_all, keep_if_null)
    } else {
        put(overlay(base, src.drop_last(), strip_all, keep_if_null), src.last().0, src.last().1)
    }
}

/// `base` with those entries of `src` added whose name `base` lacks.
pub open spec fn fill_missing(base: FieldsModel, src: FieldsModel) -> FieldsModel
    decreases src.len(),
{
    if src.len() == 0 {
        base
    } else {
        let so_far = fill_missing(base, src.drop_last());
        if lookup(so_far, src.last().0) is Some {
            so_far
        } else {
            put(so_far, src.last().0, src.last().1)
        }
    }
}

/// Every entry of `a` that is not NULL stands in `b` with the same value.
pub open spec fn covered_by(a: FieldsModel, b: FieldsModel) -> bool {
    forall|i: int| 0 <= i < a.len() && !(#[trigger] a[i].1 is Null) ==> lookup(b, a[i].0) == Some(a[i].1)
}

/// The two hold the same values once NULL counts as absent.
pub open spec fn equal_ignoring_nulls(a: FieldsModel, b: FieldsModel) -> bool {
    covered_by(a, b) && covered_by(b, a)
}

/// Whether `name` is one of `names`.
pub fn has_name(names: &Vec<String>, name: &str) -> (r: bool)
    ensures
        r == names.deep_view().contains(name@),
{
    let mut i: usize = 0;
    while i < names.len()
        invariant
            i <= names.len(),
            forall|j: int| 0 <= j < i ==> names.deep_view()[j] != name@,
        decreases names.len() - i,
    {
        if same_text(names[i].as_str(), name) {
            assert(names.deep_view()[i as int] == name@);
            return true;
        }
        i += 1;
    }
    false
}

/// Named values of one row, kept in the order of their names.
#[derive(Debug, PartialEq, Eq)]
pub struct Fields {
    entries: Vec<(String, Value)>,
}

impl DeepView for Fields {
    type V = FieldsModel;

    closed spec fn deep_view(&self) -> FieldsModel {
        self.entries.deep_view()
    }
}

impl Clone for Fields {
    fn clone(&self) -> (r: Self)
        ensures
            r.deep_view() == self.deep_view(),
            r.well_formed() == self.well_formed(),
    {
        let mut entries: Vec<(String, Value)> = Vec::new();
        let mut i: usize = 0;
        proof {
            lemma_deep_empty(entries);
        }
        while i < self.entries.len()
            invariant
                i <= self.entries.len(),
                entries.deep_view() =~= self.entries.deep_view().take(i as int),
            decreases self.entries.len() - i,
        {
            let ghost before = entries;
            let entry = (self.entries[i].0.clone(), self.entries[i].1.clone());
            entries.push(entry);
            proof {
                lemma_deep_push(before, entries, entry);
                lemma_take_step(self.entries.deep_view(), i as int);
            }
            i += 1;
        }
        proof {
            lemma_take_all(self.entries.deep_view());
        }
        Fields { entries }
    }
}

/// A copy of `map` without the entries whose value is NULL.
pub fn strip_nulls(map: &Fields) -> (r: Fields)
    ensures
        r.deep_view() == without_nulls(map.deep_view()),
        map.well_formed() ==> r.well_formed(),
{
    let ghost m = map.deep_view();
    proof {
        if ordered(m) {
            lemma_without_nulls_keeps_order(m);
        }
    }
    let mut entries: Vec<(String, Value)> = Vec::new();
    let mut i: usize = 0;
    proof {
        lemma_deep_empty(entries);
    }
    while i < map.entries.len()
        invariant
            i <= map.entries.len(),
            m == map.entries.deep_view(),
            entries.deep_view() == without_nulls(m.take(i as int)),
        decreases map.entries.len() - i,
    {
        proof {
            lemma_take_step(m, i as int);
            assert(m[i as int] == map.entries@[i as int].deep_view());
        }
        if !map.entries[i].1.is_null() {
            let ghost before = entries;
            let entry = (map.entries[i].0.clone(), map.entries[i].1.clone());
            entries.push(entry);
            proof {
                lemma_deep_push(before, entries, entry);
            }
        }
        i += 1;
    }
    proof {
        lemma_take_all(m);
    }
    Fields { entries }
}

/// `base` with those entries of `src` stored over it whose name `base`
/// lacks or holds with NULL.
pub open spec fn fill_blank(base: FieldsModel, src: FieldsModel) -> FieldsModel
    decreases src.len(),
{
    if src.len() == 0 {
        base
    } else {
        let so_far = fill_blank(base, src.drop_last());
        let held = lookup(so_far, src.last().0);
        if held is Some && !(held->0 is Null) {
            so_far
        } else {
            put(so_far, src.last().0, src.last().1)
        }
    }
}

/// Data and ephemeral values of one row as one set of fields, the
/// ephemeral ones laid over the data.
pub open spec fn merged_payload(
    data: Option<FieldsModel>,
    ephemeral: Option<FieldsModel>,
) -> Option<FieldsModel> {
    match (data, ephemeral) {
        (Some(d), Some(e)) => Some(overlay(d, e, false, Seq::empty())),
        (Some(d), None) => Some(d),
        (None, Some(e)) => Some(e),
        (None, None) => None,
    }
}

/// Whether every entry of `a` that is not NULL stands in `b` with the same value.
fn covered(a: &Fields, b: &Fields) -> (r: bool)
    ensures
        r == covered_by(a.deep_view(), b.deep_view()),
{
    let ghost m = a.deep_view();
    let mut i: usize = 0;
    while i < a.entries.len()
        invariant
            i <= a.entries.len(),
            m == a.entries.deep_view(),
            forall|j: int|
                0 <= j < i && !(#[trigger] m[j].1 is Null) ==> lookup(b.deep_view(), m[j].0)
                    == Some(m[j].1),
        decreases a.entries.len() - i,
    {
        assert(m[i as int] == a.entries@[i as int].deep_view());
        if !a.entries[i].1.is_null() {
            let found = match b.get(a.entries[i].0.as_str()) {
                Some(other) => other.same(&a.entries[i].1),
                None => false,
            };
            if !found {
                assert(!(m[i as int].1 is Null));
                assert(lookup(b.deep_view(), m[i as int].0) != Some(m[i as int].1));
                return false;
            }
        }
        i += 1;
    }
    true
}

/// Compares two sets of fields, with NULL counting as absent.
pub fn maps_equal_ignoring_nulls(a: &Fields, b: &Fields) -> (r: bool)
    ensures
        r == equal_ignoring_nulls(a.deep_view(), b.deep_view()),
{
    covered(a, b) && covered(b, a)
}

/// Whether two sets of fields hold the same entries.
pub fn same_fields(a: &Fields, b: &Fields) -> (r: bool)
    ensures
        r == (a.deep_view() == b.deep_view()),
{
    if a.entries.len() != b.entries.len() {
        assert(a.deep_view().len() != b.deep_view().len());
        return false;
    }
    let ghost ma = a.deep_view();
    let ghost mb = b.deep_view();
    let mut i: usize = 0;
    while i < a.entries.len()
        invariant
            i <= a.entries.len(),
            a.entries.len() == b.entries.len(),
            ma == a.entries.deep_view(),
            mb == b.entries.deep_view(),
            forall|j: int| 0 <= j < i ==> ma[j] == mb[j],
        decreases a.entries.len() - i,
    {
        assert(ma[i as int] == a.entries@[i as int].deep_view());
        assert(mb[i as int] == b.entries@[i as int].deep_view());
        if !same_text(a.entries[i].0.as_str(), b.entries[i].0.as_str()) || !a.entries[i].1.same(
            &b.entries[i].1,
        ) {
            return false;
        }
        i += 1;
    }
    assert(ma =~= mb);
    true
}

/// Lays the entries of `src` over `base` in order, but for the NULLs that
/// are to be left out: all of them if `strip_all`, else those of the
/// columns in `keep_if_null`.
pub fn overlay_onto(base: &mut Fields, src: &Fields, strip_all: bool, keep_if_null: &Vec<String>)
    ensures
        final(base).deep_view() == overlay(
            old(base).deep_view(),
            src.deep_view(),
            strip_all,
            keep_if_null.deep_view(),
        ),
        old(base).well_formed() ==> final(base).well_formed(),
{
    let ghost m = src.deep_view();
    let ghost b0 = base.deep_view();
    let ghost keep = keep_if_null.deep_view();
    proof {
        if ordered(b0) {
            lemma_overlay_keeps_order(b0, m, strip_all, keep);
        }
    }
    let mut i: usize = 0;
    while i < src.entries.len()
        invariant
            i <= src.entries.len(),
            m == src.entries.deep_view(),
            keep == keep_if_null.deep_view(),
            base.deep_view() == overlay(b0, m.take(i as int), strip_all, keep),
        decreases src.entries.len() - i,
    {
        proof {
            lemma_take_step(m, i as int);
            assert(m[i as int] == src.entries@[i as int].deep_view());
        }
        let skip = src.entries[i].1.is_null() && (strip_all || has_name(
            keep_if_null,
            src.entries[i].0.as_str(),
        ));
        if !skip {
            base.insert(src.entries[i].0.clone(), src.entries[i].1.clone());
        }
        i += 1;
    }
    proof {
        lemma_take_all(m);
    }
}

/// Adds to `base` those entries of `src` whose name it lacks.
pub fn fill_missing_into(base: &mut Fields, src: &Fields)
    ensures
        final(base).deep_view() == fill_missing(old(base).deep_view(), src.deep_view()),
        old(base).well_formed() ==> final(base).well_formed(),
{
    let ghost m = src.deep_view();
    let ghost b0 = base.deep_view();
    proof {
        if ordered(b0) {
            lemma_fill_keeps_order(b0, m);
        }
    }
    let mut i: usize = 0;
    while i < src.entries.len()
        invariant
            i <= src.entries.len(),
            m == src.entries.deep_view(),
            base.deep_view() == fill_missing(b0, m.take(i as int)),
        decreases src.entries.len() - i,
    {
        proof {
            lemma_take_step(m, i as int);
            assert(m[i as int] == src.entries@[i as int].deep_view());
        }
        if !base.contains_key(src.entries[i].0.as_str()) {
            base.insert(src.entries[i].0.clone(), src.entries[i].1.clone());
        }
        i += 1;
    }
    proof {
        lemma_take_all(m);
    }
}

/// Stores over `base` those entries of `src` whose name it lacks or holds
/// with NULL.
pub fn fill_blank_into(base: &mut Fields, src: &Fields)
    ensures
        final(base).deep_view() == fill_blank(old(base).deep_view(), src.deep_view()),
        old(base).well_formed() ==> final(base).well_formed(),
{
    let ghost m = src.deep_view();
    let ghost b0 = base.deep_view();
    proof {
        if ordered(b0) {
            lemma_fill_keeps_order(b0, m);
        }
    }
    let mut i: usize = 0;
    while i < src.entries.len()
        invariant
            i <= src.entries.len(),
            m == src.entries.deep_view(),
            base.deep_view() == fill_blank(b0, m.take(i as int)),
        decreases src.entries.len() - i,
    {
        proof {
            lemma_take_step(m, i as int);
            assert(m[i as int] == src.entries@[i as int].deep_view());
        }
        let held = match base.get(src.entries[i].0.as_str()) {
            Some(v) => !v.is_null(),
            None => false,
        };
        if !held {
            base.insert(src.entries[i].0.clone(), src.entries[i].1.clone());
        }
        i += 1;
    }
    proof {
        lemma_take_all(m);
    }
}

/// Data and ephemeral values of one row as one set of fields.
pub fn merge_data_ephemeral(data: &Option<Fields>, ephemeral: &Option<Fields>) -> (r: Option<
    Fields,
>)
    ensures
        r.deep_view() == merged_payload(data.deep_view(), ephemeral.deep_view()),
{
    match (data, ephemeral) {
        (Some(d), Some(e)) => {
            let mut merged = d.clone();
            let none: Vec<String> = Vec::new();
            proof {
                lemma_deep_empty(none);
            }
            overlay_onto(&mut merged, e, false, &none);
            Some(merged)
        },
        (Some(d), None) => Some(d.clone()),
        (None, Some(e)) => Some(e.clone()),
        (None, None) => None,
    }
}

impl Fields {
    /// The names stand in strictly rising order. Fields that were made
    /// with [`Fields::new`] and filled with [`Fields::insert`] are so.
    pub open spec fn well_formed(&self) -> bool {
        ordered(self.deep_view())
    }

    pub fn new() -> (r: Self)
        ensures
            r.deep_view() == Seq::<(Seq<char>, ValueModel)>::empty(),
            r.well_formed(),
    {
        let r = Fields { entries: Vec::new() };
        proof {
            lemma_deep_empty(r.entries);
        }
        r
    }

    pub fn len(&self) -> (n: usize)
        ensures
            n == self.deep_view().len(),
    {
        self.entries.len()
    }

    pub fn is_empty(&self) -> (r: bool)
        ensures
            r == (self.deep_view().len() == 0),
    {
        self.entries.len() == 0
    }

    /// The name of the entry at position `i`.
    pub fn key_at(&self, i: usize) -> (k: &String)
        requires
            i < self.deep_view().len(),
        ensures
            k@ == self.deep_view()[i as int].0,
    {
        &self.entries[i].0
    }

    /// The value of the entry at position `i`.
    pub fn value_at(&self, i: usize) -> (v: &Value)
        requires
            i < self.deep_view().len(),
        ensures
            v.deep_view() == self.deep_view()[i as int].1,
    {
        &self.entries[i].1
    }

    /// The value stored under `key`.
    pub fn get(&self, key: &str) -> (r: Option<&Value>)
        ensures
            r.deep_view() == lookup(self.deep_view(), key@),
    {
        let mut i: usize = 0;
        proof {
            lemma_take_all(self.deep_view());
        }
        while i < self.entries.len()
            invariant
                i <= self.entries.len(),
                lookup(self.deep_view(), key@) == lookup(self.deep_view().skip(i as int), key@),
            decreases self.entries.len() - i,
        {
            proof {
                lemma_take_step(self.deep_view(), i as int);
            }
            if same_text(self.entries[i].0.as_str(), key) {
                return Some(&self.entries[i].1);
            }
            i += 1;
        }
        None
    }

    pub fn contains_key(&self, key: &str) -> (r: bool)
        ensures
            r == (lookup(self.deep_view(), key@) is Some),
    {
        self.get(key).is_some()
    }

    /// Stores `value` under `key`, in place of an entry of that name if
    /// there is one.
    pub fn insert(&mut self, key: String, value: Value)
        ensures
            final(self).deep_view() == put(old(self).deep_view(), key@, value.deep_view()),
            old(self).well_formed() ==> final(self).well_formed(),
    {
        let ghost m = self.deep_view();
        proof {
            if ordered(m) {
                lemma_put_keeps_order(m, key@, value.deep_view());
            }
        }
        let ghost k = key@;
        let ghost v = value.deep_view();
        let mut i: usize = 0;
        proof {
            lemma_take_all(m);
            assert(m.take(0) + put(m, k, v) =~= put(m, k, v));
        }
        while i < self.entries.len()
            invariant
                i <= self.entries.len(),
                self.deep_view() == m,
                m == old(self).deep_view(),
                ordered(m) ==> ordered(put(m, k, v)),
                k == key@,
                v == value.deep_view(),
                put(m, k, v) == m.take(i as int) + put(m.skip(i as int), k, v),
            decreases self.entries.len() - i,
        {
            let ghost rest = m.skip(i as int);
            let ghost before = self.entries;
            proof {
                lemma_take_step(m, i as int);
                assert(rest[0] == m[i as int]);
                assert(m[i as int] == self.entries@[i as int].deep_view());
                assert(rest.len() > 0);
            }
            if same_text(self.entries[i].0.as_str(), key.as_str()) {
                let entry = (key, value);
                self.entries.set(i, entry);
                proof {
                    lemma_deep_set(before, self.entries, i as int, entry);
                    assert(entry.deep_view() == (k, v));
                    assert(put(rest, k, v) == seq![(k, v)] + rest.drop_first());
                    assert(m.update(i as int, (k, v)) =~= m.take(i as int) + (seq![(k, v)]
                        + rest.drop_first()));
                }
                return ;
            }
            if text_lt(key.as_str(), self.entries[i].0.as_str()) {
                let entry = (key, value);
                self.entries.insert(i, entry);
                proof {
                    lemma_deep_insert(before, self.entries, i as int, entry);
                    assert(entry.deep_view() == (k, v));
                    assert(put(rest, k, v) == seq![(k, v)] + rest);
                    assert(m.insert(i as int, (k, v)) =~= m.take(i as int) + (seq![(k, v)] + rest));
                }
                return ;
            }
            assert(put(rest, k, v) == seq![rest[0]] + put(rest.drop_first(), k, v));
            proof {
                assert(m.take(i as int) + (seq![rest[0]] + put(rest.drop_first(), k, v)) =~= m.take(
                    i + 1,
                ) + put(m.skip(i + 1), k, v));
            }
            i += 1;
        }
        let ghost before = self.entries;
        let entry = (key, value);
        self.entries.push(entry);
        proof {
            lemma_deep_push(before, self.entries, entry);
            assert(m.skip(i as int) =~= Seq::empty());
            assert(m.take(i as int) + seq![(k, v)] =~= m.push((k, v)));
        }
    }
}

} // verus!
