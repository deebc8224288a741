use crate::keys::text_order;
use crate::sorting::{sort_by, sort_vec};
use crate::text::{lex_lt, same_text, text_lt};
use crate::types::{
    DeleteMode, EraMetadata, IdentityStrategy, MergeMode, PlannerContext,
};
use crate::value::has_name;
use crate::views::{lemma_deep_empty, lemma_deep_push, lemma_take_all, lemma_take_step};
use vstd::prelude::*;

verus! {

/// `s` without the names that repeat the name before them.
pub open spec fn without_repeated_names(s: Seq<Seq<char>>) -> Seq<Seq<char>>
    decreases s.len(),
{
    if s.len() == 0 {
        s
    } else {
        let d = without_repeated_names(s.drop_last());
        if d.len() > 0 && d.last() == s.last() {
            d
        } else {
            d.push(s.last())
        }
    }
}

/// The names in lexicographic order, each once.
pub open spec fn sorted_names(s: Seq<Seq<char>>) -> Seq<Seq<char>> {
    without_repeated_names(sort_by(s, text_order()))
}

/// The names of `s` that are not among `without`.
pub open spec fn names_without(s: Seq<Seq<char>>, without: Seq<Seq<char>>) -> Seq<Seq<char>>
    decreases s.len(),
{
    if s.len() == 0 {
        s
    } else if without.contains(s.last()) {
        names_without(s.drop_last(), without)
    } else {
        names_without(s.drop_last(), without).push(s.last())
    }
}

/// `base` with those names of `more` behind it that are not there yet.
pub open spec fn with_new_names(base: Seq<Seq<char>>, more: Seq<Seq<char>>) -> Seq<Seq<char>>
    decreases more.len(),
{
    if more.len() == 0 {
        base
    } else {
        let so_far = with_new_names(base, more.drop_last());
        if so_far.contains(more.last()) {
            so_far
        } else {
            so_far.push(more.last())
        }
    }
}

/// The columns of an era that hold its bounds: the range, the start, the
/// synchronized end if there is one, and the end.
pub open spec fn temporal_columns(
    range_col: Seq<char>,
    valid_from_col: Seq<char>,
    valid_to_col: Option<Seq<char>>,
    valid_until_col: Seq<char>,
) -> Seq<Seq<char>> {
    match valid_to_col {
        Some(vt) => seq![range_col, valid_from_col, vt, valid_until_col],
        None => seq![range_col, valid_from_col, valid_until_col],
    }
}

/// The strategy that follows from which keys there are.
pub open spec fn strategy_of(has_identity: bool, has_lookup: bool) -> IdentityStrategy {
    if has_identity && has_lookup {
        IdentityStrategy::Hybrid
    } else if has_identity {
        IdentityStrategy::IdentityKeyOnly
    } else if has_lookup {
        IdentityStrategy::LookupKeyOnly
    } else {
        IdentityStrategy::Undefined
    }
}

/// Copies the names in lexicographic order, each once.
pub fn sort_names(names: Vec<String>) -> (out: Vec<String>)
    ensures
        out.deep_view() == sorted_names(names.deep_view()),
{
    let less = |a: &String, b: &String| -> (r: bool)
        ensures
            r == lex_lt(a@, b@),
        { text_lt(a.as_str(), b.as_str()) };
    let sorted = sort_vec(names, less, Ghost(text_order()));
    let ghost sm = sorted.deep_view();
    let mut out: Vec<String> = Vec::new();
    let mut i: usize = 0;
    proof {
        lemma_deep_empty(out);
    }
    while i < sorted.len()
        invariant
            i <= sorted.len(),
            sm == sorted.deep_view(),
            out.deep_view() == without_repeated_names(sm.take(i as int)),
        decreases sorted.len() - i,
    {
        proof {
            lemma_take_step(sm, i as int);
            assert(sm[i as int] == sorted@[i as int]@);
        }
        let n_out = out.len();
        let repeat = if n_out > 0 {
            assert(out.deep_view().last() == out@[n_out - 1]@);
            same_text(out[n_out - 1].as_str(), sorted[i].as_str())
        } else {
            false
        };
        if !repeat {
            let ghost before_vec = out;
            let copy = sorted[i].clone();
            out.push(copy);
            proof {
                lemma_deep_push(before_vec, out, copy);
            }
        }
        i += 1;
    }
    proof {
        lemma_take_all(sm);
    }
    out
}

/// Copies the names that are not among `without`.
pub fn drop_names(names: &Vec<String>, without: &Vec<String>) -> (out: Vec<String>)
    ensures
        out.deep_view() == names_without(names.deep_view(), without.deep_view()),
{
    let ghost nm = names.deep_view();
    let mut out: Vec<String> = Vec::new();
    let mut i: usize = 0;
    proof {
        lemma_deep_empty(out);
    }
    while i < names.len()
        invariant
            i <= names.len(),
            nm == names.deep_view(),
            out.deep_view() == names_without(nm.take(i as int), without.deep_view()),
        decreases names.len() - i,
    {
        proof {
            lemma_take_step(nm, i as int);
            assert(nm[i as int] == names@[i as int]@);
        }
        if !has_name(without, names[i].as_str()) {
            let ghost before_vec = out;
            let copy = names[i].clone();
            out.push(copy);
            proof {
                lemma_deep_push(before_vec, out, copy);
            }
        }
        i += 1;
    }
    proof {
        lemma_take_all(nm);
    }
    out
}

/// Adds to `base` those names of `more` that are not there yet.
pub fn add_new_names(base: &mut Vec<String>, more: &Vec<String>)
    ensures
        final(base).deep_view() == with_new_names(old(base).deep_view(), more.deep_view()),
{
    let ghost b0 = base.deep_view();
    let ghost mm = more.deep_view();
    let mut i: usize = 0;
    while i < more.len()
        invariant
            i <= more.len(),
            mm == more.deep_view(),
            base.deep_view() == with_new_names(b0, mm.take(i as int)),
        decreases more.len() - i,
    {
        proof {
            lemma_take_step(mm, i as int);
            assert(mm[i as int] == more@[i as int]@);
        }
        if !has_name(base, more[i].as_str()) {
            let ghost before_vec = *base;
            let copy = more[i].clone();
            base.push(copy);
            proof {
                lemma_deep_push(before_vec, *base, copy);
            }
        }
        i += 1;
    }
    proof {
        lemma_take_all(mm);
    }
}

/// Whether two lists hold the same names in the same order.
pub fn same_names(a: &Vec<String>, b: &Vec<String>) -> (r: bool)
    ensures
        r == (a.deep_view() == b.deep_view()),
{
    if a.len() != b.len() {
        assert(a.deep_view().len() != b.deep_view().len());
        return false;
    }
    let mut i: usize = 0;
    while i < a.len()
        invariant
            i <= a.len(),
            a.len() == b.len(),
            forall|j: int| 0 <= j < i ==> a.deep_view()[j] == b.deep_view()[j],
        decreases a.len() - i,
    {
        if !same_text(a[i].as_str(), b[i].as_str()) {
            assert(a.deep_view()[i as int] != b.deep_view()[i as int]);
            return false;
        }
        i += 1;
    }
    assert(a.deep_view() =~= b.deep_view());
    true
}

/// A copy of a list of names.
pub fn copy_names(names: &Vec<String>) -> (out: Vec<String>)
    ensures
        out.deep_view() == names.deep_view(),
{
    let none: Vec<String> = Vec::new();
    proof {
        lemma_deep_empty(none);
        lemma_nothing_dropped(names.deep_view());
    }
    drop_names(names, &none)
}

/// Dropping no name drops nothing.
proof fn lemma_nothing_dropped(s: Seq<Seq<char>>)
    ensures
        names_without(s, Seq::empty()) == s,
    decreases s.len(),
{
    if s.len() > 0 {
        lemma_nothing_dropped(s.drop_last());
        assert(s.drop_last().push(s.last()) =~= s);
    }
}

/// Appends the names of `more` to `out`.
fn append_names(out: &mut Vec<String>, more: &Vec<String>)
    ensures
        final(out).deep_view() == old(out).deep_view() + more.deep_view(),
{
    let ghost start = out.deep_view();
    let ghost mm = more.deep_view();
    let mut i: usize = 0;
    assert(out.deep_view() =~= start + mm.take(0));
    while i < more.len()
        invariant
            i <= more.len(),
            mm == more.deep_view(),
            out.deep_view() == start + mm.take(i as int),
        decreases more.len() - i,
    {
        let ghost before_vec = *out;
        let copy = more[i].clone();
        out.push(copy);
        proof {
            lemma_deep_push(before_vec, *out, copy);
            assert(out.deep_view() =~= start + mm.take(i + 1));
        }
        i += 1;
    }
    proof {
        lemma_take_all(mm);
    }
}

/// The lists that a planner context derives from its configuration.
pub struct ContextLists {
    pub temporal_cols: Seq<Seq<char>>,
    pub segment_key_cols: Seq<Seq<char>>,
    pub entity_key_cols: Seq<Seq<char>>,
    pub ephemeral_columns: Seq<Seq<char>>,
}

/// The lists that follow from the era, the key columns and the ephemeral
/// columns of a configuration.
///
/// The segment key columns are the identity, lookup and primary key
/// columns in lexicographic order, each once; the entity key columns are
/// those of them that hold no bound of the era; the ephemeral columns are
/// those asked for and those of the era, in lexicographic order, each once.
pub open spec fn context_lists(
    era_range: Seq<char>,
    era_from: Seq<char>,
    era_to: Option<Seq<char>>,
    era_until: Seq<char>,
    era_ephemeral: Seq<Seq<char>>,
    identity: Seq<Seq<char>>,
    lookup: Seq<Seq<char>>,
    pk: Seq<Seq<char>>,
    ephemeral: Seq<Seq<char>>,
) -> ContextLists {
    let temporal = temporal_columns(era_range, era_from, era_to, era_until);
    let segment = sorted_names(identity + lookup + pk);
    ContextLists {
        temporal_cols: temporal,
        segment_key_cols: segment,
        entity_key_cols: names_without(segment, temporal),
        ephemeral_columns: sorted_names(with_new_names(ephemeral, era_ephemeral)),
    }
}

/// The names, or none where they are absent.
pub open spec fn names_or_none(names: Option<Seq<Seq<char>>>) -> Seq<Seq<char>> {
    match names {
        Some(n) => n,
        None => Seq::empty(),
    }
}

/// Puts together all that planning reads of a configuration.
pub fn build_planner_context(
    mode: MergeMode,
    delete_mode: DeleteMode,
    era: EraMetadata,
    identity_columns: Option<Vec<String>>,
    all_lookup_cols: Option<Vec<String>>,
    lookup_key_sets: Vec<Vec<String>>,
    pk_cols: Vec<String>,
    ephemeral_columns: Vec<String>,
    founding_id_column: Option<String>,
    row_id_column: String,
    log_trace: bool,
    exclude_if_null_columns: Vec<String>,
) -> (ctx: PlannerContext)
    ensures
        ctx.mode == mode,
        ctx.delete_mode == delete_mode,
        ctx.era == era,
        ctx.identity_columns.deep_view() == names_or_none(identity_columns.deep_view()),
        ctx.all_lookup_cols.deep_view() == names_or_none(all_lookup_cols.deep_view()),
        ctx.lookup_key_sets == lookup_key_sets,
        ctx.pk_cols == pk_cols,
        ctx.founding_id_column == founding_id_column,
        ctx.row_id_column == row_id_column,
        ctx.log_trace == log_trace,
        ctx.exclude_if_null_columns == exclude_if_null_columns,
        ctx.strategy == strategy_of(
            names_or_none(identity_columns.deep_view()).len() > 0,
            names_or_none(all_lookup_cols.deep_view()).len() > 0,
        ),
        ({
            let lists = context_lists(
                era.range_col@,
                era.valid_from_col@,
                era.valid_to_col.deep_view(),
                era.valid_until_col@,
                era.ephemeral_columns.deep_view(),
                names_or_none(identity_columns.deep_view()),
                names_or_none(all_lookup_cols.deep_view()),
                pk_cols.deep_view(),
                ephemeral_columns.deep_view(),
            );
            &&& ctx.temporal_cols.deep_view() == lists.temporal_cols
            &&& ctx.original_entity_segment_key_cols.deep_view() == lists.segment_key_cols
            &&& ctx.original_entity_key_cols.deep_view() == lists.entity_key_cols
            &&& ctx.ephemeral_columns.deep_view() == lists.ephemeral_columns
        }),
{
    let mut temporal_cols: Vec<String> = Vec::new();
    temporal_cols.push(era.range_col.clone());
    temporal_cols.push(era.valid_from_col.clone());
    match &era.valid_to_col {
        Some(vt) => {
            temporal_cols.push(vt.clone());
        },
        None => {},
    }
    temporal_cols.push(era.valid_until_col.clone());
    proof {
        assert(temporal_cols.deep_view() =~= temporal_columns(
            era.range_col@,
            era.valid_from_col@,
            era.valid_to_col.deep_view(),
            era.valid_until_col@,
        ));
    }
    let identity_columns: Vec<String> = match identity_columns {
        Some(c) => c,
        None => {
            let none: Vec<String> = Vec::new();
            proof {
                lemma_deep_empty(none);
            }
            none
        },
    };
    let all_lookup_cols: Vec<String> = match all_lookup_cols {
        Some(c) => c,
        None => {
            let none: Vec<String> = Vec::new();
            proof {
                lemma_deep_empty(none);
            }
            none
        },
    };
    let has_identity = identity_columns.len() > 0;
    let has_lookup = all_lookup_cols.len() > 0;
    let strategy = if has_identity && has_lookup {
        IdentityStrategy::Hybrid
    } else if has_identity {
        IdentityStrategy::IdentityKeyOnly
    } else if has_lookup {
        IdentityStrategy::LookupKeyOnly
    } else {
        IdentityStrategy::Undefined
    };
    let mut keys: Vec<String> = Vec::new();
    proof {
        lemma_deep_empty(keys);
    }
    append_names(&mut keys, &identity_columns);
    append_names(&mut keys, &all_lookup_cols);
    append_names(&mut keys, &pk_cols);
    proof {
        assert(keys.deep_view() =~= identity_columns.deep_view() + all_lookup_cols.deep_view()
            + pk_cols.deep_view());
    }
    let segment_key_cols = sort_names(keys);
    let entity_key_cols = drop_names(&segment_key_cols, &temporal_cols);
    let mut all_ephemeral = ephemeral_columns;
    add_new_names(&mut all_ephemeral, &era.ephemeral_columns);
    let all_ephemeral = sort_names(all_ephemeral);
    PlannerContext {
        mode,
        delete_mode,
        era,
        identity_columns,
        all_lookup_cols,
        lookup_key_sets,
        original_entity_key_cols: entity_key_cols,
        original_entity_segment_key_cols: segment_key_cols,
        temporal_cols,
        pk_cols,
        strategy,
        ephemeral_columns: all_ephemeral,
        founding_id_column,
        row_id_column,
        log_trace,
        exclude_if_null_columns,
    }
}

/// What is read of the lookup keys that a caller names: the key sets that
/// name a column at all, and the columns of all of them.
pub struct LookupKeys {
    /// The columns of all key sets in lexicographic order, and nothing where
    /// there is none. A column that several sets name stands once.
    pub all_lookup_cols: Option<Vec<String>>,
    pub lookup_key_sets: Vec<Vec<String>>,
}

/// The names among the entries of a key set; an entry that is no name is
/// left out.
pub open spec fn names_in(entries: Seq<Option<Seq<char>>>) -> Seq<Seq<char>>
    decreases entries.len(),
{
    if entries.len() == 0 {
        Seq::empty()
    } else {
        match entries.last() {
            Some(n) => names_in(entries.drop_last()).push(n),
            None => names_in(entries.drop_last()),
        }
    }
}

/// The key sets among `sets` that name a column; an entry that is no list
/// is left out.
pub open spec fn key_sets_in(sets: Seq<Option<Seq<Option<Seq<char>>>>>) -> Seq<Seq<Seq<char>>>
    decreases sets.len(),
{
    if sets.len() == 0 {
        Seq::empty()
    } else {
        let rest = key_sets_in(sets.drop_last());
        match sets.last() {
            Some(entries) => if names_in(entries).len() > 0 {
                rest.push(names_in(entries))
            } else {
                rest
            },
            None => rest,
        }
    }
}

/// The columns that the key sets name, each once, in the order in which
/// they are met.
pub open spec fn columns_in(sets: Seq<Seq<Seq<char>>>) -> Seq<Seq<char>>
    decreases sets.len(),
{
    if sets.len() == 0 {
        Seq::empty()
    } else {
        with_new_names(columns_in(sets.drop_last()), sets.last())
    }
}

/// The columns of all key sets in lexicographic order.
pub open spec fn lookup_columns(sets: Seq<Seq<Seq<char>>>) -> Seq<Seq<char>> {
    sort_by(columns_in(sets), text_order())
}

/// Reads the lookup keys that a caller names: a list of key sets, each a
/// list of column names. `None` stands for an entry of another shape.
pub fn parse_lookup_keys(lookup_keys: Option<Vec<Option<Vec<Option<String>>>>>) -> (r: LookupKeys)
    ensures
        match lookup_keys.deep_view() {
            Some(sets) => {
                let key_sets = key_sets_in(sets);
                if columns_in(key_sets).len() == 0 {
                    r.all_lookup_cols is None && r.lookup_key_sets.deep_view() == Seq::<
                        Seq<Seq<char>>,
                    >::empty()
                } else {
                    r.all_lookup_cols.deep_view() == Some(lookup_columns(key_sets))
                        && r.lookup_key_sets.deep_view() == key_sets
                }
            },
            None => r.all_lookup_cols is None && r.lookup_key_sets.deep_view() == Seq::<
                Seq<Seq<char>>,
            >::empty(),
        },
{
    let sets = match &lookup_keys {
        Some(s) => s,
        None => {
            let none: Vec<Vec<String>> = Vec::new();
            proof {
                lemma_deep_empty(none);
            }
            return LookupKeys { all_lookup_cols: None, lookup_key_sets: none };
        },
    };
    let ghost sm = sets.deep_view();
    let mut cols: Vec<String> = Vec::new();
    let mut key_sets: Vec<Vec<String>> = Vec::new();
    let mut i: usize = 0;
    proof {
        lemma_deep_empty(cols);
        lemma_deep_empty(key_sets);
    }
    while i < sets.len()
        invariant
            i <= sets.len(),
            sm == sets.deep_view(),
            key_sets.deep_view() == key_sets_in(sm.take(i as int)),
            cols.deep_view() == columns_in(key_sets.deep_view()),
        decreases sets.len() - i,
    {
        proof {
            lemma_take_step(sm, i as int);
            assert(sm[i as int] == sets@[i as int].deep_view());
        }
        match &sets[i] {
            Some(entries) => {
                let ghost em = entries.deep_view();
                let mut set: Vec<String> = Vec::new();
                let mut j: usize = 0;
                proof {
                    lemma_deep_empty(set);
                }
                while j < entries.len()
                    invariant
                        j <= entries.len(),
                        em == entries.deep_view(),
                        set.deep_view() == names_in(em.take(j as int)),
                    decreases entries.len() - j,
                {
                    proof {
                        lemma_take_step(em, j as int);
                        assert(em[j as int] == entries@[j as int].deep_view());
                    }
                    match &entries[j] {
                        Some(name) => {
                            let ghost before_vec = set;
                            let copy = name.clone();
                            set.push(copy);
                            proof {
                                lemma_deep_push(before_vec, set, copy);
                            }
                        },
                        None => {},
                    }
                    j += 1;
                }
                proof {
                    lemma_take_all(em);
                }
                if set.len() > 0 {
                    add_new_names(&mut cols, &set);
                    let ghost before_vec = key_sets;
                    key_sets.push(set);
                    proof {
                        lemma_deep_push(before_vec, key_sets, set);
                        assert(key_sets.deep_view().drop_last() =~= before_vec.deep_view());
                    }
                }
            },
            None => {},
        }
        i += 1;
    }
    proof {
        lemma_take_all(sm);
    }
    if cols.len() == 0 {
        let none: Vec<Vec<String>> = Vec::new();
        proof {
            lemma_deep_empty(none);
        }
        LookupKeys { all_lookup_cols: None, lookup_key_sets: none }
    } else {
        let less = |a: &String, b: &String| -> (r: bool)
            ensures
                r == lex_lt(a@, b@),
            { text_lt(a.as_str(), b.as_str()) };
        let sorted = sort_vec(cols, less, Ghost(text_order()));
        LookupKeys { all_lookup_cols: Some(sorted), lookup_key_sets: key_sets }
    }
}

} // verus!
