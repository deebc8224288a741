use crate::interval::{before, precedes, Bound, BoundModel};
use crate::sorting::{lemma_sort_elements, sort_by, sort_vec};
use crate::text::{join, join_spec, lex_lt, same_text, text_lt};
use crate::types::{ContextModel, MatchedModel, MatchedSourceRow, PlannerContext, SourceRowModel};
use crate::value::{lookup, value_text};
use crate::views::{lemma_deep_empty, lemma_deep_push, lemma_take_all, lemma_take_step};
use vstd::prelude::*;

verus! {

/// A set of bounds as intervals `[from, until)`, none of which touches the next.
pub type RangeModel = Seq<(BoundModel, BoundModel)>;

/// Intervals by their start.
pub open spec fn by_from(n: bool) -> spec_fn((BoundModel, BoundModel), (BoundModel, BoundModel)) -> bool {
    |a: (BoundModel, BoundModel), b: (BoundModel, BoundModel)| before(a.0, b.0, n)
}

/// `merged` with `iv` added behind it: joined to the last interval where it
/// starts within it or at its end, else as an interval of its own.
pub open spec fn merge_step(merged: RangeModel, iv: (BoundModel, BoundModel), n: bool) -> RangeModel {
    if merged.len() > 0 && !before(merged.last().1, iv.0, n) {
        if before(merged.last().1, iv.1, n) {
            merged.drop_last().push((merged.last().0, iv.1))
        } else {
            merged
        }
    } else {
        merged.push(iv)
    }
}

/// The intervals of `s`, which are in the order of their starts, with
/// those joined that overlap or touch.
pub open spec fn merge_all(s: RangeModel, n: bool) -> RangeModel
    decreases s.len(),
{
    if s.len() == 0 {
        s
    } else {
        merge_step(merge_all(s.drop_last(), n), s.last(), n)
    }
}

/// The multirange `mr` with `[from, until)` added.
pub open spec fn multirange_added(mr: RangeModel, from: BoundModel, until: BoundModel, n: bool) -> RangeModel {
    merge_all(sort_by(mr.push((from, until)), by_from(n)), n)
}

/// Whether one interval of `mr` holds all of `[from, until)`.
pub open spec fn multirange_covers(mr: RangeModel, from: BoundModel, until: BoundModel, n: bool) -> bool {
    exists|i: int|
        0 <= i < mr.len() && !before(from, (#[trigger] mr[i]).0, n) && !before(mr[i].1, until, n)
}

/// Adds `[from, until)` to a multirange and joins what overlaps or touches.
pub fn multirange_add(mr: &mut Vec<(Bound, Bound)>, from: Bound, until: Bound, is_numeric: bool)
    ensures
        final(mr).deep_view() == multirange_added(
            old(mr).deep_view(),
            from.deep_view(),
            until.deep_view(),
            is_numeric,
        ),
{
    let ghost before_push = *mr;
    let added = (from, until);
    mr.push(added);
    proof {
        lemma_deep_push(before_push, *mr, added);
    }
    let mut taken: Vec<(Bound, Bound)> = Vec::new();
    std::mem::swap(mr, &mut taken);
    let less = |a: &(Bound, Bound), b: &(Bound, Bound)| -> (r: bool)
        ensures
            r == before(a.deep_view().0, b.deep_view().0, is_numeric),
        { precedes(&a.0, &b.0, is_numeric) };
    let sorted = sort_vec(taken, less, Ghost(by_from(is_numeric)));
    let ghost s = sorted.deep_view();
    let mut merged: Vec<(Bound, Bound)> = Vec::new();
    let mut i: usize = 0;
    proof {
        lemma_deep_empty(merged);
    }
    while i < sorted.len()
        invariant
            i <= sorted.len(),
            s == sorted.deep_view(),
            merged.deep_view() == merge_all(s.take(i as int), is_numeric),
        decreases sorted.len() - i,
    {
        proof {
            lemma_take_step(s, i as int);
            assert(s[i as int] == sorted@[i as int].deep_view());
        }
        let ghost m0 = merged;
        let n_merged = merged.len();
        let mut joined = false;
        if n_merged > 0 {
            assert(merged.deep_view().last() == merged@[n_merged - 1].deep_view());
            if !precedes(&merged[n_merged - 1].1, &sorted[i].0, is_numeric) {
                joined = true;
                if precedes(&merged[n_merged - 1].1, &sorted[i].1, is_numeric) {
                    let last = merged.pop().unwrap();
                    let ghost m1 = merged;
                    let widened = (last.0, sorted[i].1.clone());
                    merged.push(widened);
                    proof {
                        lemma_deep_push(m1, merged, widened);
                        assert(m1.deep_view() =~= m0.deep_view().drop_last());
                    }
                }
            }
        }
        if !joined {
            let copy = (sorted[i].0.clone(), sorted[i].1.clone());
            merged.push(copy);
            proof {
                lemma_deep_push(m0, merged, copy);
            }
        }
        i += 1;
    }
    proof {
        lemma_take_all(s);
    }
    *mr = merged;
}

/// Whether one interval of the multirange holds all of `[from, until)`.
pub fn multirange_contains(mr: &Vec<(Bound, Bound)>, from: &Bound, until: &Bound, is_numeric: bool) -> (r: bool)
    ensures
        r == multirange_covers(mr.deep_view(), from.deep_view(), until.deep_view(), is_numeric),
{
    let ghost m = mr.deep_view();
    let mut i: usize = 0;
    while i < mr.len()
        invariant
            i <= mr.len(),
            m == mr.deep_view(),
            forall|j: int|
                0 <= j < i ==> !(!before(from.deep_view(), (#[trigger] m[j]).0, is_numeric)
                    && !before(m[j].1, until.deep_view(), is_numeric)),
        decreases mr.len() - i,
    {
        assert(m[i as int] == mr@[i as int].deep_view());
        if !precedes(from, &mr[i].0, is_numeric) && !precedes(&mr[i].1, until, is_numeric) {
            return true;
        }
        i += 1;
    }
    false
}

/// Name and text of each lookup column that the row holds with a value that
/// is not NULL, among its lookup keys or else among its identity keys.
pub open spec fn partition_parts(sr: SourceRowModel, cols: Seq<Seq<char>>) -> Seq<(Seq<char>, Seq<char>)>
    decreases cols.len(),
{
    if cols.len() == 0 {
        Seq::empty()
    } else {
        let rest = partition_parts(sr, cols.drop_last());
        let c = cols.last();
        let val = match lookup(sr.lookup_keys, c) {
            Some(v) => Some(v),
            None => lookup(sr.identity_keys, c),
        };
        match val {
            Some(v) => if v is Null {
                rest
            } else {
                rest.push((c, value_text(v)))
            },
            None => rest,
        }
    }
}

/// Pairs by their name.
pub open spec fn by_name() -> spec_fn((Seq<char>, Seq<char>), (Seq<char>, Seq<char>)) -> bool {
    |a: (Seq<char>, Seq<char>), b: (Seq<char>, Seq<char>)| lex_lt(a.0, b.0)
}

/// `name=text` of a pair.
pub open spec fn pair_joined(p: (Seq<char>, Seq<char>)) -> Seq<char> {
    p.0 + "="@ + p.1
}

/// The key of the partition within which source rows can eclipse each
/// other: the lookup values of the row that are not NULL, in the order of
/// their names, and the causal id where there is none.
pub open spec fn partition_key(sr: SourceRowModel, ctx: ContextModel) -> Seq<char> {
    let parts = partition_parts(sr, ctx.all_lookup_cols);
    if parts.len() == 0 {
        "causal_"@ + sr.causal_id
    } else {
        join_spec(
            sort_by(parts, by_name()).map_values(|p: (Seq<char>, Seq<char>)| pair_joined(p)),
            "__"@,
        )
    }
}

/// Row id and place of each of `rows` whose partition is `key`.
pub open spec fn partition_members(rows: Seq<MatchedModel>, ctx: ContextModel, key: Seq<char>) -> Seq<(i64, usize)>
    decreases rows.len(),
{
    if rows.len() == 0 {
        Seq::empty()
    } else {
        let rest = partition_members(rows.drop_last(), ctx, key);
        if partition_key(rows.last().source, ctx) == key {
            rest.push((rows.last().source.row_id, (rows.len() - 1) as usize))
        } else {
            rest
        }
    }
}

/// Rows by their row id, the highest first.
pub open spec fn newest_first() -> spec_fn((i64, usize), (i64, usize)) -> bool {
    |a: (i64, usize), b: (i64, usize)| a.0 > b.0
}

/// The rows of partition `key` with the highest row id first.
pub open spec fn partition_order(rows: Seq<MatchedModel>, ctx: ContextModel, key: Seq<char>) -> Seq<(i64, usize)> {
    sort_by(partition_members(rows, ctx, key), newest_first())
}

/// The multirange of the intervals of the rows `ord`, but for those with
/// early feedback.
pub open spec fn range_of(rows: Seq<MatchedModel>, ord: Seq<(i64, usize)>, n: bool) -> RangeModel
    decreases ord.len(),
{
    if ord.len() == 0 {
        Seq::empty()
    } else {
        let mr = range_of(rows, ord.drop_last(), n);
        let r = rows[ord.last().1 as int];
        if r.early_feedback is Some {
            mr
        } else {
            multirange_added(mr, r.source.valid_from, r.source.valid_until, n)
        }
    }
}

/// Whether the row at place `i` is eclipsed: it has no early feedback, and
/// the rows that stand before it in `ord` cover its interval between them.
pub open spec fn eclipsed_in(rows: Seq<MatchedModel>, ord: Seq<(i64, usize)>, n: bool, i: int) -> bool {
    exists|p: int|
        0 <= p < ord.len() && (#[trigger] ord[p]).1 == i && rows[i].early_feedback is None
            && multirange_covers(
            range_of(rows, ord.take(p), n),
            rows[i].source.valid_from,
            rows[i].source.valid_until,
            n,
        )
}

/// Whether the row at place `i` is eclipsed by the rows of its partition
/// that have a higher row id.
pub open spec fn eclipsed(rows: Seq<MatchedModel>, ctx: ContextModel, i: int) -> bool {
    eclipsed_in(
        rows,
        partition_order(rows, ctx, partition_key(rows[i].source, ctx)),
        ctx.numeric,
        i,
    )
}

/// The row, marked as eclipsed if `flag` says so.
pub open spec fn marked(m: MatchedModel, flag: bool) -> MatchedModel {
    MatchedModel { is_eclipsed: m.is_eclipsed || flag, ..m }
}

/// The rows, each marked as eclipsed where it is.
pub open spec fn with_eclipses(rows: Seq<MatchedModel>, ctx: ContextModel) -> Seq<MatchedModel> {
    Seq::new(rows.len(), |i: int| marked(rows[i], eclipsed(rows, ctx, i)))
}

/// Whether the rows at two places are of one partition.
spec fn same_key(keys: Seq<String>, a: int, j: int) -> bool {
    keys[a]@ == keys[j]@
}

/// The key of the partition of a row.
fn partition_key_text(m: &MatchedSourceRow, ctx: &PlannerContext) -> (out: String)
    ensures
        out@ == partition_key(m.deep_view().source, ctx.deep_view()),
{
    let ghost sr = m.deep_view().source;
    let ghost cols = ctx.deep_view().all_lookup_cols;
    let mut parts: Vec<(String, String)> = Vec::new();
    let mut i: usize = 0;
    proof {
        lemma_deep_empty(parts);
    }
    while i < ctx.all_lookup_cols.len()
        invariant
            i <= ctx.all_lookup_cols.len(),
            sr == m.deep_view().source,
            cols == ctx.all_lookup_cols.deep_view(),
            parts.deep_view() == partition_parts(sr, cols.take(i as int)),
        decreases ctx.all_lookup_cols.len() - i,
    {
        proof {
            lemma_take_step(cols, i as int);
        }
        let col = &ctx.all_lookup_cols[i];
        let val = match m.source.lookup_keys.get(col.as_str()) {
            Some(v) => Some(v),
            None => m.source.identity_keys.get(col.as_str()),
        };
        match val {
            Some(v) => {
                if !v.is_null() {
                    let ghost before = parts;
                    let p = (col.clone(), v.render());
                    parts.push(p);
                    proof {
                        lemma_deep_push(before, parts, p);
                    }
                }
            },
            None => {},
        }
        i += 1;
    }
    proof {
        lemma_take_all(cols);
    }
    if parts.len() == 0 {
        let mut out = String::from_str("causal_");
        out.append(m.source.causal_id.as_str());
        return out;
    }
    let less = |a: &(String, String), b: &(String, String)| -> (r: bool)
        ensures
            r == lex_lt(a.deep_view().0, b.deep_view().0),
        { text_lt(a.0.as_str(), b.0.as_str()) };
    let sorted = sort_vec(parts, less, Ghost(by_name()));
    let ghost sm = sorted.deep_view();
    let mut texts: Vec<String> = Vec::new();
    let mut j: usize = 0;
    while j < sorted.len()
        invariant
            j <= sorted.len(),
            sm == sorted.deep_view(),
            texts.len() == j,
            forall|k: int| 0 <= k < j ==> (#[trigger] texts[k])@ == pair_joined(sm[k]),
        decreases sorted.len() - j,
    {
        assert(sm[j as int] == sorted@[j as int].deep_view());
        let mut t = sorted[j].0.clone();
        t.append("=");
        t.append(sorted[j].1.as_str());
        texts.push(t);
        j += 1;
    }
    assert(texts.deep_view() =~= sm.map_values(|p: (Seq<char>, Seq<char>)| pair_joined(p)));
    join(&texts, "__")
}

/// Marks the source rows whose interval the rows of the same partition with
/// a higher row id cover between them.
pub fn detect_eclipsed(matched: Vec<MatchedSourceRow>, ctx: &PlannerContext) -> (out: Vec<MatchedSourceRow>)
    ensures
        out.deep_view() == with_eclipses(matched.deep_view(), ctx.deep_view()),
{
    let ghost rows = matched.deep_view();
    let ghost cm = ctx.deep_view();
    let is_numeric = ctx.is_numeric();
    let n = matched.len();
    let mut keys: Vec<String> = Vec::new();
    let mut flags: Vec<bool> = Vec::new();
    let mut done: Vec<bool> = Vec::new();
    let mut i: usize = 0;
    while i < n
        invariant
            i <= n,
            n == matched.len(),
            rows == matched.deep_view(),
            cm == ctx.deep_view(),
            keys.len() == i,
            flags.len() == i,
            done.len() == i,
            forall|j: int| 0 <= j < i ==> (#[trigger] keys[j])@ == partition_key(rows[j].source, cm),
            forall|j: int| 0 <= j < i ==> !(#[trigger] flags[j]),
            forall|j: int| 0 <= j < i ==> !(#[trigger] done[j]),
        decreases n - i,
    {
        assert(rows[i as int] == matched@[i as int].deep_view());
        keys.push(partition_key_text(&matched[i], ctx));
        flags.push(false);
        done.push(false);
        i += 1;
    }
    i = 0;
    while i < n
        invariant
            i <= n,
            n == matched.len(),
            rows == matched.deep_view(),
            cm == ctx.deep_view(),
            is_numeric == cm.numeric,
            keys.len() == n,
            flags.len() == n,
            done.len() == n,
            forall|j: int| 0 <= j < n ==> (#[trigger] keys[j])@ == partition_key(rows[j].source, cm),
            forall|j: int| 0 <= j < n && !done[j] ==> !(#[trigger] flags[j]),
            forall|j: int| 0 <= j < n && done[j] ==> (#[trigger] flags[j]) == eclipsed(rows, cm, j),
            forall|a: int, j: int|
                0 <= a < i && 0 <= j < n && #[trigger] same_key(keys@, a, j) ==> done[j],
            forall|j: int|
                0 <= j < n && #[trigger] done[j] ==> exists|a: int|
                    0 <= a < i && #[trigger] same_key(keys@, a, j),
        decreases n - i,
    {
        if !done[i] {
            let ghost key = keys[i as int]@;
            // The rows of this partition.
            let mut members: Vec<(i64, usize)> = Vec::new();
            let mut j: usize = 0;
            let ghost done0 = done@;
            proof {
                lemma_deep_empty(members);
                assert forall|j: int| 0 <= j < n && keys[j]@ == key implies !done0[j] by {
                    if done0[j] {
                        let a = choose|a: int| 0 <= a < i && #[trigger] same_key(keys@, a, j);
                        assert(same_key(keys@, a, i as int));
                    }
                }
            }
            while j < n
                invariant
                    j <= n,
                    i < n,
                    n == matched.len(),
                    rows == matched.deep_view(),
                    keys.len() == n,
                    done.len() == n,
                    done0.len() == n,
                    key == keys[i as int]@,
                    forall|k: int| 0 <= k < n ==> (#[trigger] keys[k])@ == partition_key(rows[k].source, cm),
                    members.deep_view() == partition_members(rows.take(j as int), cm, key),
                    forall|k: int| 0 <= k < j ==> (#[trigger] done[k]) == (done0[k] || keys[k]@ == key),
                    forall|k: int| j <= k < n ==> (#[trigger] done[k]) == done0[k],
                decreases n - j,
            {
                proof {
                    lemma_take_step(rows, j as int);
                    assert(rows[j as int] == matched@[j as int].deep_view());
                    assert(rows.take(j + 1).len() - 1 == j);
                }
                if same_text(keys[j].as_str(), keys[i].as_str()) {
                    let ghost before = members;
                    let entry = (matched[j].source.row_id, j);
                    members.push(entry);
                    done.set(j, true);
                    proof {
                        lemma_deep_push(before, members, entry);
                    }
                }
                j += 1;
            }
            proof {
                lemma_take_all(rows);
            }
            let less = |a: &(i64, usize), b: &(i64, usize)| -> (r: bool)
                ensures
                    r == (a.0 > b.0),
                { a.0 > b.0 };
            let ghost mem = members.deep_view();
            let ord = sort_vec(members, less, Ghost(newest_first()));
            let ghost om = ord.deep_view();
            proof {
                assert(om == partition_order(rows, cm, key));
                assert forall|p: int| 0 <= p < om.len() implies (#[trigger] om[p]).1 < n && keys[om[p].1 as int]@ == key by {
                    lemma_sort_elements(mem, newest_first(), om[p]);
                    assert(om.contains(om[p]));
                    lemma_members_within(rows, cm, key, om[p]);
                }
            }
            let ghost flags0 = flags@;
            let mut mr: Vec<(Bound, Bound)> = Vec::new();
            let mut p: usize = 0;
            proof {
                lemma_deep_empty(mr);
            }
            while p < ord.len()
                invariant
                    p <= ord.len(),
                    n == matched.len(),
                    rows == matched.deep_view(),
                    is_numeric == cm.numeric,
                    om == ord.deep_view(),
                    flags.len() == n,
                    flags0.len() == n,
                    forall|q: int| 0 <= q < om.len() ==> (#[trigger] om[q]).1 < n,
                    mr.deep_view() == range_of(rows, om.take(p as int), is_numeric),
                    forall|k: int|
                        0 <= k < n ==> (#[trigger] flags[k]) == (flags0[k] || eclipsed_in(
                            rows,
                            om.take(p as int),
                            is_numeric,
                            k,
                        )),
                decreases ord.len() - p,
            {
                let ghost prefix = om.take(p as int);
                let ghost next = om.take(p + 1);
                proof {
                    lemma_take_step(om, p as int);
                    assert(om[p as int] == ord@[p as int]);
                }
                let idx = ord[p].1;
                assert(rows[idx as int] == matched@[idx as int].deep_view());
                let ghost flags1 = flags@;
                let mut hit = false;
                if matched[idx].early_feedback.is_none() {
                    if multirange_contains(
                        &mr,
                        &matched[idx].source.valid_from,
                        &matched[idx].source.valid_until,
                        is_numeric,
                    ) {
                        flags.set(idx, true);
                        hit = true;
                    }
                    multirange_add(
                        &mut mr,
                        matched[idx].source.valid_from.clone(),
                        matched[idx].source.valid_until.clone(),
                        is_numeric,
                    );
                }
                proof {
                    assert forall|k: int| 0 <= k < n implies (#[trigger] flags[k]) == (flags0[k]
                        || eclipsed_in(rows, next, is_numeric, k)) by {
                        lemma_eclipsed_step(rows, om, p as int, is_numeric, k);
                    }
                }
                p += 1;
            }
            proof {
                lemma_take_all(om);
                assert forall|a: int, j: int|
                    0 <= a < i + 1 && 0 <= j < n && #[trigger] same_key(keys@, a, j) implies done[j] by {
                    if a < i {
                        assert(done0[j]);
                    }
                }
                assert forall|j: int| 0 <= j < n && #[trigger] done[j] implies exists|a: int|
                    0 <= a < i + 1 && #[trigger] same_key(keys@, a, j) by {
                    if done0[j] {
                        let a = choose|a: int| 0 <= a < i && #[trigger] same_key(keys@, a, j);
                        assert(same_key(keys@, a, j));
                    } else {
                        assert(same_key(keys@, i as int, j));
                    }
                }
                assert forall|j: int| 0 <= j < n && done[j] implies (#[trigger] flags[j]) == eclipsed(
                    rows,
                    cm,
                    j,
                ) by {
                    if keys[j]@ == key {
                        assert(!flags0[j]);
                    } else {
                        assert(done0[j]);
                        if eclipsed_in(rows, om, is_numeric, j) {
                            let q = choose|q: int| 0 <= q < om.len() && (#[trigger] om[q]).1 == j;
                            assert(keys[om[q].1 as int]@ == key);
                        }
                    }
                }
                assert forall|j: int| 0 <= j < n && !done[j] implies !(#[trigger] flags[j]) by {
                    if eclipsed_in(rows, om, is_numeric, j) {
                        let q = choose|q: int| 0 <= q < om.len() && (#[trigger] om[q]).1 == j;
                        assert(keys[om[q].1 as int]@ == key);
                    }
                }
            }
        } else {
            proof {
                let b = choose|b: int| 0 <= b < i && #[trigger] same_key(keys@, b, i as int);
                assert forall|a: int, j: int|
                    0 <= a < i + 1 && 0 <= j < n && #[trigger] same_key(keys@, a, j) implies done[j] by {
                    if a == i {
                        assert(same_key(keys@, b, j));
                    }
                }
            }
        }
        i += 1;
    }
    let mut out: Vec<MatchedSourceRow> = Vec::new();
    proof {
        assert forall|j: int| 0 <= j < n implies done[j] by {
            assert(same_key(keys@, j, j));
        }
    }
    for m in it: matched.into_iter()
        invariant
            it.seq().len() == n,
            rows.len() == n,
            forall|j: int| 0 <= j < n ==> (#[trigger] it.seq()[j]).deep_view() == rows[j],
            flags.len() == n,
            out.len() == it.index(),
            forall|j: int| 0 <= j < n ==> (#[trigger] flags[j]) == eclipsed(rows, cm, j),
            forall|j: int|
                0 <= j < it.index() ==> (#[trigger] out[j]).deep_view() == marked(
                    rows[j],
                    eclipsed(rows, cm, j),
                ),
    {
        let mut m = m;
        if flags[out.len()] {
            m.is_eclipsed = true;
        }
        out.push(m);
    }
    assert(out.deep_view() =~= with_eclipses(rows, cm));
    out
}

/// Each member of a partition is a row of that partition.
proof fn lemma_members_within(rows: Seq<MatchedModel>, ctx: ContextModel, key: Seq<char>, e: (i64, usize))
    requires
        rows.len() <= usize::MAX,
        partition_members(rows, ctx, key).contains(e),
    ensures
        e.1 < rows.len(),
        partition_key(rows[e.1 as int].source, ctx) == key,
    decreases rows.len(),
{
    let all = partition_members(rows, ctx, key);
    let i = choose|i: int| 0 <= i < all.len() && all[i] == e;
    if rows.len() > 0 {
        let rest = partition_members(rows.drop_last(), ctx, key);
        if partition_key(rows.last().source, ctx) == key && i == rest.len() {
            assert(e.1 == rows.len() - 1);
        } else {
            assert(rest[i] == e);
            assert(rest.contains(e));
            lemma_members_within(rows.drop_last(), ctx, key, e);
            assert(rows.drop_last()[e.1 as int] == rows[e.1 as int]);
        }
    }
}

/// What one more row of the order adds to the rows found to be eclipsed.
proof fn lemma_eclipsed_step(rows: Seq<MatchedModel>, ord: Seq<(i64, usize)>, p: int, n: bool, k: int)
    requires
        0 <= p < ord.len(),
    ensures
        eclipsed_in(rows, ord.take(p + 1), n, k) == (eclipsed_in(rows, ord.take(p), n, k) || (ord[p].1
            == k && rows[k].early_feedback is None && multirange_covers(
            range_of(rows, ord.take(p), n),
            rows[k].source.valid_from,
            rows[k].source.valid_until,
            n,
        ))),
{
    let a = ord.take(p);
    let b = ord.take(p + 1);
    assert(b.take(p) =~= a);
    if eclipsed_in(rows, a, n, k) {
        let q = choose|q: int|
            0 <= q < a.len() && (#[trigger] a[q]).1 == k && rows[k].early_feedback is None
                && multirange_covers(
                range_of(rows, a.take(q), n),
                rows[k].source.valid_from,
                rows[k].source.valid_until,
                n,
            );
        assert(b.take(q) =~= a.take(q));
        assert(b[q].1 == k);
    }
    if eclipsed_in(rows, b, n, k) {
        let q = choose|q: int|
            0 <= q < b.len() && (#[trigger] b[q]).1 == k && rows[k].early_feedback is None
                && multirange_covers(
                range_of(rows, b.take(q), n),
                rows[k].source.valid_from,
                rows[k].source.valid_until,
                n,
            );
        if q < p {
            assert(b.take(q) =~= a.take(q));
            assert(a[q].1 == k);
        }
    }
    if ord[p].1 == k && rows[k].early_feedback is None && multirange_covers(
        range_of(rows, a, n),
        rows[k].source.valid_from,
        rows[k].source.valid_until,
        n,
    ) {
        assert(b[p].1 == k);
    }
}

} // verus!
