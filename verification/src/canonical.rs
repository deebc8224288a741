use crate::keys::{build_grouping_key, build_key_for_cols, grouping_key_of, key_for_cols};
use crate::text::same_text;
use crate::types::{ContextModel, MatchedModel, MatchedSourceRow, PlannerContext};
use crate::value::{
    fill_missing, fill_missing_into, same_fields, strip_nulls, without_nulls, Fields, FieldsModel,
};
use vstd::prelude::*;

verus! {

/// Whether a row takes part: it is of a new entity and has no early feedback.
pub open spec fn eligible(m: MatchedModel) -> bool {
    m.is_new_entity && m.early_feedback is None
}

/// The natural key of a row: its lookup keys that are not NULL.
pub open spec fn natural_key(m: MatchedModel) -> FieldsModel {
    without_nulls(m.source.lookup_keys)
}

/// Whether two rows have the same key under the key set at `k`, and a key at all.
pub open spec fn same_key_under(
    rows: Seq<MatchedModel>,
    key_sets: Seq<Seq<Seq<char>>>,
    k: int,
    a: int,
    b: int,
) -> bool {
    key_for_cols(natural_key(rows[a]), key_sets[k]).len() > 0 && key_for_cols(
        natural_key(rows[a]),
        key_sets[k],
    ) == key_for_cols(natural_key(rows[b]), key_sets[k])
}

/// Whether two rows share a key under one of the key sets.
pub open spec fn share_key(rows: Seq<MatchedModel>, key_sets: Seq<Seq<Seq<char>>>, a: int, b: int) -> bool {
    exists|k: int| 0 <= k < key_sets.len() && #[trigger] same_key_under(rows, key_sets, k, a, b)
}

/// Whether `p` leads from row to row, each sharing a key with the next.
pub open spec fn is_chain(rows: Seq<MatchedModel>, key_sets: Seq<Seq<Seq<char>>>, p: Seq<int>) -> bool {
    &&& p.len() > 0
    &&& forall|t: int| 0 <= t < p.len() ==> 0 <= #[trigger] p[t] < rows.len() && eligible(rows[p[t]])
    &&& forall|t: int| 0 <= t < p.len() - 1 ==> share_key(rows, key_sets, #[trigger] p[t], p[t + 1])
}

/// Whether two rows are fragments of one entity: a chain of rows leads from
/// the one to the other, each sharing a key with the next.
pub open spec fn connected(rows: Seq<MatchedModel>, key_sets: Seq<Seq<Seq<char>>>, i: int, j: int) -> bool {
    exists|p: Seq<int>| #[trigger] is_chain(rows, key_sets, p) && p[0] == i && p.last() == j
}

/// The key of the entity that the row at `i` is a fragment of, as far as
/// the first `upto` rows give it: the keys of its fragments put together,
/// of two values for one column the one of the earlier row.
pub open spec fn component_key(
    rows: Seq<MatchedModel>,
    key_sets: Seq<Seq<Seq<char>>>,
    i: int,
    upto: int,
) -> FieldsModel
    decreases upto,
{
    if upto <= 0 {
        Seq::empty()
    } else {
        let rest = component_key(rows, key_sets, i, upto - 1);
        if connected(rows, key_sets, i, upto - 1) {
            fill_missing(rest, natural_key(rows[upto - 1]))
        } else {
            rest
        }
    }
}

/// The row at `i` with the key of its entity in place of its own, where the
/// two differ.
pub open spec fn canonical_row(rows: Seq<MatchedModel>, ctx: ContextModel, i: int) -> MatchedModel {
    let m = rows[i];
    let whole = component_key(rows, ctx.lookup_key_sets, i, rows.len() as int);
    if eligible(m) && whole != natural_key(m) {
        MatchedModel {
            canonical_nk: Some(whole),
            grouping_key: grouping_key_of(m.source, true, m.discovered_identity, Some(whole), ctx),
            ..m
        }
    } else {
        m
    }
}

/// The rows with the fragments of each new entity under one key.
pub open spec fn canonicalized(rows: Seq<MatchedModel>, ctx: ContextModel) -> Seq<MatchedModel> {
    if ctx.all_lookup_cols.len() == 0 || ctx.lookup_key_sets.len() == 0 {
        rows
    } else {
        Seq::new(rows.len(), |i: int| canonical_row(rows, ctx, i))
    }
}

/// A row that takes part is connected to itself.
pub proof fn lemma_connected_self(rows: Seq<MatchedModel>, key_sets: Seq<Seq<Seq<char>>>, i: int)
    requires
        0 <= i < rows.len(),
        eligible(rows[i]),
    ensures
        connected(rows, key_sets, i, i),
{
    let p = seq![i];
    assert(is_chain(rows, key_sets, p));
    assert(p[0] == i && p.last() == i);
}

/// Two rows that share a key are connected.
pub proof fn lemma_connected_link(rows: Seq<MatchedModel>, key_sets: Seq<Seq<Seq<char>>>, i: int, j: int)
    requires
        0 <= i < rows.len(),
        0 <= j < rows.len(),
        eligible(rows[i]),
        eligible(rows[j]),
        share_key(rows, key_sets, i, j),
    ensures
        connected(rows, key_sets, i, j),
{
    let p = seq![i, j];
    assert(p[0] == i && p[1] == j);
    assert(is_chain(rows, key_sets, p));
}

/// Sharing a key goes both ways.
pub proof fn lemma_share_key_both_ways(rows: Seq<MatchedModel>, key_sets: Seq<Seq<Seq<char>>>, i: int, j: int)
    requires
        share_key(rows, key_sets, i, j),
    ensures
        share_key(rows, key_sets, j, i),
{
    let k = choose|k: int| 0 <= k < key_sets.len() && #[trigger] same_key_under(rows, key_sets, k, i, j);
    assert(same_key_under(rows, key_sets, k, j, i));
}

/// Being connected goes both ways.
pub proof fn lemma_connected_both_ways(rows: Seq<MatchedModel>, key_sets: Seq<Seq<Seq<char>>>, i: int, j: int)
    requires
        connected(rows, key_sets, i, j),
    ensures
        connected(rows, key_sets, j, i),
{
    let p = choose|p: Seq<int>| #[trigger] is_chain(rows, key_sets, p) && p[0] == i && p.last() == j;
    let q = p.reverse();
    assert(q.len() == p.len());
    assert forall|t: int| 0 <= t < q.len() implies 0 <= #[trigger] q[t] < rows.len() && eligible(
        rows[q[t]],
    ) by {
        assert(q[t] == p[p.len() - 1 - t]);
    }
    assert forall|t: int| 0 <= t < q.len() - 1 implies share_key(rows, key_sets, #[trigger] q[t], q[t + 1]) by {
        let s = p.len() - 2 - t;
        assert(q[t] == p[s + 1]);
        assert(q[t + 1] == p[s]);
        assert(share_key(rows, key_sets, p[s], p[s + 1]));
        lemma_share_key_both_ways(rows, key_sets, p[s], p[s + 1]);
    }
    assert(is_chain(rows, key_sets, q));
    assert(q[0] == j && q.last() == i);
}

/// Rows connected to the same row are connected.
pub proof fn lemma_connected_through(
    rows: Seq<MatchedModel>,
    key_sets: Seq<Seq<Seq<char>>>,
    i: int,
    j: int,
    k: int,
)
    requires
        connected(rows, key_sets, i, j),
        connected(rows, key_sets, j, k),
    ensures
        connected(rows, key_sets, i, k),
{
    let p = choose|p: Seq<int>| #[trigger] is_chain(rows, key_sets, p) && p[0] == i && p.last() == j;
    let q = choose|q: Seq<int>| #[trigger] is_chain(rows, key_sets, q) && q[0] == j && q.last() == k;
    let r = p + q.drop_first();
    assert forall|t: int| 0 <= t < r.len() implies 0 <= #[trigger] r[t] < rows.len() && eligible(
        rows[r[t]],
    ) by {
        if t < p.len() {
            assert(r[t] == p[t]);
        } else {
            assert(r[t] == q[t - p.len() + 1]);
        }
    }
    assert forall|t: int| 0 <= t < r.len() - 1 implies share_key(rows, key_sets, #[trigger] r[t], r[t + 1]) by {
        if t + 1 < p.len() {
            assert(r[t] == p[t] && r[t + 1] == p[t + 1]);
        } else if t + 1 == p.len() {
            assert(r[t] == p[t]);
            assert(r[t] == q[0]);
            assert(r[t + 1] == q[1]);
            assert(share_key(rows, key_sets, q[0], q[1]));
        } else {
            let s = t - p.len() + 1;
            assert(r[t] == q[s] && r[t + 1] == q[s + 1]);
            assert(share_key(rows, key_sets, q[s], q[s + 1]));
        }
    }
    assert(is_chain(rows, key_sets, r));
    assert(r[0] == i);
    if q.len() == 1 {
        assert(r =~= p);
        assert(j == k);
    } else {
        assert(r.last() == q.last());
    }
}

/// What the rows are marked with while their entities are worked out:
/// rows that share a key have the same mark.
spec fn marks_cover(rows: Seq<MatchedModel>, key_sets: Seq<Seq<Seq<char>>>, marks: Seq<usize>) -> bool {
    forall|k: int, a: int, b: int|
        0 <= k < key_sets.len() && 0 <= a < rows.len() && 0 <= b < rows.len() && eligible(rows[a])
            && eligible(rows[b]) && #[trigger] same_key_under(rows, key_sets, k, a, b) ==> marks[a]
            == marks[b]
}

/// Rows with the same mark are connected.
spec fn marks_sound(rows: Seq<MatchedModel>, key_sets: Seq<Seq<Seq<char>>>, marks: Seq<usize>) -> bool {
    forall|a: int, b: int|
        0 <= a < rows.len() && 0 <= b < rows.len() && eligible(rows[a]) && eligible(rows[b])
            && marks[a] == marks[b] ==> #[trigger] connected(rows, key_sets, a, b)
}

/// Along a chain the mark stays the same.
proof fn lemma_chain_keeps_mark(
    rows: Seq<MatchedModel>,
    key_sets: Seq<Seq<Seq<char>>>,
    marks: Seq<usize>,
    p: Seq<int>,
    t: int,
)
    requires
        marks.len() == rows.len(),
        marks_cover(rows, key_sets, marks),
        is_chain(rows, key_sets, p),
        0 <= t < p.len(),
    ensures
        marks[p[t]] == marks[p[0]],
    decreases t,
{
    if t > 0 {
        lemma_chain_keeps_mark(rows, key_sets, marks, p, t - 1);
        assert(share_key(rows, key_sets, p[t - 1], p[t]));
        let k = choose|k: int|
            0 <= k < key_sets.len() && #[trigger] same_key_under(rows, key_sets, k, p[t - 1], p[t]);
        assert(0 <= p[t - 1] < rows.len() && eligible(rows[p[t - 1]]));
        assert(0 <= p[t] < rows.len() && eligible(rows[p[t]]));
    }
}

/// With marks that are sound and cover every shared key, rows are connected
/// exactly where their marks are the same.
proof fn lemma_marks_decide(
    rows: Seq<MatchedModel>,
    key_sets: Seq<Seq<Seq<char>>>,
    marks: Seq<usize>,
    i: int,
    j: int,
)
    requires
        marks.len() == rows.len(),
        marks_cover(rows, key_sets, marks),
        marks_sound(rows, key_sets, marks),
        0 <= i < rows.len(),
        0 <= j < rows.len(),
        eligible(rows[i]),
    ensures
        connected(rows, key_sets, i, j) == (eligible(rows[j]) && marks[i] == marks[j]),
{
    if connected(rows, key_sets, i, j) {
        let p = choose|p: Seq<int>| #[trigger] is_chain(rows, key_sets, p) && p[0] == i && p.last() == j;
        lemma_chain_keeps_mark(rows, key_sets, marks, p, p.len() - 1);
        assert(0 <= p[p.len() - 1] < rows.len() && eligible(rows[p[p.len() - 1]]));
    }
}

/// The key that the rows with mark `mark` have between them, as far as the
/// first `upto` rows give it.
spec fn marked_key(rows: Seq<MatchedModel>, marks: Seq<usize>, mark: usize, upto: int) -> FieldsModel
    decreases upto,
{
    if upto <= 0 {
        Seq::empty()
    } else {
        let rest = marked_key(rows, marks, mark, upto - 1);
        if eligible(rows[upto - 1]) && marks[upto - 1] == mark {
            fill_missing(rest, natural_key(rows[upto - 1]))
        } else {
            rest
        }
    }
}

/// The key of a mark is the key of the entity of a row with that mark.
proof fn lemma_marked_key(
    rows: Seq<MatchedModel>,
    key_sets: Seq<Seq<Seq<char>>>,
    marks: Seq<usize>,
    i: int,
    upto: int,
)
    requires
        marks.len() == rows.len(),
        marks_cover(rows, key_sets, marks),
        marks_sound(rows, key_sets, marks),
        0 <= i < rows.len(),
        eligible(rows[i]),
        0 <= upto <= rows.len(),
    ensures
        marked_key(rows, marks, marks[i], upto) == component_key(rows, key_sets, i, upto),
    decreases upto,
{
    if upto > 0 {
        lemma_marked_key(rows, key_sets, marks, i, upto - 1);
        lemma_marks_decide(rows, key_sets, marks, i, upto - 1);
    }
}

/// Gives the rows with mark `from` the mark `to`.
fn remark(marks: &mut Vec<usize>, from: usize, to: usize)
    ensures
        final(marks).len() == old(marks).len(),
        forall|x: int|
            0 <= x < old(marks).len() ==> (#[trigger] final(marks)[x]) == (if old(marks)[x] == from {
                to
            } else {
                old(marks)[x]
            }),
{
    let ghost before = marks@;
    let mut x: usize = 0;
    while x < marks.len()
        invariant
            x <= marks.len(),
            marks.len() == before.len(),
            forall|y: int|
                0 <= y < x ==> (#[trigger] marks[y]) == (if before[y] == from {
                    to
                } else {
                    before[y]
                }),
            forall|y: int| x <= y < marks.len() ==> (#[trigger] marks[y]) == before[y],
        decreases marks.len() - x,
    {
        if marks[x] == from {
            marks.set(x, to);
        }
        x += 1;
    }
}

fn is_eligible(m: &MatchedSourceRow) -> (r: bool)
    ensures
        r == eligible(m.deep_view()),
{
    m.is_new_entity && m.early_feedback.is_none()
}

/// Marks the rows so that two rows have the same mark exactly where they
/// are fragments of one entity.
fn mark_entities(matched: &Vec<MatchedSourceRow>, nks: &Vec<Fields>, ctx: &PlannerContext) -> (marks: Vec<usize>)
    requires
        nks.len() == matched.len(),
        forall|i: int|
            0 <= i < matched.len() ==> (#[trigger] nks[i]).deep_view() == natural_key(
                matched.deep_view()[i],
            ),
    ensures
        marks.len() == matched.len(),
        forall|i: int| 0 <= i < marks.len() ==> (#[trigger] marks[i]) < matched.len(),
        marks_cover(matched.deep_view(), ctx.deep_view().lookup_key_sets, marks@),
        marks_sound(matched.deep_view(), ctx.deep_view().lookup_key_sets, marks@),
{
    let ghost rows = matched.deep_view();
    let ghost ks = ctx.deep_view().lookup_key_sets;
    let n = matched.len();
    let mut marks: Vec<usize> = Vec::new();
    let mut i: usize = 0;
    while i < n
        invariant
            i <= n,
            marks.len() == i,
            forall|j: int| 0 <= j < i ==> (#[trigger] marks[j]) == j,
        decreases n - i,
    {
        marks.push(i);
        i += 1;
    }
    proof {
        assert forall|a: int, b: int|
            0 <= a < rows.len() && 0 <= b < rows.len() && eligible(rows[a]) && eligible(rows[b])
                && marks[a] == marks[b] implies #[trigger] connected(rows, ks, a, b) by {
            lemma_connected_self(rows, ks, a);
        }
    }
    let mut k: usize = 0;
    while k < ctx.lookup_key_sets.len()
        invariant
            k <= ctx.lookup_key_sets.len(),
            n == matched.len(),
            rows == matched.deep_view(),
            ks == ctx.deep_view().lookup_key_sets,
            nks.len() == n,
            forall|i: int| 0 <= i < n ==> (#[trigger] nks[i]).deep_view() == natural_key(rows[i]),
            marks.len() == n,
            forall|i: int| 0 <= i < n ==> (#[trigger] marks[i]) < n,
            marks_sound(rows, ks, marks@),
            forall|q: int, a: int, b: int|
                0 <= q < k && 0 <= a < n && 0 <= b < n && eligible(rows[a]) && eligible(rows[b])
                    && #[trigger] same_key_under(rows, ks, q, a, b) ==> marks[a] == marks[b],
        decreases ctx.lookup_key_sets.len() - k,
    {
        // The key of each row under this key set.
        let mut keys: Vec<String> = Vec::new();
        let mut i: usize = 0;
        while i < n
            invariant
                i <= n,
                k < ctx.lookup_key_sets.len(),
                n == matched.len(),
                nks.len() == n,
                rows == matched.deep_view(),
                ks == ctx.deep_view().lookup_key_sets,
                forall|j: int| 0 <= j < n ==> (#[trigger] nks[j]).deep_view() == natural_key(rows[j]),
                keys.len() == i,
                forall|j: int|
                    0 <= j < i ==> (#[trigger] keys[j])@ == key_for_cols(
                        natural_key(rows[j]),
                        ks[k as int],
                    ),
            decreases n - i,
        {
            keys.push(build_key_for_cols(&nks[i], &ctx.lookup_key_sets[k]));
            i += 1;
        }
        i = 0;
        while i < n
            invariant
                i <= n,
                k < ctx.lookup_key_sets.len(),
                n == matched.len(),
                rows == matched.deep_view(),
                ks == ctx.deep_view().lookup_key_sets,
                keys.len() == n,
                forall|j: int|
                    0 <= j < n ==> (#[trigger] keys[j])@ == key_for_cols(
                        natural_key(rows[j]),
                        ks[k as int],
                    ),
                marks.len() == n,
                forall|j: int| 0 <= j < n ==> (#[trigger] marks[j]) < n,
                marks_sound(rows, ks, marks@),
                forall|q: int, a: int, b: int|
                    0 <= q < k && 0 <= a < n && 0 <= b < n && eligible(rows[a]) && eligible(rows[b])
                        && #[trigger] same_key_under(rows, ks, q, a, b) ==> marks[a] == marks[b],
                forall|a: int, b: int|
                    0 <= a < i && 0 <= b < i && eligible(rows[a]) && eligible(rows[b])
                        && #[trigger] same_key_under(rows, ks, k as int, a, b) ==> marks[a]
                        == marks[b],
            decreases n - i,
        {
            assert(rows[i as int] == matched@[i as int].deep_view());
            let ghost marks0 = marks@;
            let mut linked: Option<usize> = None;
            if is_eligible(&matched[i]) && !keys[i].as_str().is_empty() {
                // The first row before this one with the same key.
                let mut j: usize = 0;
                while j < i && linked.is_none()
                    invariant
                        j <= i,
                        i < n,
                        n == matched.len(),
                        rows == matched.deep_view(),
                        keys.len() == n,
                        forall|x: int|
                            0 <= x < n ==> (#[trigger] keys[x])@ == key_for_cols(
                                natural_key(rows[x]),
                                ks[k as int],
                            ),
                        match linked {
                            Some(l) => l < i && eligible(rows[l as int]) && keys[l as int]@
                                == keys[i as int]@,
                            None => forall|x: int|
                                0 <= x < j && eligible(#[trigger] rows[x]) ==> keys[x]@
                                    != keys[i as int]@,
                        },
                    decreases i - j,
                {
                    assert(rows[j as int] == matched@[j as int].deep_view());
                    if is_eligible(&matched[j]) && same_text(keys[j].as_str(), keys[i].as_str()) {
                        linked = Some(j);
                    }
                    j += 1;
                }
            }
            match linked {
                Some(l) => {
                    let from = marks[i];
                    let to = marks[l];
                    remark(&mut marks, from, to);
                    proof {
                        assert(same_key_under(rows, ks, k as int, l as int, i as int));
                        assert(share_key(rows, ks, l as int, i as int));
                        lemma_connected_link(rows, ks, l as int, i as int);
                        assert forall|a: int, b: int|
                            0 <= a < rows.len() && 0 <= b < rows.len() && eligible(rows[a])
                                && eligible(rows[b]) && marks[a] == marks[b] implies #[trigger] connected(
                            rows,
                            ks,
                            a,
                            b,
                        ) by {
                            lemma_joined(rows, ks, marks0, a, b, l as int, i as int);
                        }
                        assert forall|a: int, b: int|
                            0 <= a < i + 1 && 0 <= b < i + 1 && eligible(rows[a]) && eligible(rows[b])
                                && #[trigger] same_key_under(rows, ks, k as int, a, b) implies marks[a]
                            == marks[b] by {
                            if a < i && b < i {
                                assert(marks0[a] == marks0[b]);
                            } else {
                                // Both have the key of row `i`, and so has row `l`.
                                if a < i {
                                    assert(same_key_under(rows, ks, k as int, a, l as int));
                                    assert(marks0[a] == marks0[l as int]);
                                }
                                if b < i {
                                    assert(same_key_under(rows, ks, k as int, b, l as int));
                                    assert(marks0[b] == marks0[l as int]);
                                }
                            }
                        }
                    }
                },
                None => {
                    proof {
                        assert forall|a: int, b: int|
                            0 <= a < i + 1 && 0 <= b < i + 1 && eligible(rows[a]) && eligible(rows[b])
                                && #[trigger] same_key_under(rows, ks, k as int, a, b) implies marks[a]
                            == marks[b] by {
                            if a < i && b < i {
                            } else if a == i && b == i {
                            } else {
                                // No row before `i` has its key.
                                if a < i {
                                    assert(eligible(rows[a]));
                                    assert(keys[a]@ == keys[i as int]@);
                                }
                                if b < i {
                                    assert(eligible(rows[b]));
                                    assert(keys[b]@ == keys[i as int]@);
                                }
                            }
                        }
                    }
                },
            }
            i += 1;
        }
        k += 1;
    }
    marks
}

/// After the marks of rows `l` and `i`, which are connected, were made one,
/// rows with the same mark are still connected.
proof fn lemma_joined(
    rows: Seq<MatchedModel>,
    key_sets: Seq<Seq<Seq<char>>>,
    marks0: Seq<usize>,
    a: int,
    b: int,
    l: int,
    i: int,
)
    requires
        marks0.len() == rows.len(),
        marks_sound(rows, key_sets, marks0),
        0 <= a < rows.len(),
        0 <= b < rows.len(),
        0 <= l < rows.len(),
        0 <= i < rows.len(),
        eligible(rows[a]),
        eligible(rows[b]),
        eligible(rows[l]),
        eligible(rows[i]),
        connected(rows, key_sets, l, i),
        (if marks0[a] == marks0[i] {
            marks0[l]
        } else {
            marks0[a]
        }) == (if marks0[b] == marks0[i] {
            marks0[l]
        } else {
            marks0[b]
        }),
    ensures
        connected(rows, key_sets, a, b),
{
    lemma_connected_both_ways(rows, key_sets, l, i);
    // Each of the two rows is connected to row `l`, or the two had one mark.
    if marks0[a] == marks0[b] {
        assert(connected(rows, key_sets, a, b));
    } else {
        if marks0[a] == marks0[i] {
            assert(connected(rows, key_sets, a, i));
            lemma_connected_through(rows, key_sets, a, i, l);
        } else {
            assert(marks0[a] == marks0[l]);
            assert(connected(rows, key_sets, a, l));
        }
        if marks0[b] == marks0[i] {
            assert(connected(rows, key_sets, i, b));
            lemma_connected_through(rows, key_sets, l, i, b);
        } else {
            assert(marks0[b] == marks0[l]);
            assert(connected(rows, key_sets, l, b));
        }
        lemma_connected_through(rows, key_sets, a, l, b);
    }
}

/// Puts the fragments of each new entity under one natural key: rows that
/// share a key under one of the key sets, or are linked by a chain of such
/// rows, get the keys of all of them.
pub fn canonicalize_new_entity_nks(matched: Vec<MatchedSourceRow>, ctx: &PlannerContext) -> (out: Vec<
    MatchedSourceRow,
>)
    ensures
        out.deep_view() == canonicalized(matched.deep_view(), ctx.deep_view()),
{
    if ctx.all_lookup_cols.len() == 0 || ctx.lookup_key_sets.len() == 0 {
        return matched;
    }
    let ghost rows = matched.deep_view();
    let ghost cm = ctx.deep_view();
    let ghost ks = cm.lookup_key_sets;
    let n = matched.len();
    let mut nks: Vec<Fields> = Vec::new();
    let mut i: usize = 0;
    while i < n
        invariant
            i <= n,
            n == matched.len(),
            rows == matched.deep_view(),
            nks.len() == i,
            forall|j: int| 0 <= j < i ==> (#[trigger] nks[j]).deep_view() == natural_key(rows[j]),
        decreases n - i,
    {
        assert(rows[i as int] == matched@[i as int].deep_view());
        nks.push(strip_nulls(&matched[i].source.lookup_keys));
        i += 1;
    }
    let marks = mark_entities(&matched, &nks, ctx);
    // The key of each entity, kept at the place that is its mark.
    let mut whole: Vec<Fields> = Vec::new();
    i = 0;
    while i < n
        invariant
            i <= n,
            whole.len() == i,
            forall|j: int|
                0 <= j < i ==> (#[trigger] whole[j]).deep_view() == Seq::<
                    (Seq<char>, crate::value::ValueModel),
                >::empty(),
        decreases n - i,
    {
        whole.push(Fields::new());
        i += 1;
    }
    i = 0;
    while i < n
        invariant
            i <= n,
            n == matched.len(),
            rows == matched.deep_view(),
            nks.len() == n,
            forall|j: int| 0 <= j < n ==> (#[trigger] nks[j]).deep_view() == natural_key(rows[j]),
            marks.len() == n,
            forall|j: int| 0 <= j < n ==> (#[trigger] marks[j]) < n,
            whole.len() == n,
            forall|m: int|
                0 <= m < n ==> (#[trigger] whole[m]).deep_view() == marked_key(
                    rows,
                    marks@,
                    m as usize,
                    i as int,
                ),
        decreases n - i,
    {
        assert(rows[i as int] == matched@[i as int].deep_view());
        if is_eligible(&matched[i]) {
            let mark = marks[i];
            let mut key = whole[mark].clone();
            fill_missing_into(&mut key, &nks[i]);
            whole.set(mark, key);
        }
        i += 1;
    }
    let mut out: Vec<MatchedSourceRow> = Vec::new();
    for m in it: matched.into_iter()
        invariant
            it.seq().len() == n,
            rows.len() == n,
            forall|j: int| 0 <= j < n ==> (#[trigger] it.seq()[j]).deep_view() == rows[j],
            cm == ctx.deep_view(),
            ks == cm.lookup_key_sets,
            nks.len() == n,
            forall|j: int| 0 <= j < n ==> (#[trigger] nks[j]).deep_view() == natural_key(rows[j]),
            marks.len() == n,
            forall|j: int| 0 <= j < n ==> (#[trigger] marks[j]) < n,
            marks_cover(rows, ks, marks@),
            marks_sound(rows, ks, marks@),
            whole.len() == n,
            forall|x: int|
                0 <= x < n ==> (#[trigger] whole[x]).deep_view() == marked_key(
                    rows,
                    marks@,
                    x as usize,
                    n as int,
                ),
            out.len() == it.index(),
            forall|j: int| 0 <= j < it.index() ==> (#[trigger] out[j]).deep_view() == canonical_row(rows, cm, j),
    {
        let idx = out.len();
        let mut m = m;
        if is_eligible(&m) {
            proof {
                lemma_marked_key(rows, ks, marks@, idx as int, n as int);
            }
            let key = &whole[marks[idx]];
            if !same_fields(key, &nks[idx]) {
                m.canonical_nk = Some(key.clone());
                m.grouping_key = build_grouping_key(
                    &m.source,
                    true,
                    &m.discovered_identity,
                    &m.canonical_nk,
                    ctx,
                );
            }
        }
        out.push(m);
    }
    assert(out.deep_view() =~= canonicalized(rows, cm));
    out
}

} // verus!
