use crate::eclipse::{
    by_from, eclipsed, eclipsed_in, merge_all, merge_step, multirange_added, multirange_covers,
    partition_key, partition_order, range_of, RangeModel,
};
use crate::interval::{before, lemma_before_order, BoundModel};
use crate::sorting::{in_order, lemma_sort_elements, lemma_sort_in_order, ranks, sort_by};
use crate::types::{ContextModel, MatchedModel};
use vstd::prelude::*;

verus! {

/// Whether the point `p` lies in the interval `[iv.0, iv.1)`.
pub open spec fn point_in(p: BoundModel, iv: (BoundModel, BoundModel), n: bool) -> bool {
    !before(p, iv.0, n) && before(p, iv.1, n)
}

/// Whether the point `p` lies in one of the intervals.
pub open spec fn holds_point(mr: RangeModel, p: BoundModel, n: bool) -> bool {
    exists|i: int| 0 <= i < mr.len() && point_in(p, #[trigger] mr[i], n)
}

/// Whether the intervals stand in the order of their starts and each ends
/// before the next starts: no two of them overlap or touch.
pub open spec fn kept_apart(mr: RangeModel, n: bool) -> bool {
    forall|i: int, j: int|
        0 <= i < j < mr.len() ==> before((#[trigger] mr[i]).1, (#[trigger] mr[j]).0, n) && !before(
            mr[j].0,
            mr[i].0,
            n,
        )
}

/// Whether one of the intervals starts at `b`.
pub open spec fn starts_at(s: RangeModel, b: BoundModel) -> bool {
    exists|i: int| 0 <= i < s.len() && (#[trigger] s[i]).0 == b
}

/// The order of intervals by their starts puts them in ranks.
proof fn lemma_by_from_ranks(n: bool)
    ensures
        ranks(by_from(n)),
{
    let lt = by_from(n);
    assert forall|a: (BoundModel, BoundModel), b: (BoundModel, BoundModel)| #[trigger]
        lt(a, b) implies !lt(b, a) by {
        lemma_before_order(a.0, b.0, a.0, n);
    }
    assert forall|a: (BoundModel, BoundModel), b: (BoundModel, BoundModel), c: (BoundModel, BoundModel)|
        !(#[trigger] lt(a, b)) && !(#[trigger] lt(b, c)) implies !lt(a, c) by {
        lemma_before_order(a.0, b.0, c.0, n);
        lemma_before_order(c.0, b.0, a.0, n);
        lemma_before_order(b.0, a.0, c.0, n);
        lemma_before_order(a.0, c.0, b.0, n);
        lemma_before_order(b.0, c.0, a.0, n);
        lemma_before_order(c.0, a.0, b.0, n);
    }
}

/// Joining intervals that stand in the order of their starts leaves
/// intervals that lie apart, each of which starts where one of the joined
/// intervals starts.
proof fn lemma_merge_apart(s: RangeModel, n: bool)
    requires
        in_order(s, by_from(n)),
    ensures
        kept_apart(merge_all(s, n), n),
        forall|k: int| 0 <= k < merge_all(s, n).len() ==> starts_at(s, (#[trigger] merge_all(s, n)[k]).0),
    decreases s.len(),
{
    if s.len() > 0 {
        let init = s.drop_last();
        let iv = s.last();
        let m0 = merge_all(init, n);
        let m = merge_all(s, n);
        let last = s.len() - 1;
        assert forall|i: int, j: int| 0 <= i < j < init.len() implies !by_from(n)(
            #[trigger] init[j],
            #[trigger] init[i],
        ) by {
            assert(init[j] == s[j] && init[i] == s[i]);
        }
        lemma_merge_apart(init, n);
        assert(m == merge_step(m0, iv, n));
        // No interval that was joined before starts after the new one.
        assert forall|k: int| 0 <= k < m0.len() implies !before(iv.0, (#[trigger] m0[k]).0, n)
            && starts_at(s, m0[k].0) by {
            assert(starts_at(init, m0[k].0));
            let idx = choose|idx: int| 0 <= idx < init.len() && (#[trigger] init[idx]).0 == m0[k].0;
            assert(s[idx] == init[idx]);
            assert(!by_from(n)(s[last], s[idx]));
        }
        assert(s[last].0 == iv.0);
        if m0.len() > 0 && !before(m0.last().1, iv.0, n) {
            if before(m0.last().1, iv.1, n) {
                let w = m0.len() - 1;
                assert forall|k: int| 0 <= k < m.len() implies starts_at(s, (#[trigger] m[k]).0) by {
                    if k < w {
                        assert(m[k] == m0[k]);
                    } else {
                        assert(m[k].0 == m0[w].0);
                    }
                }
                assert forall|i: int, j: int| 0 <= i < j < m.len() implies before(
                    (#[trigger] m[i]).1,
                    (#[trigger] m[j]).0,
                    n,
                ) && !before(m[j].0, m[i].0, n) by {
                    assert(m[i] == m0[i]);
                    if j < w {
                        assert(m[j] == m0[j]);
                    } else {
                        assert(m[j].0 == m0[w].0);
                    }
                }
            }
        } else {
            assert forall|k: int| 0 <= k < m.len() implies starts_at(s, (#[trigger] m[k]).0) by {
                if k < m0.len() {
                    assert(m[k] == m0[k]);
                }
            }
            assert forall|i: int, j: int| 0 <= i < j < m.len() implies before(
                (#[trigger] m[i]).1,
                (#[trigger] m[j]).0,
                n,
            ) && !before(m[j].0, m[i].0, n) by {
                assert(m[i] == m0[i]);
                if j < m0.len() {
                    assert(m[j] == m0[j]);
                } else {
                    let w = m0.len() - 1;
                    assert(m[j] == iv);
                    if i < w {
                        assert(before(m0[i].1, m0[w].0, n));
                        lemma_before_order(m0[i].1, m0[w].0, iv.0, n);
                        lemma_before_order(iv.0, m0[w].0, m0[i].1, n);
                        lemma_before_order(m0[w].0, iv.0, m0[i].1, n);
                    }
                }
            }
        }
    }
}

/// Joining intervals that stand in the order of their starts keeps their
/// points: a point lies in one of the joined intervals exactly if it lay
/// in one of the intervals.
proof fn lemma_merge_points(s: RangeModel, n: bool, p: BoundModel)
    requires
        in_order(s, by_from(n)),
    ensures
        holds_point(merge_all(s, n), p, n) <==> holds_point(s, p, n),
    decreases s.len(),
{
    if s.len() > 0 {
        let init = s.drop_last();
        let iv = s.last();
        let m0 = merge_all(init, n);
        let m = merge_all(s, n);
        let last = s.len() - 1;
        assert forall|i: int, j: int| 0 <= i < j < init.len() implies !by_from(n)(
            #[trigger] init[j],
            #[trigger] init[i],
        ) by {
            assert(init[j] == s[j] && init[i] == s[i]);
        }
        lemma_merge_points(init, n, p);
        lemma_merge_apart(init, n);
        // The points of the intervals are those of all but the last and of the last.
        if holds_point(s, p, n) {
            let i = choose|i: int| 0 <= i < s.len() && point_in(p, #[trigger] s[i], n);
            if i < last {
                assert(init[i] == s[i]);
            }
        }
        if holds_point(init, p, n) {
            let i = choose|i: int| 0 <= i < init.len() && point_in(p, #[trigger] init[i], n);
            assert(s[i] == init[i]);
        }
        assert(holds_point(s, p, n) <==> holds_point(init, p, n) || point_in(p, iv, n)) by {
            if point_in(p, iv, n) {
                assert(point_in(p, s[last], n));
            }
        }
        if m0.len() > 0 && !before(m0.last().1, iv.0, n) {
            let w = m0.len() - 1;
            let l = m0[w];
            assert(starts_at(init, l.0));
            let idx = choose|idx: int| 0 <= idx < init.len() && (#[trigger] init[idx]).0 == l.0;
            assert(s[idx] == init[idx]);
            assert(!by_from(n)(s[last], s[idx]));
            lemma_before_order(p, l.0, iv.0, n);
            lemma_before_order(p, iv.0, l.0, n);
            lemma_before_order(p, l.1, iv.1, n);
            lemma_before_order(p, iv.1, l.1, n);
            lemma_before_order(p, l.1, iv.0, n);
            lemma_before_order(p, iv.0, l.1, n);
            lemma_before_order(l.0, iv.0, p, n);
            lemma_before_order(iv.0, l.1, p, n);
            lemma_before_order(iv.0, p, l.1, n);
            lemma_before_order(l.1, p, iv.0, n);
            if before(l.1, iv.1, n) {
                let wide = (l.0, iv.1);
                assert(m[w] == wide);
                if holds_point(m, p, n) {
                    let i = choose|i: int| 0 <= i < m.len() && point_in(p, #[trigger] m[i], n);
                    if i < w {
                        assert(m0[i] == m[i]);
                    } else {
                        assert(point_in(p, m0[w], n) || point_in(p, iv, n));
                    }
                }
                if holds_point(m0, p, n) {
                    let i = choose|i: int| 0 <= i < m0.len() && point_in(p, #[trigger] m0[i], n);
                    if i < w {
                        assert(m[i] == m0[i]);
                    } else {
                        assert(point_in(p, m[w], n));
                    }
                }
                if point_in(p, iv, n) {
                    assert(point_in(p, m[w], n));
                }
            } else {
                if point_in(p, iv, n) {
                    assert(point_in(p, m0[w], n));
                }
            }
        } else {
            if holds_point(m, p, n) {
                let i = choose|i: int| 0 <= i < m.len() && point_in(p, #[trigger] m[i], n);
                if i < m0.len() {
                    assert(m0[i] == m[i]);
                }
            }
            if holds_point(m0, p, n) {
                let i = choose|i: int| 0 <= i < m0.len() && point_in(p, #[trigger] m0[i], n);
                assert(m[i] == m0[i]);
            }
            if point_in(p, iv, n) {
                assert(point_in(p, m[m0.len() as int], n));
            }
        }
    }
}

/// A multirange to which an interval was added holds its intervals in the
/// order of their starts, and no two of them overlap or touch.
pub proof fn lemma_added_is_apart(mr: RangeModel, from: BoundModel, until: BoundModel, n: bool)
    ensures
        kept_apart(multirange_added(mr, from, until, n), n),
{
    lemma_by_from_ranks(n);
    lemma_sort_in_order(mr.push((from, until)), by_from(n));
    lemma_merge_apart(sort_by(mr.push((from, until)), by_from(n)), n);
}

/// A multirange to which an interval was added holds the points that it
/// held before and those of the interval, and no others.
pub proof fn lemma_added_holds_points(
    mr: RangeModel,
    from: BoundModel,
    until: BoundModel,
    n: bool,
    p: BoundModel,
)
    ensures
        holds_point(multirange_added(mr, from, until, n), p, n) <==> (holds_point(mr, p, n)
            || point_in(p, (from, until), n)),
{
    let all = mr.push((from, until));
    let s = sort_by(all, by_from(n));
    lemma_by_from_ranks(n);
    lemma_sort_in_order(all, by_from(n));
    lemma_merge_points(s, n, p);
    if holds_point(s, p, n) {
        let i = choose|i: int| 0 <= i < s.len() && point_in(p, #[trigger] s[i], n);
        assert(s.contains(s[i]));
        lemma_sort_elements(all, by_from(n), s[i]);
        let j = choose|j: int| 0 <= j < all.len() && all[j] == s[i];
        if j < mr.len() {
            assert(point_in(p, mr[j], n));
        }
    }
    if holds_point(mr, p, n) {
        let j = choose|j: int| 0 <= j < mr.len() && point_in(p, #[trigger] mr[j], n);
        assert(all[j] == mr[j]);
        assert(all.contains(mr[j]));
        lemma_sort_elements(all, by_from(n), mr[j]);
        let i = choose|i: int| 0 <= i < s.len() && s[i] == mr[j];
        assert(point_in(p, s[i], n));
    }
    if point_in(p, (from, until), n) {
        assert(all[mr.len() as int] == (from, until));
        assert(all.contains((from, until)));
        lemma_sort_elements(all, by_from(n), (from, until));
        let i = choose|i: int| 0 <= i < s.len() && s[i] == (from, until);
        assert(point_in(p, s[i], n));
    }
}

/// Whether every point of `[from, until)` lies in one of the intervals.
pub open spec fn holds_all_points(mr: RangeModel, from: BoundModel, until: BoundModel, n: bool) -> bool {
    forall|p: BoundModel| #[trigger] point_in(p, (from, until), n) ==> holds_point(mr, p, n)
}

/// Of intervals that lie apart, one holds all of an interval that is not
/// empty exactly if every point of that interval lies in one of them.
pub proof fn lemma_covers_is_all_points(mr: RangeModel, from: BoundModel, until: BoundModel, n: bool)
    requires
        kept_apart(mr, n),
        before(from, until, n),
    ensures
        multirange_covers(mr, from, until, n) <==> holds_all_points(mr, from, until, n),
{
    if multirange_covers(mr, from, until, n) {
        let i = choose|i: int|
            0 <= i < mr.len() && !before(from, (#[trigger] mr[i]).0, n) && !before(mr[i].1, until, n);
        assert forall|p: BoundModel| #[trigger] point_in(p, (from, until), n) implies holds_point(
            mr,
            p,
            n,
        ) by {
            lemma_before_order(p, from, mr[i].0, n);
            lemma_before_order(p, mr[i].0, from, n);
            lemma_before_order(p, until, mr[i].1, n);
            lemma_before_order(p, mr[i].1, until, n);
            assert(point_in(p, mr[i], n));
        }
    }
    if holds_all_points(mr, from, until, n) {
        lemma_before_order(from, from, until, n);
        assert(point_in(from, (from, until), n));
        let i = choose|i: int| 0 <= i < mr.len() && point_in(from, #[trigger] mr[i], n);
        let q = mr[i].1;
        if before(q, until, n) {
            lemma_before_order(q, from, q, n);
            assert(point_in(q, (from, until), n));
            let j = choose|j: int| 0 <= j < mr.len() && point_in(q, #[trigger] mr[j], n);
            if j > i {
                assert(before(mr[i].1, mr[j].0, n));
            } else if j < i {
                assert(before(mr[j].1, mr[i].0, n));
                lemma_before_order(mr[j].1, mr[i].0, from, n);
                lemma_before_order(from, mr[i].0, mr[j].1, n);
                lemma_before_order(mr[i].0, from, mr[j].1, n);
                lemma_before_order(mr[j].1, from, q, n);
                lemma_before_order(q, mr[j].1, from, n);
            }
            assert(false);
        }
        assert(!before(from, mr[i].0, n) && !before(mr[i].1, until, n));
    }
}

/// Whether the point `p` lies in the interval of one of the rows `ord`
/// that has no early feedback.
pub open spec fn shaded(rows: Seq<MatchedModel>, ord: Seq<(i64, usize)>, n: bool, p: BoundModel) -> bool {
    exists|k: int|
        0 <= k < ord.len() && rows[(#[trigger] ord[k]).1 as int].early_feedback is None && point_in(
            p,
            (rows[ord[k].1 as int].source.valid_from, rows[ord[k].1 as int].source.valid_until),
            n,
        )
}

/// The multirange of rows holds its intervals apart, and holds the points
/// of the intervals of the rows and no others.
pub proof fn lemma_range_of_rows(rows: Seq<MatchedModel>, ord: Seq<(i64, usize)>, n: bool, p: BoundModel)
    ensures
        kept_apart(range_of(rows, ord, n), n),
        holds_point(range_of(rows, ord, n), p, n) <==> shaded(rows, ord, n, p),
    decreases ord.len(),
{
    if ord.len() > 0 {
        let init = ord.drop_last();
        let last = ord.len() - 1;
        let mr = range_of(rows, init, n);
        let r = rows[ord.last().1 as int];
        lemma_range_of_rows(rows, init, n, p);
        if shaded(rows, init, n, p) {
            let k = choose|k: int|
                0 <= k < init.len() && rows[(#[trigger] init[k]).1 as int].early_feedback is None
                    && point_in(
                    p,
                    (
                        rows[init[k].1 as int].source.valid_from,
                        rows[init[k].1 as int].source.valid_until,
                    ),
                    n,
                );
            assert(ord[k] == init[k]);
        }
        if shaded(rows, ord, n, p) {
            let k = choose|k: int|
                0 <= k < ord.len() && rows[(#[trigger] ord[k]).1 as int].early_feedback is None
                    && point_in(
                    p,
                    (
                        rows[ord[k].1 as int].source.valid_from,
                        rows[ord[k].1 as int].source.valid_until,
                    ),
                    n,
                );
            if k < last {
                assert(init[k] == ord[k]);
            }
        }
        if r.early_feedback is None {
            lemma_added_is_apart(mr, r.source.valid_from, r.source.valid_until, n);
            lemma_added_holds_points(mr, r.source.valid_from, r.source.valid_until, n, p);
            if point_in(p, (r.source.valid_from, r.source.valid_until), n) {
                assert(rows[ord[last].1 as int] == r);
            }
        }
    }
}

/// A row whose interval is not empty is eclipsed exactly if it has no
/// early feedback and every point of its interval lies in the interval of
/// a row that stands before it in `ord` and has no early feedback: the
/// interval lies in the union of those of the rows before it.
pub proof fn lemma_eclipsed_is_shaded(rows: Seq<MatchedModel>, ord: Seq<(i64, usize)>, n: bool, i: int)
    requires
        0 <= i < rows.len(),
        before(rows[i].source.valid_from, rows[i].source.valid_until, n),
    ensures
        eclipsed_in(rows, ord, n, i) <==> (rows[i].early_feedback is None && exists|p: int|
            0 <= p < ord.len() && (#[trigger] ord[p]).1 == i && forall|q: BoundModel| #[trigger]
                point_in(q, (rows[i].source.valid_from, rows[i].source.valid_until), n) ==> shaded(
                    rows,
                    ord.take(p),
                    n,
                    q,
                )),
{
    let from = rows[i].source.valid_from;
    let until = rows[i].source.valid_until;
    assert forall|p: int| 0 <= p < ord.len() implies (multirange_covers(
        range_of(rows, #[trigger] ord.take(p), n),
        from,
        until,
        n,
    ) <==> forall|q: BoundModel| #[trigger]
        point_in(q, (from, until), n) ==> shaded(rows, ord.take(p), n, q)) by {
        let mr = range_of(rows, ord.take(p), n);
        lemma_range_of_rows(rows, ord.take(p), n, from);
        lemma_covers_is_all_points(mr, from, until, n);
        assert forall|q: BoundModel| holds_point(mr, q, n) <==> shaded(rows, ord.take(p), n, q) by {
            lemma_range_of_rows(rows, ord.take(p), n, q);
        }
    }
}

/// A row whose interval is not empty is eclipsed exactly if it has no
/// early feedback and its interval lies in the union of the intervals of
/// the rows of its partition that have a higher row id and no early
/// feedback.
pub proof fn lemma_eclipsed_by_later_rows(rows: Seq<MatchedModel>, ctx: ContextModel, i: int)
    requires
        0 <= i < rows.len(),
        before(rows[i].source.valid_from, rows[i].source.valid_until, ctx.numeric),
    ensures
        eclipsed(rows, ctx, i) <==> (rows[i].early_feedback is None && exists|p: int|
            0 <= p < partition_order(rows, ctx, partition_key(rows[i].source, ctx)).len()
                && (#[trigger] partition_order(rows, ctx, partition_key(rows[i].source, ctx))[p]).1
                == i && forall|q: BoundModel| #[trigger]
                point_in(q, (rows[i].source.valid_from, rows[i].source.valid_until), ctx.numeric)
                    ==> shaded(
                    rows,
                    partition_order(rows, ctx, partition_key(rows[i].source, ctx)).take(p),
                    ctx.numeric,
                    q,
                )),
{
    lemma_eclipsed_is_shaded(
        rows,
        partition_order(rows, ctx, partition_key(rows[i].source, ctx)),
        ctx.numeric,
        i,
    );
}

} // verus!
