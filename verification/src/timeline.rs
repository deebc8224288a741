use crate::coalesce::{coalesced, continues, run_of, run_with, runs, tidy};
use crate::coverage::{lemma_bound_order_ranks, lemma_without_repeats};
use crate::interval::{before, lemma_before_order, level, BoundModel};
use crate::ranges::{holds_point, point_in};
use crate::resolve::{resolve_one, resolved_segments};
use crate::segments::{
    active_rows, atomic_segments, bound_order, group_causal_id, is_active, kept_by_mode,
    rows_kept, segments_between, source_bounds, target_bounds, time_points,
};
use crate::sorting::{in_order, lemma_sort_elements, lemma_sort_in_order, sort_by};
use crate::types::{
    AtomicSegmentModel, CoalescedSegmentModel, ContextModel, GroupModel, MatchedModel, MergeMode,
    ResolvedSegmentModel, TargetRowModel,
};
use vstd::prelude::*;

verus! {

/// An interval by its two ends.
pub type Span = (BoundModel, BoundModel);

/// Whether the intervals lie apart in the order of time: none is empty,
/// and each ends before the next starts, or where it starts.
pub open spec fn lie_apart(spans: Seq<Span>, n: bool) -> bool {
    &&& forall|k: int| 0 <= k < spans.len() ==> before((#[trigger] spans[k]).0, spans[k].1, n)
    &&& forall|k: int, l: int|
        0 <= k < l < spans.len() ==> !before((#[trigger] spans[l]).0, (#[trigger] spans[k]).1, n)
}

/// The intervals of atomic segments.
pub open spec fn atomic_spans(segs: Seq<AtomicSegmentModel>) -> Seq<Span> {
    segs.map_values(|s: AtomicSegmentModel| (s.valid_from, s.valid_until))
}

/// The intervals of resolved segments.
pub open spec fn resolved_spans(segs: Seq<ResolvedSegmentModel>) -> Seq<Span> {
    segs.map_values(|s: ResolvedSegmentModel| (s.valid_from, s.valid_until))
}

/// The intervals of coalesced segments.
pub open spec fn coalesced_spans(segs: Seq<CoalescedSegmentModel>) -> Seq<Span> {
    segs.map_values(|s: CoalescedSegmentModel| (s.valid_from, s.valid_until))
}

/// The points in time of a group stand in the order of time.
pub proof fn lemma_time_points_in_order(group: GroupModel, active: Seq<MatchedModel>, n: bool)
    ensures
        in_order(time_points(group, active, n), bound_order(n)),
{
    let all = target_bounds(source_bounds(active), group.target_rows);
    lemma_bound_order_ranks(n);
    lemma_sort_in_order(all, bound_order(n));
    lemma_without_repeats(sort_by(all, bound_order(n)), n);
}

/// The segments between points that stand in order lie apart, and none
/// ends after the last point.
proof fn lemma_segments_lie_apart(
    group: GroupModel,
    cid: Option<Seq<char>>,
    points: Seq<BoundModel>,
    n: bool,
)
    requires
        in_order(points, bound_order(n)),
    ensures
        lie_apart(atomic_spans(segments_between(group, cid, points, n)), n),
        forall|k: int|
            0 <= k < segments_between(group, cid, points, n).len() ==> !before(
                points.last(),
                (#[trigger] segments_between(group, cid, points, n)[k]).valid_until,
                n,
            ),
    decreases points.len(),
{
    let segs = segments_between(group, cid, points, n);
    let spans = atomic_spans(segs);
    if points.len() >= 2 {
        let init = points.drop_last();
        let rest = segments_between(group, cid, init, n);
        assert forall|i: int, j: int| 0 <= i < j < init.len() implies !bound_order(n)(
            #[trigger] init[j],
            #[trigger] init[i],
        ) by {
            assert(init[j] == points[j] && init[i] == points[i]);
        }
        lemma_segments_lie_apart(group, cid, init, n);
        let from = points[points.len() - 2];
        let until = points.last();
        assert(init.last() == from);
        assert(!bound_order(n)(points[points.len() - 1], points[points.len() - 2]));
        lemma_before_order(until, until, until, n);
        assert forall|k: int| 0 <= k < segs.len() implies !before(
            until,
            (#[trigger] segs[k]).valid_until,
            n,
        ) by {
            if k < rest.len() {
                assert(segs[k] == rest[k]);
                lemma_before_order(until, from, rest[k].valid_until, n);
                lemma_before_order(from, until, rest[k].valid_until, n);
                lemma_before_order(until, rest[k].valid_until, from, n);
                lemma_before_order(rest[k].valid_until, from, until, n);
                lemma_before_order(from, rest[k].valid_until, until, n);
                lemma_before_order(rest[k].valid_until, until, from, n);
            }
        }
        assert forall|k: int| 0 <= k < spans.len() implies before(
            (#[trigger] spans[k]).0,
            spans[k].1,
            n,
        ) by {
            if k < rest.len() {
                assert(spans[k] == atomic_spans(rest)[k]);
            }
        }
        assert forall|k: int, l: int| 0 <= k < l < spans.len() implies !before(
            (#[trigger] spans[l]).0,
            (#[trigger] spans[k]).1,
            n,
        ) by {
            assert(spans[k] == atomic_spans(rest)[k]);
            if l < rest.len() {
                assert(spans[l] == atomic_spans(rest)[l]);
            } else {
                assert(spans[l].0 == from);
                assert(spans[k].1 == rest[k].valid_until);
            }
        }
    }
}

/// The atomic segments of a group lie apart in the order of time.
pub proof fn lemma_atomic_segments_lie_apart(group: GroupModel, active: Seq<MatchedModel>, ctx: ContextModel)
    ensures
        lie_apart(atomic_spans(atomic_segments(group, active, ctx)), ctx.numeric),
{
    lemma_time_points_in_order(group, active, ctx.numeric);
    lemma_segments_lie_apart(
        group,
        group_causal_id(group, active),
        time_points(group, active, ctx.numeric),
        ctx.numeric,
    );
}

/// Whether one of the segments has this interval.
pub open spec fn among(segs: Seq<AtomicSegmentModel>, span: Span) -> bool {
    exists|j: int| 0 <= j < segs.len() && #[trigger] atomic_spans(segs)[j] == span
}

/// Each resolved segment has the interval of an atomic segment, and the
/// resolved segments of segments that lie apart lie apart.
pub proof fn lemma_resolved_lie_apart(
    segs: Seq<AtomicSegmentModel>,
    active: Seq<MatchedModel>,
    targets: Seq<TargetRowModel>,
    ctx: ContextModel,
)
    requires
        lie_apart(atomic_spans(segs), ctx.numeric),
    ensures
        lie_apart(resolved_spans(resolved_segments(segs, active, targets, ctx)), ctx.numeric),
        forall|i: int|
            0 <= i < resolved_segments(segs, active, targets, ctx).len() ==> among(
                segs,
                #[trigger] resolved_spans(resolved_segments(segs, active, targets, ctx))[i],
            ),
    decreases segs.len(),
{
    let n = ctx.numeric;
    let all = resolved_segments(segs, active, targets, ctx);
    let spans = resolved_spans(all);
    if segs.len() > 0 {
        let init = segs.drop_last();
        let rest = resolved_segments(init, active, targets, ctx);
        assert forall|k: int| 0 <= k < init.len() implies atomic_spans(init)[k] == atomic_spans(
            segs,
        )[k] by {
            assert(init[k] == segs[k]);
        }
        assert(lie_apart(atomic_spans(init), n)) by {
            assert forall|k: int| 0 <= k < init.len() implies before(
                (#[trigger] atomic_spans(init)[k]).0,
                atomic_spans(init)[k].1,
                n,
            ) by {
                assert(atomic_spans(init)[k] == atomic_spans(segs)[k]);
            }
            assert forall|k: int, l: int| 0 <= k < l < init.len() implies !before(
                (#[trigger] atomic_spans(init)[l]).0,
                (#[trigger] atomic_spans(init)[k]).1,
                n,
            ) by {
                assert(atomic_spans(init)[k] == atomic_spans(segs)[k]);
                assert(atomic_spans(init)[l] == atomic_spans(segs)[l]);
            }
        }
        lemma_resolved_lie_apart(init, active, targets, ctx);
        let last = segs.len() - 1;
        assert forall|i: int| 0 <= i < all.len() implies among(segs, #[trigger] spans[i]) by {
            if i < rest.len() {
                assert(spans[i] == resolved_spans(rest)[i]);
                assert(among(init, resolved_spans(rest)[i]));
                let j = choose|j: int|
                    0 <= j < init.len() && #[trigger] atomic_spans(init)[j] == resolved_spans(
                        rest,
                    )[i];
                assert(atomic_spans(segs)[j] == spans[i]);
            } else {
                assert(all[i] == resolve_one(segs[last], active, targets, ctx)->0);
                assert(atomic_spans(segs)[last] == spans[i]);
            }
        }
        assert forall|k: int| 0 <= k < spans.len() implies before(
            (#[trigger] spans[k]).0,
            spans[k].1,
            n,
        ) by {
            assert(among(segs, spans[k]));
            let j = choose|j: int| 0 <= j < segs.len() && #[trigger] atomic_spans(segs)[j] == spans[k];
            assert(before(atomic_spans(segs)[j].0, atomic_spans(segs)[j].1, n));
        }
        assert forall|k: int, l: int| 0 <= k < l < spans.len() implies !before(
            (#[trigger] spans[l]).0,
            (#[trigger] spans[k]).1,
            n,
        ) by {
            assert(spans[k] == resolved_spans(rest)[k]);
            if l < rest.len() {
                assert(spans[l] == resolved_spans(rest)[l]);
            } else {
                assert(among(init, resolved_spans(rest)[k]));
                let j = choose|j: int|
                    0 <= j < init.len() && #[trigger] atomic_spans(init)[j] == resolved_spans(
                        rest,
                    )[k];
                assert(all[l] == resolve_one(segs[last], active, targets, ctx)->0);
                assert(spans[l] == atomic_spans(segs)[last]);
                assert(atomic_spans(segs)[j] == spans[k]);
                assert(!before(atomic_spans(segs)[last].0, atomic_spans(segs)[j].1, n));
            }
        }
    }
}

/// The runs of segments that lie apart lie apart, and the last run ends
/// where the last segment ends.
pub proof fn lemma_runs_lie_apart(resolved: Seq<ResolvedSegmentModel>, n: bool)
    requires
        lie_apart(resolved_spans(resolved), n),
    ensures
        lie_apart(coalesced_spans(runs(resolved)), n),
        resolved.len() > 0 ==> runs(resolved).len() > 0 && runs(resolved).last().valid_until
            == resolved.last().valid_until,
    decreases resolved.len(),
{
    let out = runs(resolved);
    let spans = coalesced_spans(out);
    if resolved.len() > 0 {
        let init = resolved.drop_last();
        let seg = resolved.last();
        let prev = runs(init);
        let last = resolved.len() - 1;
        assert(lie_apart(resolved_spans(init), n)) by {
            assert forall|k: int| 0 <= k < init.len() implies before(
                (#[trigger] resolved_spans(init)[k]).0,
                resolved_spans(init)[k].1,
                n,
            ) by {
                assert(resolved_spans(init)[k] == resolved_spans(resolved)[k]);
            }
            assert forall|k: int, l: int| 0 <= k < l < init.len() implies !before(
                (#[trigger] resolved_spans(init)[l]).0,
                (#[trigger] resolved_spans(init)[k]).1,
                n,
            ) by {
                assert(resolved_spans(init)[k] == resolved_spans(resolved)[k]);
                assert(resolved_spans(init)[l] == resolved_spans(resolved)[l]);
            }
        }
        lemma_runs_lie_apart(init, n);
        assert(resolved_spans(resolved)[last] == (seg.valid_from, seg.valid_until));
        assert(before(seg.valid_from, seg.valid_until, n));
        // The segment starts where the run before it ends, or after.
        if init.len() > 0 {
            assert(resolved_spans(resolved)[last - 1].1 == init.last().valid_until);
            assert(!before(resolved_spans(resolved)[last].0, resolved_spans(resolved)[last - 1].1, n));
            assert(!before(seg.valid_from, prev.last().valid_until, n));
        }
        let prev_spans = coalesced_spans(prev);
        if prev.len() > 0 && continues(prev.last(), seg) {
            let c = prev.last();
            let p = prev.len() - 1;
            assert(prev_spans[p] == (c.valid_from, c.valid_until));
            assert(before(c.valid_from, c.valid_until, n));
            lemma_before_order(c.valid_from, c.valid_until, seg.valid_from, n);
            lemma_before_order(c.valid_from, seg.valid_from, seg.valid_until, n);
            lemma_before_order(c.valid_until, seg.valid_from, seg.valid_until, n);
            lemma_before_order(c.valid_from, c.valid_until, seg.valid_until, n);
            assert(before(c.valid_from, seg.valid_until, n));
            assert forall|k: int| 0 <= k < spans.len() implies before(
                (#[trigger] spans[k]).0,
                spans[k].1,
                n,
            ) by {
                if k < p {
                    assert(spans[k] == prev_spans[k]);
                } else {
                    assert(out[k] == run_with(c, seg));
                }
            }
            assert forall|k: int, l: int| 0 <= k < l < spans.len() implies !before(
                (#[trigger] spans[l]).0,
                (#[trigger] spans[k]).1,
                n,
            ) by {
                assert(spans[k] == prev_spans[k]);
                if l < p {
                    assert(spans[l] == prev_spans[l]);
                } else {
                    assert(out[l] == run_with(c, seg));
                    assert(spans[l].0 == prev_spans[p].0);
                }
            }
        } else {
            assert forall|k: int| 0 <= k < spans.len() implies before(
                (#[trigger] spans[k]).0,
                spans[k].1,
                n,
            ) by {
                if k < prev.len() {
                    assert(spans[k] == prev_spans[k]);
                } else {
                    assert(out[k] == run_of(seg));
                }
            }
            assert forall|k: int, l: int| 0 <= k < l < spans.len() implies !before(
                (#[trigger] spans[l]).0,
                (#[trigger] spans[k]).1,
                n,
            ) by {
                assert(spans[k] == prev_spans[k]);
                if l < prev.len() {
                    assert(spans[l] == prev_spans[l]);
                } else {
                    assert(out[l] == run_of(seg));
                    // Each run ends where the last run ends, or before.
                    let p = prev.len() - 1;
                    if k < p {
                        assert(!before(prev_spans[p].0, prev_spans[k].1, n));
                        assert(before(prev_spans[p].0, prev_spans[p].1, n));
                        lemma_before_order(prev_spans[k].1, prev_spans[p].0, prev_spans[p].1, n);
                        lemma_before_order(prev_spans[p].0, prev_spans[k].1, prev_spans[p].1, n);
                        lemma_before_order(prev_spans[k].1, prev_spans[p].1, seg.valid_from, n);
                        lemma_before_order(seg.valid_from, prev_spans[k].1, prev_spans[p].1, n);
                        lemma_before_order(seg.valid_from, prev_spans[p].1, prev_spans[k].1, n);
                        lemma_before_order(prev_spans[p].1, seg.valid_from, prev_spans[k].1, n);
                    }
                    assert(prev_spans[p].1 == prev.last().valid_until);
                }
            }
        }
    }
}

/// The segments that a group is planned to hold lie apart in the order of
/// time, whatever the source and the target hold: none is empty, and no
/// two of them overlap.
pub proof fn lemma_final_segments_lie_apart(
    group: GroupModel,
    active: Seq<MatchedModel>,
    ctx: ContextModel,
)
    ensures
        lie_apart(
            coalesced_spans(
                coalesced(
                    resolved_segments(
                        atomic_segments(group, active, ctx),
                        active,
                        group.target_rows,
                        ctx,
                    ),
                ),
            ),
            ctx.numeric,
        ),
{
    let n = ctx.numeric;
    let segs = atomic_segments(group, active, ctx);
    lemma_atomic_segments_lie_apart(group, active, ctx);
    lemma_resolved_lie_apart(segs, active, group.target_rows, ctx);
    let resolved = resolved_segments(segs, active, group.target_rows, ctx);
    lemma_runs_lie_apart(resolved, n);
    let joined = coalesced(resolved);
    assert forall|k: int| 0 <= k < joined.len() implies coalesced_spans(joined)[k]
        == coalesced_spans(runs(resolved))[k] by {
        assert(joined[k] == tidy(runs(resolved)[k]));
    }
    assert(coalesced_spans(joined) =~= coalesced_spans(runs(resolved)));
}

/// Whether `b` is an end of a source row or of a target row of the group.
pub open spec fn is_end(group: GroupModel, b: BoundModel) -> bool {
    ||| exists|i: int|
        0 <= i < group.source_rows.len() && ((#[trigger] group.source_rows[i]).source.valid_from == b
            || group.source_rows[i].source.valid_until == b)
    ||| exists|k: int|
        0 <= k < group.target_rows.len() && ((#[trigger] group.target_rows[k]).valid_from == b
            || group.target_rows[k].valid_until == b)
}

/// The segments that a group is planned to hold.
pub open spec fn group_segments(group: GroupModel, ctx: ContextModel) -> Seq<CoalescedSegmentModel> {
    let kept = rows_kept(active_rows(group.source_rows), ctx.mode);
    coalesced(resolved_segments(atomic_segments(group, kept, ctx), kept, group.target_rows, ctx))
}

/// An active row is one of the rows, and is active.
pub proof fn lemma_active_among(rows: Seq<MatchedModel>, m: MatchedModel)
    requires
        active_rows(rows).contains(m),
    ensures
        rows.contains(m),
        is_active(m),
    decreases rows.len(),
{
    let all = active_rows(rows);
    let k = choose|k: int| 0 <= k < all.len() && all[k] == m;
    let init = rows.drop_last();
    let rest = active_rows(init);
    if k < rest.len() {
        assert(rest[k] == m);
        lemma_active_among(init, m);
        let j = choose|j: int| 0 <= j < init.len() && init[j] == m;
        assert(rows[j] == m);
    } else {
        assert(rows[rows.len() - 1] == m);
    }
}

/// A row that the mode has a use for is one of the rows, and the mode has
/// a use for it.
pub proof fn lemma_kept_among(rows: Seq<MatchedModel>, mode: MergeMode, m: MatchedModel)
    requires
        rows_kept(rows, mode).contains(m),
    ensures
        rows.contains(m),
        kept_by_mode(m, mode),
    decreases rows.len(),
{
    let all = rows_kept(rows, mode);
    let k = choose|k: int| 0 <= k < all.len() && all[k] == m;
    let init = rows.drop_last();
    let rest = rows_kept(init, mode);
    if k < rest.len() {
        assert(rest[k] == m);
        lemma_kept_among(init, mode, m);
        let j = choose|j: int| 0 <= j < init.len() && init[j] == m;
        assert(rows[j] == m);
    } else {
        assert(rows[rows.len() - 1] == m);
    }
}

/// Each of the ends of source rows is the end of one of them.
proof fn lemma_source_bound_from(rows: Seq<MatchedModel>, x: BoundModel)
    requires
        source_bounds(rows).contains(x),
    ensures
        exists|i: int|
            0 <= i < rows.len() && ((#[trigger] rows[i]).source.valid_from == x
                || rows[i].source.valid_until == x),
    decreases rows.len(),
{
    let all = source_bounds(rows);
    let k = choose|k: int| 0 <= k < all.len() && all[k] == x;
    let init = rows.drop_last();
    let rest = source_bounds(init);
    if k < rest.len() {
        assert(rest[k] == x);
        lemma_source_bound_from(init, x);
        let i = choose|i: int|
            0 <= i < init.len() && ((#[trigger] init[i]).source.valid_from == x
                || init[i].source.valid_until == x);
        assert(rows[i] == init[i]);
    } else {
        let i = rows.len() - 1;
        assert(rows[i].source.valid_from == x || rows[i].source.valid_until == x);
    }
}

/// Each of the ends behind `acc` is the end of a target row.
proof fn lemma_target_bound_from(acc: Seq<BoundModel>, rows: Seq<TargetRowModel>, x: BoundModel)
    requires
        target_bounds(acc, rows).contains(x),
    ensures
        acc.contains(x) || exists|k: int|
            0 <= k < rows.len() && ((#[trigger] rows[k]).valid_from == x || rows[k].valid_until == x),
    decreases rows.len(),
{
    if rows.len() > 0 {
        let all = target_bounds(acc, rows);
        let j = choose|j: int| 0 <= j < all.len() && all[j] == x;
        let init = rows.drop_last();
        let rest = target_bounds(acc, init);
        if j < rest.len() {
            assert(rest[j] == x);
            lemma_target_bound_from(acc, init, x);
            if !acc.contains(x) {
                let k = choose|k: int|
                    0 <= k < init.len() && ((#[trigger] init[k]).valid_from == x
                        || init[k].valid_until == x);
                assert(rows[k] == init[k]);
            }
        } else {
            let k = rows.len() - 1;
            assert(rows[k].valid_from == x || rows[k].valid_until == x);
        }
    }
}

/// Each point in time of a group is an end of one of its rows.
proof fn lemma_point_is_end(group: GroupModel, ctx: ContextModel, x: BoundModel)
    requires
        time_points(group, rows_kept(active_rows(group.source_rows), ctx.mode), ctx.numeric).contains(x),
    ensures
        is_end(group, x),
{
    let n = ctx.numeric;
    let kept = rows_kept(active_rows(group.source_rows), ctx.mode);
    let all = target_bounds(source_bounds(kept), group.target_rows);
    lemma_without_repeats(sort_by(all, bound_order(n)), n);
    lemma_sort_elements(all, bound_order(n), x);
    lemma_target_bound_from(source_bounds(kept), group.target_rows, x);
    if source_bounds(kept).contains(x) {
        lemma_source_bound_from(kept, x);
        let i = choose|i: int|
            0 <= i < kept.len() && ((#[trigger] kept[i]).source.valid_from == x
                || kept[i].source.valid_until == x);
        assert(kept.contains(kept[i]));
        lemma_kept_among(active_rows(group.source_rows), ctx.mode, kept[i]);
        lemma_active_among(group.source_rows, kept[i]);
        let j = choose|j: int| 0 <= j < group.source_rows.len() && group.source_rows[j] == kept[i];
        assert(group.source_rows[j].source.valid_from == x || group.source_rows[j].source.valid_until
            == x);
    }
}

/// Each segment between points starts at one of them.
proof fn lemma_segment_starts_at_point(
    group: GroupModel,
    cid: Option<Seq<char>>,
    points: Seq<BoundModel>,
    n: bool,
    k: int,
)
    requires
        0 <= k < segments_between(group, cid, points, n).len(),
    ensures
        points.contains(segments_between(group, cid, points, n)[k].valid_from),
    decreases points.len(),
{
    let init = points.drop_last();
    let rest = segments_between(group, cid, init, n);
    if k < rest.len() {
        lemma_segment_starts_at_point(group, cid, init, n, k);
        let j = choose|j: int| 0 <= j < init.len() && init[j] == rest[k].valid_from;
        assert(points[j] == init[j]);
    } else {
        assert(points[points.len() - 2] == segments_between(group, cid, points, n)[k].valid_from);
    }
}

/// Each run starts where one of the segments starts.
proof fn lemma_run_starts_with_segment(resolved: Seq<ResolvedSegmentModel>, k: int)
    requires
        0 <= k < runs(resolved).len(),
    ensures
        exists|j: int|
            0 <= j < resolved.len() && (#[trigger] resolved[j]).valid_from == runs(
                resolved,
            )[k].valid_from,
    decreases resolved.len(),
{
    let init = resolved.drop_last();
    let prev = runs(init);
    let seg = resolved.last();
    let merged = prev.len() > 0 && continues(prev.last(), seg);
    if k < prev.len() {
        lemma_run_starts_with_segment(init, k);
        let j = choose|j: int|
            0 <= j < init.len() && (#[trigger] init[j]).valid_from == prev[k].valid_from;
        assert(resolved[j] == init[j]);
        if merged && k == prev.len() - 1 {
            assert(runs(resolved)[k] == run_with(prev.last(), seg));
        } else {
            assert(runs(resolved)[k] == prev[k]);
        }
    } else {
        assert(runs(resolved)[k] == run_of(seg));
        assert(resolved[resolved.len() - 1].valid_from == runs(resolved)[k].valid_from);
    }
}

/// Each segment that a group is planned to hold starts at an end of one of
/// the rows of the group.
pub proof fn lemma_final_segment_starts_at_end(group: GroupModel, ctx: ContextModel, k: int)
    requires
        0 <= k < group_segments(group, ctx).len(),
    ensures
        is_end(group, group_segments(group, ctx)[k].valid_from),
{
    let n = ctx.numeric;
    let kept = rows_kept(active_rows(group.source_rows), ctx.mode);
    let atoms = atomic_segments(group, kept, ctx);
    let resolved = resolved_segments(atoms, kept, group.target_rows, ctx);
    assert(group_segments(group, ctx)[k] == tidy(runs(resolved)[k]));
    lemma_run_starts_with_segment(resolved, k);
    let j = choose|j: int|
        0 <= j < resolved.len() && (#[trigger] resolved[j]).valid_from == runs(resolved)[k].valid_from;
    lemma_atomic_segments_lie_apart(group, kept, ctx);
    lemma_resolved_lie_apart(atoms, kept, group.target_rows, ctx);
    assert(among(atoms, resolved_spans(resolved)[j]));
    let a = choose|a: int|
        0 <= a < atoms.len() && #[trigger] atomic_spans(atoms)[a] == resolved_spans(resolved)[j];
    lemma_segment_starts_at_point(
        group,
        group_causal_id(group, kept),
        time_points(group, kept, n),
        n,
        a,
    );
    lemma_point_is_end(group, ctx, atoms[a].valid_from);
}

/// Whether segments that touch as they are written touch in the order of
/// time: where one is written to end where a later one is written to
/// start, neither bound lies before the other. Where bounds are ordered as
/// they are written this is always so.
pub open spec fn touch_as_written(resolved: Seq<ResolvedSegmentModel>, n: bool) -> bool {
    forall|i: int, j: int|
        0 <= i < j < resolved.len() && (#[trigger] resolved[i]).valid_until.text == (
        #[trigger] resolved[j]).valid_from.text ==> level(
            resolved[i].valid_until,
            resolved[j].valid_from,
            n,
        )
}

/// Bounds that are ordered as they are written touch where they are
/// written to touch.
pub proof fn lemma_texts_touch(resolved: Seq<ResolvedSegmentModel>)
    ensures
        touch_as_written(resolved, false),
{
    assert forall|i: int, j: int|
        0 <= i < j < resolved.len() && (#[trigger] resolved[i]).valid_until.text == (
        #[trigger] resolved[j]).valid_from.text implies level(
        resolved[i].valid_until,
        resolved[j].valid_from,
        false,
    ) by {
        lemma_before_order(resolved[i].valid_until, resolved[j].valid_from, resolved[i].valid_until, false);
    }
}

/// Coalescing keeps the points in time: a point lies in one of the
/// coalesced segments exactly if it lay in one of the segments.
pub proof fn lemma_coalesced_hold_points(resolved: Seq<ResolvedSegmentModel>, n: bool, p: BoundModel)
    requires
        lie_apart(resolved_spans(resolved), n),
        touch_as_written(resolved, n),
    ensures
        holds_point(coalesced_spans(coalesced(resolved)), p, n) <==> holds_point(
            resolved_spans(resolved),
            p,
            n,
        ),
{
    lemma_runs_hold_points(resolved, n, p);
    let joined = coalesced(resolved);
    assert forall|k: int| 0 <= k < joined.len() implies coalesced_spans(joined)[k]
        == coalesced_spans(runs(resolved))[k] by {
        assert(joined[k] == tidy(runs(resolved)[k]));
    }
    assert(coalesced_spans(joined) =~= coalesced_spans(runs(resolved)));
}

proof fn lemma_runs_hold_points(resolved: Seq<ResolvedSegmentModel>, n: bool, p: BoundModel)
    requires
        lie_apart(resolved_spans(resolved), n),
        touch_as_written(resolved, n),
    ensures
        holds_point(coalesced_spans(runs(resolved)), p, n) <==> holds_point(
            resolved_spans(resolved),
            p,
            n,
        ),
    decreases resolved.len(),
{
    let out = runs(resolved);
    let spans = coalesced_spans(out);
    let all = resolved_spans(resolved);
    if resolved.len() > 0 {
        let init = resolved.drop_last();
        let seg = resolved.last();
        let prev = runs(init);
        let last = resolved.len() - 1;
        let prev_spans = coalesced_spans(prev);
        let init_spans = resolved_spans(init);
        assert(lie_apart(init_spans, n)) by {
            assert forall|k: int| 0 <= k < init.len() implies before(
                (#[trigger] init_spans[k]).0,
                init_spans[k].1,
                n,
            ) by {
                assert(init_spans[k] == all[k]);
            }
            assert forall|k: int, l: int| 0 <= k < l < init.len() implies !before(
                (#[trigger] init_spans[l]).0,
                (#[trigger] init_spans[k]).1,
                n,
            ) by {
                assert(init_spans[k] == all[k]);
                assert(init_spans[l] == all[l]);
            }
        }
        assert(touch_as_written(init, n)) by {
            assert forall|i: int, j: int|
                0 <= i < j < init.len() && (#[trigger] init[i]).valid_until.text == (
                #[trigger] init[j]).valid_from.text implies level(
                init[i].valid_until,
                init[j].valid_from,
                n,
            ) by {
                assert(init[i] == resolved[i] && init[j] == resolved[j]);
            }
        }
        lemma_runs_hold_points(init, n, p);
        lemma_runs_lie_apart(init, n);
        let iv = (seg.valid_from, seg.valid_until);
        assert(all[last] == iv);
        // The points of the segments are those of all but the last and of the last.
        if holds_point(all, p, n) {
            let i = choose|i: int| 0 <= i < all.len() && point_in(p, #[trigger] all[i], n);
            if i < last {
                assert(init_spans[i] == all[i]);
            }
        }
        if holds_point(init_spans, p, n) {
            let i = choose|i: int| 0 <= i < init_spans.len() && point_in(p, #[trigger] init_spans[i], n);
            assert(all[i] == init_spans[i]);
        }
        if prev.len() > 0 && continues(prev.last(), seg) {
            let w = prev.len() - 1;
            let c = prev[w];
            assert(prev_spans[w] == (c.valid_from, c.valid_until));
            assert(before(c.valid_from, c.valid_until, n));
            assert(before(all[last].0, all[last].1, n));
            assert(resolved[last - 1] == init.last());
            assert(level(resolved[last - 1].valid_until, resolved[last].valid_from, n));
            assert(out[w] == run_with(c, seg));
            assert(spans[w] == (c.valid_from, seg.valid_until));
            lemma_before_order(p, c.valid_until, seg.valid_from, n);
            lemma_before_order(p, seg.valid_from, c.valid_until, n);
            lemma_before_order(c.valid_until, seg.valid_from, p, n);
            lemma_before_order(seg.valid_from, c.valid_until, p, n);
            lemma_before_order(c.valid_from, c.valid_until, p, n);
            lemma_before_order(c.valid_from, p, c.valid_until, n);
            lemma_before_order(p, c.valid_from, c.valid_until, n);
            lemma_before_order(p, c.valid_until, seg.valid_until, n);
            lemma_before_order(p, seg.valid_from, seg.valid_until, n);
            lemma_before_order(c.valid_until, seg.valid_from, seg.valid_until, n);
            lemma_before_order(c.valid_from, c.valid_until, seg.valid_from, n);
            lemma_before_order(c.valid_from, seg.valid_from, p, n);
            lemma_before_order(p, c.valid_from, seg.valid_from, n);
            assert(point_in(p, spans[w], n) <==> point_in(p, prev_spans[w], n) || point_in(p, iv, n));
            if holds_point(spans, p, n) {
                let i = choose|i: int| 0 <= i < spans.len() && point_in(p, #[trigger] spans[i], n);
                if i < w {
                    assert(prev_spans[i] == spans[i]);
                }
            }
            if holds_point(prev_spans, p, n) {
                let i = choose|i: int|
                    0 <= i < prev_spans.len() && point_in(p, #[trigger] prev_spans[i], n);
                if i < w {
                    assert(spans[i] == prev_spans[i]);
                }
            }
        } else {
            assert(out[prev.len() as int] == run_of(seg));
            assert(spans[prev.len() as int] == iv);
            if holds_point(spans, p, n) {
                let i = choose|i: int| 0 <= i < spans.len() && point_in(p, #[trigger] spans[i], n);
                if i < prev.len() {
                    assert(prev_spans[i] == spans[i]);
                }
            }
            if holds_point(prev_spans, p, n) {
                let i = choose|i: int|
                    0 <= i < prev_spans.len() && point_in(p, #[trigger] prev_spans[i], n);
                assert(spans[i] == prev_spans[i]);
            }
        }
    }
}

} // verus!
