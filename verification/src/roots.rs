use crate::coalesce::{continues, run_of, run_with, runs};
use crate::coverage::{lemma_bound_order_ranks, lemma_without_repeats};
use crate::interval::{before, lemma_before_order, BoundModel};
use crate::resolve::{covering_target, holds_segment, resolve_one, resolved_segments};
use crate::segments::{
    atomic_segments, bound_order, group_causal_id, segments_between, source_bounds, target_bounds,
    time_points,
};
use crate::sorting::{lemma_sort_elements, lemma_sort_in_order, sort_by};
use crate::timeline::{lemma_runs_lie_apart, lie_apart, resolved_spans};
use crate::types::{
    AtomicSegmentModel, ContextModel, GroupModel, MatchedModel, ResolvedSegmentModel,
    TargetRowModel,
};
use vstd::prelude::*;

verus! {

/// The target row that holds a segment is one of the target rows, and
/// holds the segment.
pub proof fn lemma_covering_target(targets: Seq<TargetRowModel>, seg: AtomicSegmentModel, n: bool) -> (k: int)
    requires
        covering_target(targets, seg, n) is Some,
    ensures
        0 <= k < targets.len(),
        targets[k] == covering_target(targets, seg, n)->0,
        holds_segment(targets[k].valid_from, targets[k].valid_until, seg, n),
    decreases targets.len(),
{
    if holds_segment(targets[0].valid_from, targets[0].valid_until, seg, n) {
        0
    } else {
        let k = lemma_covering_target(targets.drop_first(), seg, n);
        assert(targets.drop_first()[k] == targets[k + 1]);
        k + 1
    }
}

/// Where no target row holds a segment, none of them does.
pub proof fn lemma_no_covering_target(targets: Seq<TargetRowModel>, seg: AtomicSegmentModel, n: bool, l: int)
    requires
        covering_target(targets, seg, n) is None,
        0 <= l < targets.len(),
    ensures
        !holds_segment(targets[l].valid_from, targets[l].valid_until, seg, n),
    decreases targets.len(),
{
    if l > 0 {
        assert(targets.drop_first()[l - 1] == targets[l]);
        lemma_no_covering_target(targets.drop_first(), seg, n, l - 1);
    }
}

/// Each resolved segment is what one of the atomic segments resolves to.
pub proof fn lemma_resolved_from_atom(
    segs: Seq<AtomicSegmentModel>,
    active: Seq<MatchedModel>,
    targets: Seq<TargetRowModel>,
    ctx: ContextModel,
    h: int,
) -> (m: int)
    requires
        0 <= h < resolved_segments(segs, active, targets, ctx).len(),
    ensures
        0 <= m < segs.len(),
        resolve_one(segs[m], active, targets, ctx) == Some(
            resolved_segments(segs, active, targets, ctx)[h],
        ),
    decreases segs.len(),
{
    let init = segs.drop_last();
    let rest = resolved_segments(init, active, targets, ctx);
    if h < rest.len() {
        let m = lemma_resolved_from_atom(init, active, targets, ctx, h);
        assert(init[m] == segs[m]);
        assert(resolved_segments(segs, active, targets, ctx)[h] == rest[h]);
        m
    } else {
        segs.len() - 1
    }
}

/// Each segment between points lies between two neighbours among them.
pub proof fn lemma_atom_between_points(
    group: GroupModel,
    cid: Option<Seq<char>>,
    points: Seq<BoundModel>,
    n: bool,
    m: int,
) -> (w: int)
    requires
        0 <= m < segments_between(group, cid, points, n).len(),
    ensures
        1 <= w < points.len(),
        segments_between(group, cid, points, n)[m].valid_from == points[w - 1],
        segments_between(group, cid, points, n)[m].valid_until == points[w],
    decreases points.len(),
{
    let init = points.drop_last();
    let rest = segments_between(group, cid, init, n);
    if m < rest.len() {
        let w = lemma_atom_between_points(group, cid, init, n, m);
        assert(init[w - 1] == points[w - 1] && init[w] == points[w]);
        w
    } else {
        points.len() - 1
    }
}

/// The ends of the target rows are among the bounds behind `acc`.
proof fn lemma_target_bounds_hold(acc: Seq<BoundModel>, rows: Seq<TargetRowModel>, l: int)
    requires
        0 <= l < rows.len(),
    ensures
        target_bounds(acc, rows).contains(rows[l].valid_from),
        target_bounds(acc, rows).contains(rows[l].valid_until),
    decreases rows.len(),
{
    let all = target_bounds(acc, rows);
    if l == rows.len() - 1 {
        assert(all[all.len() - 2] == rows[l].valid_from);
        assert(all[all.len() - 1] == rows[l].valid_until);
    } else {
        lemma_target_bounds_hold(acc, rows.drop_last(), l);
        let rest = target_bounds(acc, rows.drop_last());
        assert(rows.drop_last()[l] == rows[l]);
        let a = choose|a: int| 0 <= a < rest.len() && rest[a] == rows[l].valid_from;
        let b = choose|b: int| 0 <= b < rest.len() && rest[b] == rows[l].valid_until;
        assert(all[a] == rest[a]);
        assert(all[b] == rest[b]);
    }
}

/// No atomic segment of a group reaches over the end of a target row: the
/// end lies where the segment starts or before, or where it ends or after.
pub proof fn lemma_atom_keeps_off_end(
    group: GroupModel,
    active: Seq<MatchedModel>,
    ctx: ContextModel,
    m: int,
    l: int,
)
    requires
        0 <= m < atomic_segments(group, active, ctx).len(),
        0 <= l < group.target_rows.len(),
    ensures
        !(before(
            atomic_segments(group, active, ctx)[m].valid_from,
            group.target_rows[l].valid_until,
            ctx.numeric,
        ) && before(
            group.target_rows[l].valid_until,
            atomic_segments(group, active, ctx)[m].valid_until,
            ctx.numeric,
        )),
{
    let n = ctx.numeric;
    let end = group.target_rows[l].valid_until;
    let all = target_bounds(source_bounds(active), group.target_rows);
    let sorted = sort_by(all, bound_order(n));
    let points = time_points(group, active, n);
    lemma_target_bounds_hold(source_bounds(active), group.target_rows, l);
    lemma_sort_elements(all, bound_order(n), end);
    lemma_bound_order_ranks(n);
    lemma_sort_in_order(all, bound_order(n));
    lemma_without_repeats(sorted, n);
    assert(points.contains(end));
    let q = choose|q: int| 0 <= q < points.len() && points[q] == end;
    let w = lemma_atom_between_points(group, group_causal_id(group, active), points, n, m);
    if q < w - 1 {
        assert(!bound_order(n)(points[w - 1], points[q]));
    } else if q > w {
        assert(!bound_order(n)(points[q], points[w]));
    }
    lemma_before_order(end, end, end, n);
}

/// The segment that a run starts with: the run starts where it starts,
/// and it has no target row or the one that the run comes from.
pub proof fn lemma_run_first(resolved: Seq<ResolvedSegmentModel>, k: int) -> (f: int)
    requires
        0 <= k < runs(resolved).len(),
    ensures
        0 <= f < resolved.len(),
        resolved[f].valid_from == runs(resolved)[k].valid_from,
        resolved[f].target_valid_from is None || resolved[f].target_valid_from == runs(
            resolved,
        )[k].ancestor_valid_from,
    decreases resolved.len(),
{
    let init = resolved.drop_last();
    let prev = runs(init);
    let seg = resolved.last();
    let joins = prev.len() > 0 && continues(prev.last(), seg);
    if k < prev.len() {
        let f = lemma_run_first(init, k);
        assert(resolved[f] == init[f]);
        if joins && k == prev.len() - 1 {
            assert(runs(resolved)[k] == run_with(prev.last(), seg));
        } else {
            assert(runs(resolved)[k] == prev[k]);
        }
        f
    } else {
        assert(runs(resolved)[k] == run_of(seg));
        resolved.len() - 1
    }
}

/// The segment that a run has its target row from: it has that target
/// row, and lies within the run.
pub proof fn lemma_run_root(resolved: Seq<ResolvedSegmentModel>, n: bool, k: int) -> (h: int)
    requires
        lie_apart(resolved_spans(resolved), n),
        0 <= k < runs(resolved).len(),
        runs(resolved)[k].ancestor_valid_from is Some,
    ensures
        0 <= h < resolved.len(),
        resolved[h].target_valid_from == runs(resolved)[k].ancestor_valid_from,
        !before(resolved[h].valid_from, runs(resolved)[k].valid_from, n),
        !before(runs(resolved)[k].valid_until, resolved[h].valid_until, n),
    decreases resolved.len(),
{
    let all = resolved_spans(resolved);
    let init = resolved.drop_last();
    let prev = runs(init);
    let seg = resolved.last();
    let last = resolved.len() - 1;
    let joins = prev.len() > 0 && continues(prev.last(), seg);
    let init_spans = resolved_spans(init);
    assert(lie_apart(init_spans, n)) by {
        assert forall|a: int| 0 <= a < init.len() implies before(
            (#[trigger] init_spans[a]).0,
            init_spans[a].1,
            n,
        ) by {
            assert(init_spans[a] == all[a]);
        }
        assert forall|a: int, b: int| 0 <= a < b < init.len() implies !before(
            (#[trigger] init_spans[b]).0,
            (#[trigger] init_spans[a]).1,
            n,
        ) by {
            assert(init_spans[a] == all[a]);
            assert(init_spans[b] == all[b]);
        }
    }
    assert(all[last] == (seg.valid_from, seg.valid_until));
    assert(before(all[last].0, all[last].1, n));
    lemma_before_order(seg.valid_from, seg.valid_until, seg.valid_from, n);
    lemma_before_order(seg.valid_until, seg.valid_until, seg.valid_until, n);
    if joins && k == prev.len() - 1 {
        let c = prev.last();
        assert(runs(resolved)[k] == run_with(c, seg));
        lemma_runs_lie_apart(init, n);
        assert(all[last - 1].1 == init.last().valid_until);
        assert(!before(all[last].0, all[last - 1].1, n));
        let spans = crate::timeline::coalesced_spans(prev);
        assert(spans[k] == (c.valid_from, c.valid_until));
        assert(before(spans[k].0, spans[k].1, n));
        if c.ancestor_valid_from is Some {
            let h = lemma_run_root(init, n, k);
            assert(resolved[h] == init[h]);
            lemma_before_order(seg.valid_from, init[h].valid_until, c.valid_until, n);
            lemma_before_order(init[h].valid_until, c.valid_until, seg.valid_from, n);
            lemma_before_order(seg.valid_from, c.valid_until, init[h].valid_until, n);
            lemma_before_order(c.valid_until, seg.valid_from, init[h].valid_until, n);
            lemma_before_order(init[h].valid_until, seg.valid_from, seg.valid_until, n);
            lemma_before_order(seg.valid_until, init[h].valid_until, seg.valid_from, n);
            lemma_before_order(seg.valid_from, seg.valid_until, init[h].valid_until, n);
            h
        } else {
            lemma_before_order(c.valid_from, c.valid_until, seg.valid_from, n);
            lemma_before_order(seg.valid_from, c.valid_from, c.valid_until, n);
            lemma_before_order(seg.valid_from, c.valid_until, c.valid_from, n);
            last
        }
    } else if k < prev.len() {
        assert(runs(resolved)[k] == prev[k]);
        let h = lemma_run_root(init, n, k);
        assert(resolved[h] == init[h]);
        h
    } else {
        assert(runs(resolved)[k] == run_of(seg));
        last
    }
}

} // verus!
