use crate::classify::{
    classified, classified_upto, final_action, group_lookup_keys, plan_row_of, sequence_number,
};
use crate::coalesce::{
    coalesced, id_order, run_of, run_with, runs, sorted_distinct, tidy, without_repeated_ids,
};
use crate::diff::{diff_of_segment, diff_rows};
use crate::interval::{before, lemma_before_order, BoundModel};
use crate::laws::lemma_every_row_is_grouped;
use crate::plan::{
    feedback_rows, filtered_rows, group_plan, groups_plan, plan_of, planned_rows, prepared,
};
use crate::resolve::{
    by_row_id, covering_rows, covering_sources, covering_target, distinct_ids, holds_segment,
    resolve_one, resolved_segments,
};
use crate::segments::{
    active_rows, atomic_segments, bound_order, group_causal_id, grouped, is_active, kept_by_mode,
    rows_kept, segment_between, segments_between, source_bounds, target_bounds, time_points,
    without_repeats,
};
use crate::sequence::{numbered_row, plan_order, sequenced};
use crate::sorting::{in_order, lemma_sort_elements, lemma_sort_in_order, ranks, sort_by};
use crate::types::{
    AtomicSegmentModel, ContextModel, DiffRowModel, GroupModel, MatchedModel, MergeMode,
    PlanRowModel, ResolvedSegmentModel, SourceRowModel, TargetRowModel,
};
use vstd::prelude::*;

verus! {

/// Whether a row of the plan names the source row `id` as one that it is
/// owed to, and is an insertion, an update or a skip of what is there already.
pub open spec fn names(row: PlanRowModel, id: i64) -> bool {
    row.row_ids.contains(id) && (row.operation is Insert || row.operation is Update
        || row.operation is SkipIdentical)
}

/// Whether every covering source row is recorded for a segment, and source
/// rows of new entities are planned too.
pub open spec fn records_all(mode: MergeMode) -> bool {
    mode is MergeEntityUpsert || mode is MergeEntityPatch
}

/// The order of time puts bounds in ranks.
pub proof fn lemma_bound_order_ranks(n: bool)
    ensures
        ranks(bound_order(n)),
{
    let lt = bound_order(n);
    assert forall|a: BoundModel, b: BoundModel| #[trigger] lt(a, b) implies !lt(b, a) by {
        lemma_before_order(a, b, a, n);
    }
    assert forall|a: BoundModel, b: BoundModel, c: BoundModel|
        !(#[trigger] lt(a, b)) && !(#[trigger] lt(b, c)) implies !lt(a, c) by {
        lemma_before_order(a, b, c, n);
        lemma_before_order(c, b, a, n);
        lemma_before_order(b, a, c, n);
        lemma_before_order(a, c, b, n);
        lemma_before_order(b, c, a, n);
        lemma_before_order(c, a, b, n);
    }
}

proof fn lemma_source_bounds_hold(rows: Seq<MatchedModel>, i: int)
    requires
        0 <= i < rows.len(),
    ensures
        source_bounds(rows).contains(rows[i].source.valid_from),
        source_bounds(rows).contains(rows[i].source.valid_until),
    decreases rows.len(),
{
    let all = source_bounds(rows);
    if i == rows.len() - 1 {
        assert(all[all.len() - 2] == rows[i].source.valid_from);
        assert(all[all.len() - 1] == rows[i].source.valid_until);
    } else {
        lemma_source_bounds_hold(rows.drop_last(), i);
        let rest = source_bounds(rows.drop_last());
        assert(rows.drop_last()[i] == rows[i]);
        let a = choose|a: int| 0 <= a < rest.len() && rest[a] == rows[i].source.valid_from;
        let b = choose|b: int| 0 <= b < rest.len() && rest[b] == rows[i].source.valid_until;
        assert(all[a] == rest[a]);
        assert(all[b] == rest[b]);
    }
}

proof fn lemma_target_bounds_keep(acc: Seq<BoundModel>, rows: Seq<TargetRowModel>, x: BoundModel)
    requires
        acc.contains(x),
    ensures
        target_bounds(acc, rows).contains(x),
    decreases rows.len(),
{
    if rows.len() > 0 {
        lemma_target_bounds_keep(acc, rows.drop_last(), x);
        let rest = target_bounds(acc, rows.drop_last());
        let all = target_bounds(acc, rows);
        let a = choose|a: int| 0 <= a < rest.len() && rest[a] == x;
        assert(all[a] == rest[a]);
    }
}

/// Removing repeats loses no bound and keeps the order.
pub proof fn lemma_without_repeats(s: Seq<BoundModel>, n: bool)
    ensures
        forall|x: BoundModel| s.contains(x) ==> #[trigger] without_repeats(s).contains(x),
        forall|x: BoundModel| #[trigger] without_repeats(s).contains(x) ==> s.contains(x),
        without_repeats(s).len() > 0 ==> s.len() > 0 && without_repeats(s).last() == s.last(),
        in_order(s, bound_order(n)) ==> in_order(without_repeats(s), bound_order(n)),
    decreases s.len(),
{
    let d = without_repeats(s);
    if s.len() > 0 {
        let init = s.drop_last();
        let d0 = without_repeats(init);
        lemma_without_repeats(init, n);
        assert forall|x: BoundModel| s.contains(x) implies #[trigger] d.contains(x) by {
            let k = choose|k: int| 0 <= k < s.len() && s[k] == x;
            if k < s.len() - 1 {
                assert(init[k] == x);
                assert(init.contains(x));
                assert(d0.contains(x));
                let j = choose|j: int| 0 <= j < d0.len() && d0[j] == x;
                assert(d[j] == x);
            } else {
                assert(d[d.len() - 1] == x);
            }
        }
        assert forall|x: BoundModel| #[trigger] d.contains(x) implies s.contains(x) by {
            let j = choose|j: int| 0 <= j < d.len() && d[j] == x;
            if j < d0.len() {
                assert(d0[j] == x);
                assert(d0.contains(x));
                assert(init.contains(x));
                let k = choose|k: int| 0 <= k < init.len() && init[k] == x;
                assert(s[k] == x);
            } else {
                assert(s[s.len() - 1] == x);
            }
        }
        if in_order(s, bound_order(n)) {
            assert forall|i: int, j: int| 0 <= i < j < init.len() implies !bound_order(n)(
                #[trigger] init[j],
                #[trigger] init[i],
            ) by {
                assert(init[j] == s[j] && init[i] == s[i]);
            }
            assert forall|i: int, j: int| 0 <= i < j < d.len() implies !bound_order(n)(
                #[trigger] d[j],
                #[trigger] d[i],
            ) by {
                if j < d0.len() {
                    assert(d[j] == d0[j] && d[i] == d0[i]);
                } else {
                    assert(d[i] == d0[i]);
                    assert(d0.contains(d0[i]));
                    assert(init.contains(d0[i]));
                    let k = choose|k: int| 0 <= k < init.len() && init[k] == d0[i];
                    assert(s[k] == d[i]);
                    assert(d[j] == s[s.len() - 1]);
                    assert(!bound_order(n)(s[s.len() - 1], s[k]));
                }
            }
        }
    }
}

/// Between two points of which the first lies before the second there are
/// two neighbours of which the first lies before the second.
proof fn lemma_step_between(points: Seq<BoundModel>, a: int, b: int, n: bool)
    requires
        in_order(points, bound_order(n)),
        0 <= a < b < points.len(),
        before(points[a], points[b], n),
    ensures
        exists|w: int| a < w <= b && before(#[trigger] points[w - 1], points[w], n),
    decreases b - a,
{
    if before(points[b - 1], points[b], n) {
        assert(before(points[b - 1], points[b], n));
    } else {
        assert(!bound_order(n)(points[b], points[b - 1]));
        lemma_before_order(points[a], points[b], points[b - 1], n);
        lemma_before_order(points[a], points[a], points[a], n);
        assert(before(points[a], points[b - 1], n));
        lemma_step_between(points, a, b - 1, n);
        let w = choose|w: int| a < w <= b - 1 && before(#[trigger] points[w - 1], points[w], n);
        assert(before(points[w - 1], points[w], n));
    }
}

proof fn lemma_segments_hold(
    group: GroupModel,
    cid: Option<Seq<char>>,
    points: Seq<BoundModel>,
    n: bool,
    w: int,
)
    requires
        1 <= w < points.len(),
        before(points[w - 1], points[w], n),
    ensures
        segments_between(group, cid, points, n).contains(
            segment_between(group, cid, points[w - 1], points[w]),
        ),
    decreases points.len(),
{
    let all = segments_between(group, cid, points, n);
    let want = segment_between(group, cid, points[w - 1], points[w]);
    if w == points.len() - 1 {
        assert(all[all.len() - 1] == want);
    } else {
        let init = points.drop_last();
        assert(init[w - 1] == points[w - 1] && init[w] == points[w]);
        lemma_segments_hold(group, cid, init, n, w);
        let rest = segments_between(group, cid, init, n);
        let k = choose|k: int| 0 <= k < rest.len() && rest[k] == want;
        assert(all[k] == rest[k]);
    }
}

/// A source row whose interval is not empty holds all of one atomic segment
/// of its group.
proof fn lemma_row_holds_a_segment(group: GroupModel, active: Seq<MatchedModel>, ctx: ContextModel, i: int)
    requires
        0 <= i < active.len(),
        before(active[i].source.valid_from, active[i].source.valid_until, ctx.numeric),
    ensures
        exists|k: int|
            0 <= k < atomic_segments(group, active, ctx).len() && holds_segment(
                active[i].source.valid_from,
                active[i].source.valid_until,
                #[trigger] atomic_segments(group, active, ctx)[k],
                ctx.numeric,
            ),
{
    let n = ctx.numeric;
    let from = active[i].source.valid_from;
    let until = active[i].source.valid_until;
    let all = target_bounds(source_bounds(active), group.target_rows);
    let sorted = sort_by(all, bound_order(n));
    let points = time_points(group, active, n);
    lemma_source_bounds_hold(active, i);
    lemma_target_bounds_keep(source_bounds(active), group.target_rows, from);
    lemma_target_bounds_keep(source_bounds(active), group.target_rows, until);
    lemma_sort_elements(all, bound_order(n), from);
    lemma_sort_elements(all, bound_order(n), until);
    lemma_bound_order_ranks(n);
    lemma_sort_in_order(all, bound_order(n));
    lemma_without_repeats(sorted, n);
    assert(points.contains(from));
    assert(points.contains(until));
    let a = choose|a: int| 0 <= a < points.len() && points[a] == from;
    let b = choose|b: int| 0 <= b < points.len() && points[b] == until;
    lemma_before_order(from, until, from, n);
    if b <= a {
        if b < a {
            assert(!bound_order(n)(points[a], points[b]));
        }
        assert(false);
    }
    lemma_step_between(points, a, b, n);
    let w = choose|w: int| a < w <= b && before(#[trigger] points[w - 1], points[w], n);
    let cid = group_causal_id(group, active);
    lemma_segments_hold(group, cid, points, n, w);
    let seg = segment_between(group, cid, points[w - 1], points[w]);
    let segs = atomic_segments(group, active, ctx);
    let k = choose|k: int| 0 <= k < segs.len() && segs[k] == seg;
    if a < w - 1 {
        assert(!bound_order(n)(points[w - 1], points[a]));
    }
    if w < b {
        assert(!bound_order(n)(points[b], points[w]));
    }
    lemma_before_order(points[w - 1], points[w - 1], points[w - 1], n);
    lemma_before_order(points[w], points[w], points[w], n);
    assert(holds_segment(from, until, segs[k], n));
}

proof fn lemma_covering_rows_hold(active: Seq<MatchedModel>, seg: AtomicSegmentModel, n: bool, i: int)
    requires
        0 <= i < active.len(),
        holds_segment(active[i].source.valid_from, active[i].source.valid_until, seg, n),
    ensures
        covering_rows(active, seg, n).contains(active[i]),
    decreases active.len(),
{
    let all = covering_rows(active, seg, n);
    if i == active.len() - 1 {
        assert(all[all.len() - 1] == active[i]);
    } else {
        lemma_covering_rows_hold(active.drop_last(), seg, n, i);
        let rest = covering_rows(active.drop_last(), seg, n);
        assert(active.drop_last()[i] == active[i]);
        let k = choose|k: int| 0 <= k < rest.len() && rest[k] == active[i];
        assert(all[k] == rest[k]);
    }
}

proof fn lemma_distinct_ids_hold(rows: Seq<MatchedModel>, i: int)
    requires
        0 <= i < rows.len(),
    ensures
        distinct_ids(rows).contains(rows[i].source.row_id),
    decreases rows.len(),
{
    let all = distinct_ids(rows);
    let rest = distinct_ids(rows.drop_last());
    if i == rows.len() - 1 {
        if rest.contains(rows[i].source.row_id) {
        } else {
            assert(all[all.len() - 1] == rows[i].source.row_id);
        }
    } else {
        lemma_distinct_ids_hold(rows.drop_last(), i);
        assert(rows.drop_last()[i] == rows[i]);
        let k = choose|k: int| 0 <= k < rest.len() && rest[k] == rows[i].source.row_id;
        assert(all[k] == rest[k]);
    }
}

/// Where all covering rows are recorded, a segment that a source row holds
/// is resolved, with source coverage, and names the row.
proof fn lemma_resolved_names_row(
    seg: AtomicSegmentModel,
    active: Seq<MatchedModel>,
    targets: Seq<TargetRowModel>,
    ctx: ContextModel,
    i: int,
)
    requires
        records_all(ctx.mode),
        0 <= i < active.len(),
        holds_segment(active[i].source.valid_from, active[i].source.valid_until, seg, ctx.numeric),
    ensures
        resolve_one(seg, active, targets, ctx) is Some,
        resolve_one(seg, active, targets, ctx)->0.row_ids.contains(active[i].source.row_id),
        resolve_one(seg, active, targets, ctx)->0.has_source_coverage,
{
    let n = ctx.numeric;
    lemma_covering_rows_hold(active, seg, n, i);
    let rows = covering_rows(active, seg, n);
    lemma_sort_elements(rows, by_row_id(), active[i]);
    let cov = covering_sources(active, seg, n);
    let k = choose|k: int| 0 <= k < cov.len() && cov[k] == active[i];
    lemma_distinct_ids_hold(cov, k);
}

proof fn lemma_resolved_segments_hold(
    segs: Seq<AtomicSegmentModel>,
    active: Seq<MatchedModel>,
    targets: Seq<TargetRowModel>,
    ctx: ContextModel,
    k: int,
)
    requires
        0 <= k < segs.len(),
        resolve_one(segs[k], active, targets, ctx) is Some,
    ensures
        resolved_segments(segs, active, targets, ctx).contains(
            resolve_one(segs[k], active, targets, ctx)->0,
        ),
    decreases segs.len(),
{
    let all = resolved_segments(segs, active, targets, ctx);
    let want = resolve_one(segs[k], active, targets, ctx)->0;
    if k == segs.len() - 1 {
        assert(all[all.len() - 1] == want);
    } else {
        assert(segs.drop_last()[k] == segs[k]);
        lemma_resolved_segments_hold(segs.drop_last(), active, targets, ctx, k);
        let rest = resolved_segments(segs.drop_last(), active, targets, ctx);
        let j = choose|j: int| 0 <= j < rest.len() && rest[j] == want;
        assert(all[j] == rest[j]);
    }
}

/// Each segment is part of a run, which names the rows that the segment
/// names and is covered by a source row if the segment is.
proof fn lemma_runs_keep(resolved: Seq<ResolvedSegmentModel>, k: int, id: i64)
    requires
        0 <= k < resolved.len(),
        resolved[k].row_ids.contains(id),
        resolved[k].has_source_coverage,
    ensures
        exists|c: int|
            0 <= c < runs(resolved).len() && (#[trigger] runs(resolved)[c]).row_ids.contains(id)
                && runs(resolved)[c].has_source_coverage,
    decreases resolved.len(),
{
    let out = runs(resolved);
    let init = resolved.drop_last();
    let prev = runs(init);
    let joins = prev.len() > 0 && crate::coalesce::continues(prev.last(), resolved.last());
    if k == resolved.len() - 1 {
        let j = choose|j: int| 0 <= j < resolved[k].row_ids.len() && resolved[k].row_ids[j] == id;
        if joins {
            let c = out.len() - 1;
            assert(out[c] == run_with(prev.last(), resolved.last()));
            assert(out[c].row_ids[prev.last().row_ids.len() + j] == id);
        } else {
            let c = out.len() - 1;
            assert(out[c] == run_of(resolved.last()));
            assert(out[c].row_ids[j] == id);
        }
    } else {
        assert(init[k] == resolved[k]);
        lemma_runs_keep(init, k, id);
        let c = choose|c: int|
            0 <= c < prev.len() && (#[trigger] prev[c]).row_ids.contains(id)
                && prev[c].has_source_coverage;
        if joins && c == prev.len() - 1 {
            let j = choose|j: int| 0 <= j < prev[c].row_ids.len() && prev[c].row_ids[j] == id;
            assert(out[c] == run_with(prev.last(), resolved.last()));
            assert(out[c].row_ids[j] == id);
        } else {
            assert(out[c] == prev[c]);
        }
    }
}

proof fn lemma_without_repeated_ids(s: Seq<i64>, x: i64)
    requires
        s.contains(x),
    ensures
        without_repeated_ids(s).contains(x),
    decreases s.len(),
{
    let d = without_repeated_ids(s);
    let d0 = without_repeated_ids(s.drop_last());
    let k = choose|k: int| 0 <= k < s.len() && s[k] == x;
    if k < s.len() - 1 {
        assert(s.drop_last()[k] == x);
        lemma_without_repeated_ids(s.drop_last(), x);
        let j = choose|j: int| 0 <= j < d0.len() && d0[j] == x;
        assert(d[j] == x);
    } else {
        if d0.len() > 0 && d0.last() == s.last() {
            assert(d[d.len() - 1] == x);
        } else {
            assert(d[d.len() - 1] == x);
        }
    }
}

/// Sorting row ids and dropping repeats loses no id.
proof fn lemma_sorted_distinct_keeps(ids: Seq<i64>, x: i64)
    requires
        ids.contains(x),
    ensures
        sorted_distinct(ids).contains(x),
{
    lemma_sort_elements(ids, id_order(), x);
    lemma_without_repeated_ids(sort_by(ids, id_order()), x);
}

/// The row of a diff for a coalesced segment that a source row covers is
/// in the plan as an insertion, an update or a skip, with its row ids.
proof fn lemma_classified_keeps(
    diffs: Seq<DiffRowModel>,
    upto: int,
    group: GroupModel,
    ctx: ContextModel,
    k: int,
    id: i64,
)
    requires
        0 <= k < upto <= diffs.len(),
        diffs[k].final_valid_from is Some,
        diffs[k].has_source_coverage,
        diffs[k].row_ids.contains(id),
    ensures
        exists|p: int|
            0 <= p < classified_upto(diffs, upto, group, ctx).len() && names(
                #[trigger] classified_upto(diffs, upto, group, ctx)[p],
                id,
            ),
    decreases upto,
{
    let all = classified_upto(diffs, upto, group, ctx);
    let rest = classified_upto(diffs, upto - 1, group, ctx);
    if k == upto - 1 {
        let a = final_action(diffs, k, group, ctx);
        assert(a is Some);
        assert(all[all.len() - 1] == plan_row_of(
            diffs[k],
            a->0,
            sequence_number(rest.len() as int + 1),
            group_lookup_keys(group, ctx),
            ctx,
        ));
        assert(names(all[all.len() - 1], id));
    } else {
        lemma_classified_keeps(diffs, upto - 1, group, ctx, k, id);
        let p = choose|p: int| 0 <= p < rest.len() && names(#[trigger] rest[p], id);
        assert(all[p] == rest[p]);
    }
}

/// Where only new entities are not singled out, every active row is kept.
proof fn lemma_all_kept(rows: Seq<MatchedModel>, mode: MergeMode)
    requires
        records_all(mode),
    ensures
        rows_kept(rows, mode) == rows,
    decreases rows.len(),
{
    if rows.len() > 0 {
        lemma_all_kept(rows.drop_last(), mode);
        assert(rows.drop_last().push(rows.last()) =~= rows);
    }
}

proof fn lemma_active_holds(rows: Seq<MatchedModel>, i: int)
    requires
        0 <= i < rows.len(),
        is_active(rows[i]),
    ensures
        active_rows(rows).contains(rows[i]),
    decreases rows.len(),
{
    let all = active_rows(rows);
    let rest = active_rows(rows.drop_last());
    if i == rows.len() - 1 {
        assert(all[all.len() - 1] == rows[i]);
    } else {
        lemma_active_holds(rows.drop_last(), i);
        assert(rows.drop_last()[i] == rows[i]);
        let k = choose|k: int| 0 <= k < rest.len() && rest[k] == rows[i];
        assert(all[k] == rows[i]);
    }
}

/// A row that the mode has a use for is among the rows that are kept.
proof fn lemma_kept_holds(rows: Seq<MatchedModel>, mode: MergeMode, i: int)
    requires
        0 <= i < rows.len(),
        kept_by_mode(rows[i], mode),
    ensures
        rows_kept(rows, mode).contains(rows[i]),
    decreases rows.len(),
{
    let all = rows_kept(rows, mode);
    let rest = rows_kept(rows.drop_last(), mode);
    if i == rows.len() - 1 {
        assert(all[all.len() - 1] == rows[i]);
    } else {
        lemma_kept_holds(rows.drop_last(), mode, i);
        assert(rows.drop_last()[i] == rows[i]);
        let k = choose|k: int| 0 <= k < rest.len() && rest[k] == rows[i];
        assert(all[k] == rows[i]);
    }
}

/// What a resolved segment with source coverage names, a row of the plan
/// of the group names, which is an insertion, an update or a skip of what
/// is there already.
proof fn lemma_resolved_row_is_planned(group: GroupModel, ctx: ContextModel, s: int, id: i64)
    requires
        0 <= s < atomic_segments(
            group,
            rows_kept(active_rows(group.source_rows), ctx.mode),
            ctx,
        ).len(),
        resolve_one(
            atomic_segments(group, rows_kept(active_rows(group.source_rows), ctx.mode), ctx)[s],
            rows_kept(active_rows(group.source_rows), ctx.mode),
            group.target_rows,
            ctx,
        ) matches Some(r) && r.row_ids.contains(id) && r.has_source_coverage,
    ensures
        exists|p: int|
            0 <= p < group_plan(group, ctx).len() && names(#[trigger] group_plan(group, ctx)[p], id),
{
    let active = active_rows(group.source_rows);
    let kept = rows_kept(active, ctx.mode);
    let segs = atomic_segments(group, kept, ctx);
    lemma_resolved_segments_hold(segs, kept, group.target_rows, ctx, s);
    let resolved = resolved_segments(segs, kept, group.target_rows, ctx);
    let r = choose|r: int|
        0 <= r < resolved.len() && resolved[r] == resolve_one(
            segs[s],
            kept,
            group.target_rows,
            ctx,
        )->0;
    lemma_runs_keep(resolved, r, id);
    let c = choose|c: int|
        0 <= c < runs(resolved).len() && (#[trigger] runs(resolved)[c]).row_ids.contains(id)
            && runs(resolved)[c].has_source_coverage;
    lemma_sorted_distinct_keeps(runs(resolved)[c].row_ids, id);
    let joined = coalesced(resolved);
    assert(joined[c] == tidy(runs(resolved)[c]));
    let diffs = diff_rows(joined, group.target_rows);
    assert(diffs[c] == diff_of_segment(joined[c], group.target_rows));
    lemma_classified_keeps(diffs, diffs.len() as int, group, ctx, c, id);
    let planned = planned_rows(group, ctx);
    assert(planned == classified(diffs, group, ctx));
    let p = choose|p: int| 0 <= p < planned.len() && names(#[trigger] planned[p], id);
    let head = feedback_rows(group.source_rows, ctx) + filtered_rows(active, ctx);
    assert(group_plan(group, ctx)[head.len() + p] == planned[p]);
}

/// In an upsert or a patch of entities, every active source row of a group
/// whose interval is not empty is named by a row of the plan of the group
/// that is an insertion, an update or a skip of what is there already.
pub proof fn lemma_group_names_row(group: GroupModel, ctx: ContextModel, i: int)
    requires
        records_all(ctx.mode),
        0 <= i < group.source_rows.len(),
        is_active(group.source_rows[i]),
        before(
            group.source_rows[i].source.valid_from,
            group.source_rows[i].source.valid_until,
            ctx.numeric,
        ),
    ensures
        exists|p: int|
            0 <= p < group_plan(group, ctx).len() && names(
                #[trigger] group_plan(group, ctx)[p],
                group.source_rows[i].source.row_id,
            ),
{
    let m = group.source_rows[i];
    let id = m.source.row_id;
    let active = active_rows(group.source_rows);
    lemma_active_holds(group.source_rows, i);
    lemma_all_kept(active, ctx.mode);
    let kept = rows_kept(active, ctx.mode);
    let j = choose|j: int| 0 <= j < active.len() && active[j] == m;
    lemma_row_holds_a_segment(group, kept, ctx, j);
    let segs = atomic_segments(group, kept, ctx);
    let s = choose|s: int|
        0 <= s < segs.len() && holds_segment(
            m.source.valid_from,
            m.source.valid_until,
            #[trigger] segs[s],
            ctx.numeric,
        );
    lemma_resolved_names_row(segs[s], kept, group.target_rows, ctx, j);
    lemma_resolved_row_is_planned(group, ctx, s, id);
}

/// Whether a segment records the source row `m`: the row holds all of the
/// segment; where a portion of the target is changed, a target row holds
/// it too; where the last writer wins, the row is the last of those that
/// hold it. A deletion for a portion records no row.
pub open spec fn recorded_in(
    m: MatchedModel,
    seg: AtomicSegmentModel,
    active: Seq<MatchedModel>,
    targets: Seq<TargetRowModel>,
    ctx: ContextModel,
) -> bool {
    &&& holds_segment(m.source.valid_from, m.source.valid_until, seg, ctx.numeric)
    &&& !(ctx.mode is DeleteForPortionOf)
    &&& ctx.mode.spec_is_for_portion_of() ==> covering_target(targets, seg, ctx.numeric) is Some
    &&& ctx.mode.spec_is_last_writer_wins() ==> covering_sources(active, seg, ctx.numeric).last()
        == m
}

/// The segments that the time of a group is cut into.
pub open spec fn group_atoms(group: GroupModel, ctx: ContextModel) -> Seq<AtomicSegmentModel> {
    atomic_segments(group, rows_kept(active_rows(group.source_rows), ctx.mode), ctx)
}

/// In every mode, a source row of a group that is planned and that one of
/// the segments of the group records is named by a row of the plan of the
/// group that is an insertion, an update or a skip of what is there
/// already.
pub proof fn lemma_group_names_recorded_row(group: GroupModel, ctx: ContextModel, i: int, s: int)
    requires
        0 <= i < group.source_rows.len(),
        is_active(group.source_rows[i]),
        kept_by_mode(group.source_rows[i], ctx.mode),
        0 <= s < group_atoms(group, ctx).len(),
        recorded_in(
            group.source_rows[i],
            group_atoms(group, ctx)[s],
            rows_kept(active_rows(group.source_rows), ctx.mode),
            group.target_rows,
            ctx,
        ),
    ensures
        exists|p: int|
            0 <= p < group_plan(group, ctx).len() && names(
                #[trigger] group_plan(group, ctx)[p],
                group.source_rows[i].source.row_id,
            ),
{
    let n = ctx.numeric;
    let m = group.source_rows[i];
    let id = m.source.row_id;
    let active = active_rows(group.source_rows);
    lemma_active_holds(group.source_rows, i);
    let a = choose|a: int| 0 <= a < active.len() && active[a] == m;
    lemma_kept_holds(active, ctx.mode, a);
    let kept = rows_kept(active, ctx.mode);
    let j = choose|j: int| 0 <= j < kept.len() && kept[j] == m;
    let seg = group_atoms(group, ctx)[s];
    lemma_covering_rows_hold(kept, seg, n, j);
    let rows = covering_rows(kept, seg, n);
    lemma_sort_elements(rows, by_row_id(), m);
    let cov = covering_sources(kept, seg, n);
    let k = choose|k: int| 0 <= k < cov.len() && cov[k] == m;
    if ctx.mode.spec_is_last_writer_wins() {
        assert(seq![cov.last().source.row_id][0] == id);
    } else {
        lemma_distinct_ids_hold(cov, k);
    }
    lemma_resolved_row_is_planned(group, ctx, s, id);
}

proof fn lemma_groups_plan_names(groups: Seq<GroupModel>, ctx: ContextModel, g: int, id: i64)
    requires
        0 <= g < groups.len(),
        exists|p: int|
            0 <= p < group_plan(groups[g], ctx).len() && names(
                #[trigger] group_plan(groups[g], ctx)[p],
                id,
            ),
    ensures
        exists|p: int|
            0 <= p < groups_plan(groups, ctx).len() && names(#[trigger] groups_plan(groups, ctx)[p], id),
    decreases groups.len(),
{
    let all = groups_plan(groups, ctx);
    let head = groups_plan(groups.drop_last(), ctx);
    let tail = group_plan(groups.last(), ctx);
    if g == groups.len() - 1 {
        let p = choose|p: int| 0 <= p < tail.len() && names(#[trigger] tail[p], id);
        assert(all[head.len() + p] == tail[p]);
    } else {
        assert(groups.drop_last()[g] == groups[g]);
        lemma_groups_plan_names(groups.drop_last(), ctx, g, id);
        let p = choose|p: int| 0 <= p < head.len() && names(#[trigger] head[p], id);
        assert(all[p] == head[p]);
    }
}

/// What a row of the plan of a group names, a row of the whole plan names.
proof fn lemma_planned_row_is_in_plan(
    sources: Seq<SourceRowModel>,
    targets: Seq<TargetRowModel>,
    ctx: ContextModel,
    g: int,
    id: i64,
)
    requires
        0 <= g < grouped(prepared(sources, targets, ctx), targets, ctx).len(),
        exists|p: int|
            0 <= p < group_plan(
                grouped(prepared(sources, targets, ctx), targets, ctx)[g],
                ctx,
            ).len() && names(
                #[trigger] group_plan(grouped(prepared(sources, targets, ctx), targets, ctx)[g], ctx)[p],
                id,
            ),
    ensures
        exists|p: int|
            0 <= p < plan_of(sources, targets, ctx).len() && names(
                #[trigger] plan_of(sources, targets, ctx)[p],
                id,
            ),
{
    let groups = grouped(prepared(sources, targets, ctx), targets, ctx);
    lemma_groups_plan_names(groups, ctx, g, id);
    let rows = groups_plan(groups, ctx);
    let p = choose|p: int| 0 <= p < rows.len() && names(#[trigger] rows[p], id);
    let sorted = sort_by(rows, plan_order(ctx.numeric));
    assert(rows.contains(rows[p]));
    lemma_sort_elements(rows, plan_order(ctx.numeric), rows[p]);
    let q = choose|q: int| 0 <= q < sorted.len() && sorted[q] == rows[p];
    assert(sequenced(rows, ctx.numeric)[q] == numbered_row(sorted, q));
    assert(plan_of(sources, targets, ctx) == sequenced(rows, ctx.numeric));
    assert(names(plan_of(sources, targets, ctx)[q], id));
}

/// In an upsert or a patch of entities, every source row that is planned
/// and whose interval is not empty is named by a row of the plan that is an
/// insertion, an update or a skip of what is there already.
pub proof fn lemma_plan_names_row(
    sources: Seq<SourceRowModel>,
    targets: Seq<TargetRowModel>,
    ctx: ContextModel,
    i: int,
)
    requires
        records_all(ctx.mode),
        0 <= i < prepared(sources, targets, ctx).len(),
        is_active(prepared(sources, targets, ctx)[i]),
        before(
            prepared(sources, targets, ctx)[i].source.valid_from,
            prepared(sources, targets, ctx)[i].source.valid_until,
            ctx.numeric,
        ),
    ensures
        exists|p: int|
            0 <= p < plan_of(sources, targets, ctx).len() && names(
                #[trigger] plan_of(sources, targets, ctx)[p],
                prepared(sources, targets, ctx)[i].source.row_id,
            ),
{
    let matched = prepared(sources, targets, ctx);
    let m = matched[i];
    let id = m.source.row_id;
    let groups = grouped(matched, targets, ctx);
    lemma_every_row_is_grouped(matched, targets, ctx, i);
    let (g, j) = choose|g: int, j: int|
        0 <= g < groups.len() && 0 <= j < (#[trigger] groups[g]).source_rows.len()
            && #[trigger] groups[g].source_rows[j] == m;
    lemma_group_names_row(groups[g], ctx, j);
    lemma_planned_row_is_in_plan(sources, targets, ctx, g, id);
}

/// In every mode, a source row that is planned and that one of the
/// segments of its group records is named by a row of the plan that is an
/// insertion, an update or a skip of what is there already.
pub proof fn lemma_plan_names_recorded_row(
    sources: Seq<SourceRowModel>,
    targets: Seq<TargetRowModel>,
    ctx: ContextModel,
    g: int,
    i: int,
    s: int,
)
    requires
        0 <= g < grouped(prepared(sources, targets, ctx), targets, ctx).len(),
        0 <= i < grouped(prepared(sources, targets, ctx), targets, ctx)[g].source_rows.len(),
        is_active(grouped(prepared(sources, targets, ctx), targets, ctx)[g].source_rows[i]),
        kept_by_mode(grouped(prepared(sources, targets, ctx), targets, ctx)[g].source_rows[i], ctx.mode),
        0 <= s < group_atoms(grouped(prepared(sources, targets, ctx), targets, ctx)[g], ctx).len(),
        recorded_in(
            grouped(prepared(sources, targets, ctx), targets, ctx)[g].source_rows[i],
            group_atoms(grouped(prepared(sources, targets, ctx), targets, ctx)[g], ctx)[s],
            rows_kept(
                active_rows(grouped(prepared(sources, targets, ctx), targets, ctx)[g].source_rows),
                ctx.mode,
            ),
            grouped(prepared(sources, targets, ctx), targets, ctx)[g].target_rows,
            ctx,
        ),
    ensures
        exists|p: int|
            0 <= p < plan_of(sources, targets, ctx).len() && names(
                #[trigger] plan_of(sources, targets, ctx)[p],
                grouped(prepared(sources, targets, ctx), targets, ctx)[g].source_rows[i].source.row_id,
            ),
{
    let groups = grouped(prepared(sources, targets, ctx), targets, ctx);
    let id = groups[g].source_rows[i].source.row_id;
    lemma_group_names_recorded_row(groups[g], ctx, i, s);
    lemma_planned_row_is_in_plan(sources, targets, ctx, g, id);
}

} // verus!
