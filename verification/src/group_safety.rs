use crate::classify::{
    classified_upto, final_action, group_lookup_keys, outrankers, outranks, plan_row_of, ranked,
    starts_with_target,
};
use crate::diff::{
    diff_of_segment, diff_of_target, diff_rows, has_descendant, orphan_diffs, orphan_key,
    target_from,
};
use crate::interval::{before, lemma_before_order, BoundModel};
use crate::laws::same_but_numbers;
use crate::plan::{groups_plan, plan_of, planned_rows, prepared};
use crate::safety::{
    apart_before_and_after, is_sound, leaves_row, lemma_lower_statement_first, overlap_between,
    overlapping, reads_row,
};
use crate::sequence::{
    category, lemma_sequenced_in_order, lemma_statement_order, numbered_row, plan_order, time_key,
};
use crate::sorting::sort_by;
use crate::segments::{active_rows, atomic_segments, grouped, rows_kept};
use crate::coalesce::{runs, tidy};
use crate::resolve::resolved_segments;
use crate::roots::{
    lemma_atom_keeps_off_end, lemma_covering_target, lemma_no_covering_target,
    lemma_resolved_from_atom, lemma_run_first, lemma_run_root,
};
use crate::timeline::{
    coalesced_spans, group_segments, is_end, lemma_atomic_segments_lie_apart,
    lemma_final_segment_starts_at_end, lemma_final_segments_lie_apart, lemma_resolved_lie_apart,
    lemma_runs_lie_apart, resolved_spans,
};
use crate::types::{
    CoalescedSegmentModel, ContextModel, DiffRowModel, GroupModel, PlanRowModel, SourceRowModel,
    TargetRowModel,
};
use vstd::prelude::*;

verus! {

/// Whether the target rows of an entity are as a temporal table holds
/// them: none is empty, and no two of them overlap.
pub open spec fn targets_apart(targets: Seq<TargetRowModel>, n: bool) -> bool {
    &&& forall|k: int|
        0 <= k < targets.len() ==> before((#[trigger] targets[k]).valid_from, targets[k].valid_until, n)
    &&& forall|k: int, l: int|
        0 <= k < l < targets.len() ==> !overlapping(
            (#[trigger] targets[k]).valid_from,
            targets[k].valid_until,
            (#[trigger] targets[l]).valid_from,
            targets[l].valid_until,
            n,
        )
}

/// Whether the bounds of the rows of a group that are written alike are
/// ranked alike. Where bounds are ordered as they are written, the ranks
/// have no part in the plan.
pub open spec fn ranked_as_written(group: GroupModel) -> bool {
    forall|a: BoundModel, b: BoundModel|
        #[trigger] is_end(group, a) && #[trigger] is_end(group, b) && a.text == b.text ==> a.rank
            == b.rank
}

/// Whether `row` is what the plan holds for the row at `i` of the diff.
pub open spec fn row_for(
    row: PlanRowModel,
    diffs: Seq<DiffRowModel>,
    i: int,
    group: GroupModel,
    ctx: ContextModel,
) -> bool {
    0 <= i < diffs.len() && final_action(diffs, i, group, ctx) is Some && same_but_numbers(
        row,
        plan_row_of(diffs[i], final_action(diffs, i, group, ctx)->0, 0, group_lookup_keys(group, ctx), ctx),
    )
}

/// The rows of a diff that two rows of the plan stand for: they come in
/// the order of the rows of the plan.
pub proof fn lemma_classified_from(
    diffs: Seq<DiffRowModel>,
    upto: int,
    group: GroupModel,
    ctx: ContextModel,
    a: int,
    b: int,
) -> (r: (int, int))
    requires
        0 <= upto <= diffs.len(),
        0 <= a <= b < classified_upto(diffs, upto, group, ctx).len(),
    ensures
        0 <= r.0 <= r.1 < upto,
        a < b ==> r.0 < r.1,
        row_for(classified_upto(diffs, upto, group, ctx)[a], diffs, r.0, group, ctx),
        row_for(classified_upto(diffs, upto, group, ctx)[b], diffs, r.1, group, ctx),
    decreases upto,
{
    let rows = classified_upto(diffs, upto, group, ctx);
    let rest = classified_upto(diffs, upto - 1, group, ctx);
    if b < rest.len() {
        let r = lemma_classified_from(diffs, upto - 1, group, ctx, a, b);
        assert(rows[a] == rest[a]);
        assert(rows[b] == rest[b]);
        r
    } else if a == b {
        (upto - 1, upto - 1)
    } else {
        let r = lemma_classified_from(diffs, upto - 1, group, ctx, a, a);
        assert(rows[a] == rest[a]);
        (r.0, upto - 1)
    }
}

/// The target row that starts at a bound is one of the target rows.
proof fn lemma_target_from(targets: Seq<TargetRowModel>, text: Seq<char>) -> (k: int)
    requires
        target_from(targets, text) is Some,
    ensures
        0 <= k < targets.len(),
        targets[k] == target_from(targets, text)->0,
        targets[k].valid_from.text == text,
    decreases targets.len(),
{
    if targets.last().valid_from.text == text {
        targets.len() - 1
    } else {
        let k = lemma_target_from(targets.drop_last(), text);
        assert(targets.drop_last()[k] == targets[k]);
        k
    }
}

/// The target rows that two rows of the target alone stand for: they come
/// in the order of the rows, and no segment comes from them.
pub proof fn lemma_orphans_from(
    targets: Seq<TargetRowModel>,
    coalesced: Seq<CoalescedSegmentModel>,
    key: Seq<char>,
    a: int,
    b: int,
) -> (r: (int, int))
    requires
        0 <= a <= b < orphan_diffs(targets, coalesced, key).len(),
    ensures
        0 <= r.0 <= r.1 < targets.len(),
        a < b ==> r.0 < r.1,
        orphan_diffs(targets, coalesced, key)[a] == diff_of_target(targets[r.0], key),
        orphan_diffs(targets, coalesced, key)[b] == diff_of_target(targets[r.1], key),
        !has_descendant(coalesced, targets[r.0].valid_from.text),
        !has_descendant(coalesced, targets[r.1].valid_from.text),
    decreases targets.len(),
{
    let all = orphan_diffs(targets, coalesced, key);
    let init = targets.drop_last();
    let rest = orphan_diffs(init, coalesced, key);
    if b < rest.len() {
        let r = lemma_orphans_from(init, coalesced, key, a, b);
        assert(all[a] == rest[a]);
        assert(all[b] == rest[b]);
        assert(init[r.0] == targets[r.0]);
        assert(init[r.1] == targets[r.1]);
        r
    } else if a == b {
        (targets.len() - 1, targets.len() - 1)
    } else {
        let r = lemma_orphans_from(init, coalesced, key, a, a);
        assert(all[a] == rest[a]);
        assert(init[r.0] == targets[r.0]);
        (r.0, targets.len() - 1)
    }
}

/// A row that outranks another is counted among those that do.
proof fn lemma_outranker_counts(diffs: Seq<DiffRowModel>, i: int, upto: int, j: int, n: bool)
    requires
        0 <= j < upto,
        outranks(diffs, j, i, n),
    ensures
        outrankers(diffs, i, upto, n) >= 1,
    decreases upto,
{
    if j < upto - 1 {
        lemma_outranker_counts(diffs, i, upto - 1, j, n);
    }
}

/// The diff of a group: its segments set against its target rows.
pub open spec fn group_diff(group: GroupModel, ctx: ContextModel) -> Seq<DiffRowModel> {
    diff_rows(group_segments(group, ctx), group.target_rows)
}

/// The target row that a row of the diff of a group is set against.
proof fn lemma_diff_target(group: GroupModel, ctx: ContextModel, i: int) -> (k: int)
    requires
        0 <= i < group_diff(group, ctx).len(),
        group_diff(group, ctx)[i].target_valid_from is Some,
    ensures
        0 <= k < group.target_rows.len(),
        group_diff(group, ctx)[i].target_valid_from == Some(group.target_rows[k].valid_from),
        group_diff(group, ctx)[i].target_valid_until == Some(group.target_rows[k].valid_until),
        i < group_segments(group, ctx).len() ==> has_descendant(
            group_segments(group, ctx),
            group.target_rows[k].valid_from.text,
        ),
        i < group_segments(group, ctx).len() ==> (group_segments(
            group,
            ctx,
        )[i].ancestor_valid_from matches Some(a) && a.text == group.target_rows[k].valid_from.text),
        i >= group_segments(group, ctx).len() ==> !has_descendant(
            group_segments(group, ctx),
            group.target_rows[k].valid_from.text,
        ),
{
    let segs = group_segments(group, ctx);
    let targets = group.target_rows;
    let diffs = group_diff(group, ctx);
    if i < segs.len() {
        assert(diffs[i] == diff_of_segment(segs[i], targets));
        let k = lemma_target_from(targets, segs[i].ancestor_valid_from->0.text);
        assert(segs[i].ancestor_valid_from->0.text == targets[k].valid_from.text);
        k
    } else {
        let o = i - segs.len();
        assert(diffs[i] == orphan_diffs(targets, segs, orphan_key(segs))[o]);
        let r = lemma_orphans_from(targets, segs, orphan_key(segs), o, o);
        r.0
    }
}

/// Each row that the planner makes for a group is sound: it has the bounds
/// of the target row that it reads and of the segment that it leaves,
/// neither of them empty, and an update has the effect that its bounds
/// show.
pub proof fn lemma_group_rows_sound(group: GroupModel, ctx: ContextModel, a: int)
    requires
        targets_apart(group.target_rows, ctx.numeric),
        0 <= a < planned_rows(group, ctx).len(),
    ensures
        is_sound(planned_rows(group, ctx)[a], ctx.numeric),
{
    let n = ctx.numeric;
    let kept = rows_kept(active_rows(group.source_rows), ctx.mode);
    let segs = group_segments(group, ctx);
    let diffs = group_diff(group, ctx);
    let rows = planned_rows(group, ctx);
    let x = rows[a];
    let r = lemma_classified_from(diffs, diffs.len() as int, group, ctx, a, a);
    let i = r.0;
    let d = diffs[i];
    lemma_final_segments_lie_apart(group, kept, ctx);
    if i < segs.len() {
        assert(d == diff_of_segment(segs[i], group.target_rows));
        assert(coalesced_spans(segs)[i] == (segs[i].valid_from, segs[i].valid_until));
    } else {
        let o = i - segs.len();
        let p = lemma_orphans_from(group.target_rows, segs, orphan_key(segs), o, o);
        assert(d == diff_of_target(group.target_rows[p.0], orphan_key(segs)));
    }
    if reads_row(x) {
        let k = lemma_diff_target(group, ctx, i);
    }
}

/// No two rows that the planner makes for a group read target rows that
/// overlap, or leave rows that overlap: the rows of an entity that lay
/// apart before the plan is executed lie apart after it.
pub proof fn lemma_group_rows_apart(group: GroupModel, ctx: ContextModel, a: int, b: int)
    requires
        ctx.numeric ==> ranked_as_written(group),
        targets_apart(group.target_rows, ctx.numeric),
        0 <= a < planned_rows(group, ctx).len(),
        0 <= b < planned_rows(group, ctx).len(),
        a != b,
    ensures
        apart_before_and_after(planned_rows(group, ctx)[a], planned_rows(group, ctx)[b], ctx.numeric),
    decreases
            if a < b {
                0int
            } else {
                1int
            },
{
    let n = ctx.numeric;
    let rows = planned_rows(group, ctx);
    if b < a {
        lemma_group_rows_apart(group, ctx, b, a);
    } else {
        let kept = rows_kept(active_rows(group.source_rows), ctx.mode);
        let segs = group_segments(group, ctx);
        let spans = coalesced_spans(segs);
        let targets = group.target_rows;
        let diffs = group_diff(group, ctx);
        let x = rows[a];
        let y = rows[b];
        let r = lemma_classified_from(diffs, diffs.len() as int, group, ctx, a, b);
        let i = r.0;
        let j = r.1;
        lemma_final_segments_lie_apart(group, kept, ctx);
        if i < segs.len() {
            assert(diffs[i] == diff_of_segment(segs[i], targets));
            assert(spans[i] == (segs[i].valid_from, segs[i].valid_until));
        } else {
            let o = i - segs.len();
            let p = lemma_orphans_from(targets, segs, orphan_key(segs), o, o);
        }
        if j < segs.len() {
            assert(diffs[j] == diff_of_segment(segs[j], targets));
            assert(spans[j] == (segs[j].valid_from, segs[j].valid_until));
        } else {
            let o = j - segs.len();
            let p = lemma_orphans_from(targets, segs, orphan_key(segs), o, o);
        }
        if leaves_row(x) && leaves_row(y) {
            assert(!before(spans[j].0, spans[i].1, n));
        }
        if reads_row(x) && reads_row(y) {
            let k = lemma_diff_target(group, ctx, i);
            let l = lemma_diff_target(group, ctx, j);
            if k == l {
                if i >= segs.len() {
                    let p = lemma_orphans_from(
                        targets,
                        segs,
                        orphan_key(segs),
                        i - segs.len(),
                        j - segs.len(),
                    );
                    let tk = targets[p.0];
                    let tl = targets[p.1];
                    lemma_before_order(tk.valid_from, tk.valid_until, tk.valid_from, n);
                    assert(false);
                } else {
                    // Both are segments of one target row: one of them
                    // starts with it or ranks first, and the other does not.
                    let di = diffs[i];
                    let dj = diffs[j];
                    assert(ranked(di) && ranked(dj));
                    lemma_before_order(spans[i].0, spans[j].0, spans[i].1, n);
                    lemma_before_order(spans[j].0, spans[i].0, spans[i].1, n);
                    if starts_with_target(di) && starts_with_target(dj) {
                        lemma_final_segment_starts_at_end(group, ctx, i);
                        lemma_final_segment_starts_at_end(group, ctx, j);
                        assert(spans[i].0.text == spans[j].0.text);
                        assert(false);
                    } else if starts_with_target(di) {
                        lemma_outranker_counts(diffs, j, diffs.len() as int, i, n);
                        assert(false);
                    } else if starts_with_target(dj) {
                        lemma_outranker_counts(diffs, i, diffs.len() as int, j, n);
                        assert(false);
                    } else {
                        if outranks(diffs, i, j, n) {
                            lemma_outranker_counts(diffs, j, diffs.len() as int, i, n);
                        } else {
                            lemma_outranker_counts(diffs, i, diffs.len() as int, j, n);
                        }
                        assert(false);
                    }
                }
            } else if k < l {
                assert(!overlapping(
                    targets[k].valid_from,
                    targets[k].valid_until,
                    targets[l].valid_from,
                    targets[l].valid_until,
                    n,
                ));
            } else {
                assert(!overlapping(
                    targets[l].valid_from,
                    targets[l].valid_until,
                    targets[k].valid_from,
                    targets[k].valid_until,
                    n,
                ));
            }
        }
    }
}

/// Two target rows of an entity that start level are one row.
proof fn lemma_one_row_starts_there(targets: Seq<TargetRowModel>, n: bool, k: int, l: int)
    requires
        targets_apart(targets, n),
        0 <= k < targets.len(),
        0 <= l < targets.len(),
        !before(targets[k].valid_from, targets[l].valid_from, n),
        !before(targets[l].valid_from, targets[k].valid_from, n),
    ensures
        k == l,
{
    let a = targets[k];
    let b = targets[l];
    lemma_before_order(a.valid_from, b.valid_from, b.valid_until, n);
    lemma_before_order(b.valid_from, a.valid_from, a.valid_until, n);
    if k < l {
        assert(!overlapping(a.valid_from, a.valid_until, b.valid_from, b.valid_until, n));
    } else if l < k {
        assert(!overlapping(b.valid_from, b.valid_until, a.valid_from, a.valid_until, n));
    }
}

/// A resolved segment that has a target row lies within the target row
/// that starts where that row is written to start.
proof fn lemma_rooted_in_row(group: GroupModel, ctx: ContextModel, h: int, k: int)
    requires
        targets_apart(group.target_rows, ctx.numeric),
        ctx.numeric ==> ranked_as_written(group),
        0 <= h < resolved_segments(
            atomic_segments(group, rows_kept(active_rows(group.source_rows), ctx.mode), ctx),
            rows_kept(active_rows(group.source_rows), ctx.mode),
            group.target_rows,
            ctx,
        ).len(),
        0 <= k < group.target_rows.len(),
        resolved_segments(
            atomic_segments(group, rows_kept(active_rows(group.source_rows), ctx.mode), ctx),
            rows_kept(active_rows(group.source_rows), ctx.mode),
            group.target_rows,
            ctx,
        )[h].target_valid_from matches Some(a) && a.text == group.target_rows[k].valid_from.text,
    ensures
        !before(
            resolved_segments(
                atomic_segments(group, rows_kept(active_rows(group.source_rows), ctx.mode), ctx),
                rows_kept(active_rows(group.source_rows), ctx.mode),
                group.target_rows,
                ctx,
            )[h].valid_from,
            group.target_rows[k].valid_from,
            ctx.numeric,
        ),
        !before(
            group.target_rows[k].valid_until,
            resolved_segments(
                atomic_segments(group, rows_kept(active_rows(group.source_rows), ctx.mode), ctx),
                rows_kept(active_rows(group.source_rows), ctx.mode),
                group.target_rows,
                ctx,
            )[h].valid_until,
            ctx.numeric,
        ),
{
    let n = ctx.numeric;
    let kept = rows_kept(active_rows(group.source_rows), ctx.mode);
    let atoms = atomic_segments(group, kept, ctx);
    let targets = group.target_rows;
    let m = lemma_resolved_from_atom(atoms, kept, targets, ctx, h);
    let found = lemma_covering_target(targets, atoms[m], n);
    let a = targets[found].valid_from;
    lemma_before_order(a, targets[k].valid_from, a, n);
    if n {
        assert(is_end(group, a)) by {
            assert(group.target_rows[found].valid_from == a);
        }
        assert(is_end(group, targets[k].valid_from)) by {
            assert(group.target_rows[k].valid_from == targets[k].valid_from);
        }
    }
    lemma_one_row_starts_there(targets, n, found, k);
}

/// A segment never reaches back into a target row that lies before the
/// one it comes from: it starts where that row ends, or after.
pub proof fn lemma_segment_keeps_off_earlier_row(
    group: GroupModel,
    ctx: ContextModel,
    i: int,
    j: int,
    k: int,
    l: int,
)
    requires
        targets_apart(group.target_rows, ctx.numeric),
        ctx.numeric ==> ranked_as_written(group),
        0 <= i < group_segments(group, ctx).len(),
        0 <= j < group_segments(group, ctx).len(),
        0 <= k < group.target_rows.len(),
        0 <= l < group.target_rows.len(),
        group_segments(group, ctx)[i].ancestor_valid_from matches Some(a) && a.text
            == group.target_rows[k].valid_from.text,
        group_segments(group, ctx)[j].ancestor_valid_from matches Some(a) && a.text
            == group.target_rows[l].valid_from.text,
        !before(group.target_rows[k].valid_from, group.target_rows[l].valid_until, ctx.numeric),
    ensures
        !before(
            group_segments(group, ctx)[i].valid_from,
            group.target_rows[l].valid_until,
            ctx.numeric,
        ),
{
    let n = ctx.numeric;
    let kept = rows_kept(active_rows(group.source_rows), ctx.mode);
    let atoms = atomic_segments(group, kept, ctx);
    let targets = group.target_rows;
    let resolved = resolved_segments(atoms, kept, targets, ctx);
    let segs = group_segments(group, ctx);
    let tk = targets[k];
    let tl = targets[l];
    if i == j {
        // One segment does not come from two rows.
        lemma_before_order(tk.valid_from, tl.valid_from, tk.valid_from, n);
        if n {
            assert(is_end(group, tk.valid_from)) by {
                assert(group.target_rows[k].valid_from == tk.valid_from);
            }
            assert(is_end(group, tl.valid_from)) by {
                assert(group.target_rows[l].valid_from == tl.valid_from);
            }
        }
        lemma_one_row_starts_there(targets, n, k, l);
        assert(before(tk.valid_from, tk.valid_until, n));
        assert(false);
    }
    lemma_atomic_segments_lie_apart(group, kept, ctx);
    lemma_resolved_lie_apart(atoms, kept, targets, ctx);
    lemma_runs_lie_apart(resolved, n);
    assert(segs[i] == tidy(runs(resolved)[i]));
    assert(segs[j] == tidy(runs(resolved)[j]));
    let ri = runs(resolved)[i];
    let rj = runs(resolved)[j];
    let spans = coalesced_spans(runs(resolved));
    assert(spans[i] == (ri.valid_from, ri.valid_until));
    assert(spans[j] == (rj.valid_from, rj.valid_until));
    let f = lemma_run_first(resolved, i);
    let h = lemma_run_root(resolved, n, i);
    let g = lemma_run_root(resolved, n, j);
    lemma_rooted_in_row(group, ctx, h, k);
    lemma_rooted_in_row(group, ctx, g, l);
    let from = ri.valid_from;
    if resolved[f].target_valid_from is Some {
        lemma_rooted_in_row(group, ctx, f, k);
        lemma_before_order(from, tk.valid_from, tl.valid_until, n);
        lemma_before_order(from, tl.valid_until, tk.valid_from, n);
        lemma_before_order(tl.valid_until, from, tk.valid_from, n);
    } else if before(from, tl.valid_until, n) {
        let m = lemma_resolved_from_atom(atoms, kept, targets, ctx, f);
        lemma_no_covering_target(targets, atoms[m], n, l);
        lemma_atom_keeps_off_end(group, kept, ctx, m, l);
        assert(before(from, tl.valid_from, n));
        // The run reaches from before the earlier row to behind it, and so
        // over the segment that the other run has of that row.
        let hs = resolved_spans(resolved);
        assert(hs[h] == (resolved[h].valid_from, resolved[h].valid_until));
        assert(hs[g] == (resolved[g].valid_from, resolved[g].valid_until));
        assert(before(hs[h].0, hs[h].1, n));
        assert(before(hs[g].0, hs[g].1, n));
        let gf = resolved[g].valid_from;
        let gu = resolved[g].valid_until;
        let hf = resolved[h].valid_from;
        let hu = resolved[h].valid_until;
        // from < tl.from <= gf < gu <= tl.until <= tk.from <= hf < hu <= ri.until
        lemma_before_order(from, tl.valid_from, gf, n);
        lemma_before_order(from, gf, tl.valid_from, n);
        lemma_before_order(gf, from, tl.valid_from, n);
        assert(before(from, gf, n));
        lemma_before_order(from, gf, gu, n);
        assert(before(from, gu, n));
        lemma_before_order(from, gu, rj.valid_until, n);
        lemma_before_order(from, rj.valid_until, gu, n);
        lemma_before_order(rj.valid_until, from, gu, n);
        assert(before(from, rj.valid_until, n));
        lemma_before_order(gu, tl.valid_until, tk.valid_from, n);
        lemma_before_order(tk.valid_from, tl.valid_until, gu, n);
        lemma_before_order(tl.valid_until, tk.valid_from, gu, n);
        lemma_before_order(gu, tk.valid_from, hf, n);
        lemma_before_order(hf, tk.valid_from, gu, n);
        lemma_before_order(tk.valid_from, hf, gu, n);
        lemma_before_order(gf, gu, hf, n);
        lemma_before_order(hf, gu, gf, n);
        lemma_before_order(gu, hf, gf, n);
        assert(before(gf, hf, n)) by {
            lemma_before_order(gf, hf, gu, n);
            lemma_before_order(hf, gf, gu, n);
        }
        lemma_before_order(gf, hf, hu, n);
        assert(before(gf, hu, n));
        lemma_before_order(gf, hu, ri.valid_until, n);
        lemma_before_order(gf, ri.valid_until, hu, n);
        lemma_before_order(ri.valid_until, gf, hu, n);
        assert(before(gf, ri.valid_until, n));
        lemma_before_order(rj.valid_from, gf, ri.valid_until, n);
        lemma_before_order(gf, rj.valid_from, ri.valid_until, n);
        lemma_before_order(ri.valid_until, gf, rj.valid_from, n);
        assert(before(rj.valid_from, ri.valid_until, n));
        if i < j {
            assert(!before(spans[j].0, spans[i].1, n));
        } else {
            assert(!before(spans[i].0, spans[j].1, n));
        }
        assert(false);
    }
}

/// The order of the statements of a plan is safe. Take two rows of a plan
/// that were made for one entity, that change the table and are not both
/// moves. If the target rows of the entity lie apart, the row with the
/// lower statement number can be executed before the other without the row
/// that it leaves overlapping the row that the other has yet to change.
///
/// Two moves run one after the other in the order of the plan; of them
/// [`lemma_plan_moves_are_safe`] speaks.
pub proof fn lemma_plan_order_is_safe(
    sources: Seq<SourceRowModel>,
    targets: Seq<TargetRowModel>,
    ctx: ContextModel,
    g: int,
    a: int,
    b: int,
    i: int,
    j: int,
)
    requires
        0 <= g < grouped(prepared(sources, targets, ctx), targets, ctx).len(),
        targets_apart(grouped(prepared(sources, targets, ctx), targets, ctx)[g].target_rows, ctx.numeric),
        ctx.numeric ==> ranked_as_written(grouped(prepared(sources, targets, ctx), targets, ctx)[g]),
        0 <= a < planned_rows(grouped(prepared(sources, targets, ctx), targets, ctx)[g], ctx).len(),
        0 <= b < planned_rows(grouped(prepared(sources, targets, ctx), targets, ctx)[g], ctx).len(),
        a != b,
        0 <= i < plan_of(sources, targets, ctx).len(),
        0 <= j < plan_of(sources, targets, ctx).len(),
        same_but_numbers(
            plan_of(sources, targets, ctx)[i],
            planned_rows(grouped(prepared(sources, targets, ctx), targets, ctx)[g], ctx)[a],
        ),
        same_but_numbers(
            plan_of(sources, targets, ctx)[j],
            planned_rows(grouped(prepared(sources, targets, ctx), targets, ctx)[g], ctx)[b],
        ),
        category(plan_of(sources, targets, ctx)[i]) != 0,
        category(plan_of(sources, targets, ctx)[j]) != 0,
        !(category(plan_of(sources, targets, ctx)[i]) == 3 && category(
            plan_of(sources, targets, ctx)[j],
        ) == 3),
        plan_of(sources, targets, ctx)[i].statement_seq < plan_of(sources, targets, ctx)[j].statement_seq,
    ensures
        is_sound(plan_of(sources, targets, ctx)[i], ctx.numeric),
        is_sound(plan_of(sources, targets, ctx)[j], ctx.numeric),
        apart_before_and_after(
            plan_of(sources, targets, ctx)[i],
            plan_of(sources, targets, ctx)[j],
            ctx.numeric,
        ),
        !overlap_between(plan_of(sources, targets, ctx)[i], plan_of(sources, targets, ctx)[j], ctx.numeric),
{
    let n = ctx.numeric;
    let groups = grouped(prepared(sources, targets, ctx), targets, ctx);
    let sorted = sort_by(groups_plan(groups, ctx), plan_order(n));
    let plan = plan_of(sources, targets, ctx);
    lemma_group_rows_sound(groups[g], ctx, a);
    lemma_group_rows_sound(groups[g], ctx, b);
    lemma_group_rows_apart(groups[g], ctx, a, b);
    assert(plan[i] == numbered_row(sorted, i));
    assert(plan[j] == numbered_row(sorted, j));
    lemma_lower_statement_first(sorted, i, j, n);
}

/// An update never leaves a row that reaches back into a target row that
/// lies before the one it reads: the row that it leaves starts where the
/// earlier row ends, or after.
pub proof fn lemma_update_keeps_off_earlier_row(group: GroupModel, ctx: ContextModel, a: int, b: int)
    requires
        targets_apart(group.target_rows, ctx.numeric),
        ctx.numeric ==> ranked_as_written(group),
        0 <= a < planned_rows(group, ctx).len(),
        0 <= b < planned_rows(group, ctx).len(),
        planned_rows(group, ctx)[a].operation is Update,
        planned_rows(group, ctx)[b].operation is Update,
        !before(
            planned_rows(group, ctx)[a].old_valid_from->0,
            planned_rows(group, ctx)[b].old_valid_until->0,
            ctx.numeric,
        ),
    ensures
        !before(
            planned_rows(group, ctx)[a].new_valid_from->0,
            planned_rows(group, ctx)[b].old_valid_until->0,
            ctx.numeric,
        ),
{
    let segs = group_segments(group, ctx);
    let targets = group.target_rows;
    let diffs = group_diff(group, ctx);
    let ra = lemma_classified_from(diffs, diffs.len() as int, group, ctx, a, a);
    let rb = lemma_classified_from(diffs, diffs.len() as int, group, ctx, b, b);
    let i = ra.0;
    let j = rb.0;
    if i >= segs.len() {
        let o = i - segs.len();
        let p = lemma_orphans_from(targets, segs, orphan_key(segs), o, o);
        assert(diffs[i] == diff_of_target(targets[p.0], orphan_key(segs)));
    }
    if j >= segs.len() {
        let o = j - segs.len();
        let p = lemma_orphans_from(targets, segs, orphan_key(segs), o, o);
        assert(diffs[j] == diff_of_target(targets[p.0], orphan_key(segs)));
    }
    assert(diffs[i] == diff_of_segment(segs[i], targets));
    assert(diffs[j] == diff_of_segment(segs[j], targets));
    let k = lemma_diff_target(group, ctx, i);
    let l = lemma_diff_target(group, ctx, j);
    lemma_segment_keeps_off_earlier_row(group, ctx, i, j, k, l);
}

/// The order of two moves is safe. Take two moves of a plan that were made
/// for one entity and carry the same keys. The plan has the one that reads
/// the later row first, and that one has the lower statement number. If
/// the target rows of the entity lie apart, it can be executed before the
/// other without the row that it leaves overlapping the row that the other
/// has yet to change.
pub proof fn lemma_plan_moves_are_safe(
    sources: Seq<SourceRowModel>,
    targets: Seq<TargetRowModel>,
    ctx: ContextModel,
    g: int,
    a: int,
    b: int,
    i: int,
    j: int,
)
    requires
        0 <= g < grouped(prepared(sources, targets, ctx), targets, ctx).len(),
        targets_apart(grouped(prepared(sources, targets, ctx), targets, ctx)[g].target_rows, ctx.numeric),
        ctx.numeric ==> ranked_as_written(grouped(prepared(sources, targets, ctx), targets, ctx)[g]),
        0 <= a < planned_rows(grouped(prepared(sources, targets, ctx), targets, ctx)[g], ctx).len(),
        0 <= b < planned_rows(grouped(prepared(sources, targets, ctx), targets, ctx)[g], ctx).len(),
        a != b,
        0 <= i < plan_of(sources, targets, ctx).len(),
        0 <= j < plan_of(sources, targets, ctx).len(),
        same_but_numbers(
            plan_of(sources, targets, ctx)[i],
            planned_rows(grouped(prepared(sources, targets, ctx), targets, ctx)[g], ctx)[a],
        ),
        same_but_numbers(
            plan_of(sources, targets, ctx)[j],
            planned_rows(grouped(prepared(sources, targets, ctx), targets, ctx)[g], ctx)[b],
        ),
        category(plan_of(sources, targets, ctx)[i]) == 3,
        category(plan_of(sources, targets, ctx)[j]) == 3,
        plan_of(sources, targets, ctx)[i].grouping_key == plan_of(sources, targets, ctx)[j].grouping_key,
        plan_of(sources, targets, ctx)[i].entity_keys == plan_of(sources, targets, ctx)[j].entity_keys,
        plan_of(sources, targets, ctx)[i].statement_seq < plan_of(sources, targets, ctx)[j].statement_seq,
    ensures
        i < j,
        !before(
            plan_of(sources, targets, ctx)[i].old_valid_from->0,
            plan_of(sources, targets, ctx)[j].old_valid_from->0,
            ctx.numeric,
        ),
        !overlap_between(plan_of(sources, targets, ctx)[i], plan_of(sources, targets, ctx)[j], ctx.numeric),
{
    let n = ctx.numeric;
    let groups = grouped(prepared(sources, targets, ctx), targets, ctx);
    let rows = groups_plan(groups, ctx);
    let sorted = sort_by(rows, plan_order(n));
    let plan = plan_of(sources, targets, ctx);
    lemma_group_rows_sound(groups[g], ctx, a);
    lemma_group_rows_sound(groups[g], ctx, b);
    lemma_group_rows_apart(groups[g], ctx, a, b);
    assert(plan[i] == numbered_row(sorted, i));
    assert(plan[j] == numbered_row(sorted, j));
    lemma_statement_order(sorted, i, j);
    lemma_statement_order(sorted, j, i);
    lemma_sequenced_in_order(rows, n);
    assert(!plan_order(n)(sorted[j], sorted[i]));
    let x = plan[i];
    let y = plan[j];
    lemma_before_order(time_key(sorted[i]), time_key(sorted[j]), time_key(sorted[i]), n);
    assert(!before(x.old_valid_from->0, y.old_valid_from->0, n));
    // The row that the second move reads lies wholly before the row that
    // the first one reads.
    lemma_before_order(y.old_valid_from->0, x.old_valid_from->0, x.old_valid_until->0, n);
    lemma_before_order(x.old_valid_from->0, y.old_valid_from->0, x.old_valid_until->0, n);
    assert(!before(x.old_valid_from->0, y.old_valid_until->0, n));
    lemma_update_keeps_off_earlier_row(groups[g], ctx, a, b);
}

} // verus!
