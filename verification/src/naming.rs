use crate::coalesce::{continues, id_order, run_of, run_with, runs, tidy, without_repeated_ids};
use crate::diff::{diff_of_segment, diff_of_target, orphan_diffs, orphan_key};
use crate::group_safety::{group_diff, lemma_classified_from, lemma_orphans_from};
use crate::laws::{in_a_group, report_for};
use crate::plan::{planned_rows, prepared};
use crate::resolve::{
    all_ids, by_row_id, causal_row, covering_rows, covering_sources, distinct_ids, first_touching,
    resolve_one, resolved_segments,
};
use crate::segments::{
    active_rows, atomic_segments, grouped, grouped_sources, rows_kept, target_key, with_source,
    with_target, with_targets,
};
use crate::text::lex_lt;
use crate::sorting::{lemma_sort_elements, sort_by};
use crate::timeline::{group_segments, lemma_active_among, lemma_kept_among};
use crate::types::{
    AtomicSegmentModel, ContextModel, GroupModel, MatchedModel, ResolvedSegmentModel,
    SourceRowModel, TargetRowModel,
};
use vstd::prelude::*;

verus! {

/// Whether `id` is the row id of one of the rows.
pub open spec fn id_among(rows: Seq<MatchedModel>, id: i64) -> bool {
    exists|i: int| 0 <= i < rows.len() && (#[trigger] rows[i]).source.row_id == id
}

/// A row that covers a segment is one of the rows.
proof fn lemma_covering_is_row(active: Seq<MatchedModel>, seg: AtomicSegmentModel, n: bool, m: MatchedModel)
    requires
        covering_rows(active, seg, n).contains(m),
    ensures
        active.contains(m),
    decreases active.len(),
{
    let all = covering_rows(active, seg, n);
    let k = choose|k: int| 0 <= k < all.len() && all[k] == m;
    let init = active.drop_last();
    let rest = covering_rows(init, seg, n);
    if k < rest.len() {
        assert(rest[k] == m);
        lemma_covering_is_row(init, seg, n, m);
        let j = choose|j: int| 0 <= j < init.len() && init[j] == m;
        assert(active[j] == m);
    } else {
        assert(active[active.len() - 1] == m);
    }
}

/// Each of the distinct ids of rows is the id of one of them.
proof fn lemma_distinct_id_is_row(rows: Seq<MatchedModel>, id: i64)
    requires
        distinct_ids(rows).contains(id),
    ensures
        id_among(rows, id),
    decreases rows.len(),
{
    let all = distinct_ids(rows);
    let k = choose|k: int| 0 <= k < all.len() && all[k] == id;
    let init = rows.drop_last();
    let rest = distinct_ids(init);
    if k < rest.len() {
        assert(rest[k] == id);
        lemma_distinct_id_is_row(init, id);
        let j = choose|j: int| 0 <= j < init.len() && (#[trigger] init[j]).source.row_id == id;
        assert(rows[j] == init[j]);
    } else {
        assert(rows[rows.len() - 1].source.row_id == id);
    }
}

/// The first row that touches a segment is one of the rows.
proof fn lemma_first_touching_is_row(active: Seq<MatchedModel>, seg: AtomicSegmentModel)
    requires
        first_touching(active, seg) is Some,
    ensures
        0 <= first_touching(active, seg)->0 < active.len(),
    decreases active.len(),
{
    if active.len() > 0 && first_touching(active.drop_last(), seg) is Some {
        lemma_first_touching_is_row(active.drop_last(), seg);
    }
}

/// A resolved segment names only rows among those that are planned.
proof fn lemma_resolved_names_rows(
    seg: AtomicSegmentModel,
    active: Seq<MatchedModel>,
    targets: Seq<TargetRowModel>,
    ctx: ContextModel,
    id: i64,
)
    requires
        resolve_one(seg, active, targets, ctx) is Some,
        resolve_one(seg, active, targets, ctx)->0.row_ids.contains(id),
    ensures
        id_among(active, id),
{
    let n = ctx.numeric;
    let r = resolve_one(seg, active, targets, ctx)->0;
    let cov = covering_sources(active, seg, n);
    let k = choose|k: int| 0 <= k < r.row_ids.len() && r.row_ids[k] == id;
    if cov.len() == 0 {
        if active.len() > 0 {
            let cause = causal_row(active, seg);
            if first_touching(active, seg) is Some {
                lemma_first_touching_is_row(active, seg);
            }
            assert(cause.source.row_id == id);
        }
    } else {
        // The id is that of a covering row.
        let m = if ctx.mode is DeleteForPortionOf {
            assert(all_ids(cov)[k] == cov[k].source.row_id);
            cov[k]
        } else if ctx.mode.spec_is_last_writer_wins() {
            cov.last()
        } else {
            lemma_distinct_id_is_row(cov, id);
            let j = choose|j: int| 0 <= j < cov.len() && (#[trigger] cov[j]).source.row_id == id;
            cov[j]
        };
        assert(cov.contains(m));
        lemma_sort_elements(covering_rows(active, seg, n), by_row_id(), m);
        lemma_covering_is_row(active, seg, n, m);
        let i = choose|i: int| 0 <= i < active.len() && active[i] == m;
        assert(active[i].source.row_id == id);
    }
}

/// Each resolved segment names only rows among those that are planned.
proof fn lemma_resolved_segments_name_rows(
    segs: Seq<AtomicSegmentModel>,
    active: Seq<MatchedModel>,
    targets: Seq<TargetRowModel>,
    ctx: ContextModel,
    k: int,
    id: i64,
)
    requires
        0 <= k < resolved_segments(segs, active, targets, ctx).len(),
        resolved_segments(segs, active, targets, ctx)[k].row_ids.contains(id),
    ensures
        id_among(active, id),
    decreases segs.len(),
{
    let init = segs.drop_last();
    let rest = resolved_segments(init, active, targets, ctx);
    if k < rest.len() {
        assert(resolved_segments(segs, active, targets, ctx)[k] == rest[k]);
        lemma_resolved_segments_name_rows(init, active, targets, ctx, k, id);
    } else {
        lemma_resolved_names_rows(segs.last(), active, targets, ctx, id);
    }
}

/// Each run names only rows that one of its segments names.
proof fn lemma_runs_name_rows(resolved: Seq<ResolvedSegmentModel>, k: int, id: i64)
    requires
        0 <= k < runs(resolved).len(),
        runs(resolved)[k].row_ids.contains(id),
    ensures
        exists|j: int| 0 <= j < resolved.len() && (#[trigger] resolved[j]).row_ids.contains(id),
    decreases resolved.len(),
{
    let out = runs(resolved);
    let init = resolved.drop_last();
    let prev = runs(init);
    let seg = resolved.last();
    let last = resolved.len() - 1;
    let joins = prev.len() > 0 && continues(prev.last(), seg);
    let at = choose|at: int| 0 <= at < out[k].row_ids.len() && out[k].row_ids[at] == id;
    if joins && k == prev.len() - 1 {
        assert(out[k] == run_with(prev.last(), seg));
        if at < prev.last().row_ids.len() {
            assert(prev[k].row_ids[at] == id);
            lemma_runs_name_rows(init, k, id);
            let j = choose|j: int| 0 <= j < init.len() && (#[trigger] init[j]).row_ids.contains(id);
            assert(resolved[j] == init[j]);
        } else {
            assert(seg.row_ids[at - prev.last().row_ids.len()] == id);
            assert(resolved[last].row_ids.contains(id));
        }
    } else if k < prev.len() {
        assert(out[k] == prev[k]);
        lemma_runs_name_rows(init, k, id);
        let j = choose|j: int| 0 <= j < init.len() && (#[trigger] init[j]).row_ids.contains(id);
        assert(resolved[j] == init[j]);
    } else {
        assert(out[k] == run_of(seg));
        assert(resolved[last].row_ids.contains(id));
    }
}

/// An id that is left when repeats are removed was there before.
proof fn lemma_without_repeated_ids_among(s: Seq<i64>, x: i64)
    requires
        without_repeated_ids(s).contains(x),
    ensures
        s.contains(x),
    decreases s.len(),
{
    let d = without_repeated_ids(s);
    let k = choose|k: int| 0 <= k < d.len() && d[k] == x;
    let d0 = without_repeated_ids(s.drop_last());
    if k < d0.len() {
        assert(d0[k] == x);
        lemma_without_repeated_ids_among(s.drop_last(), x);
        let j = choose|j: int| 0 <= j < s.drop_last().len() && s.drop_last()[j] == x;
        assert(s[j] == x);
    } else {
        assert(s[s.len() - 1] == x);
    }
}

/// A row that is planned for a group names only source rows of the group
/// that are planned themselves: none that the plan reports on instead.
pub proof fn lemma_group_names_planned_rows(group: GroupModel, ctx: ContextModel, a: int, id: i64)
    requires
        0 <= a < planned_rows(group, ctx).len(),
        planned_rows(group, ctx)[a].row_ids.contains(id),
    ensures
        exists|i: int|
            0 <= i < group.source_rows.len() && (#[trigger] group.source_rows[i]).source.row_id == id
                && report_for(group.source_rows[i], ctx) is None,
{
    let active = active_rows(group.source_rows);
    let kept = rows_kept(active, ctx.mode);
    let atoms = atomic_segments(group, kept, ctx);
    let resolved = resolved_segments(atoms, kept, group.target_rows, ctx);
    let segs = group_segments(group, ctx);
    let diffs = group_diff(group, ctx);
    let row = planned_rows(group, ctx)[a];
    let r = lemma_classified_from(diffs, diffs.len() as int, group, ctx, a, a);
    let i = r.0;
    if i < segs.len() {
        assert(diffs[i] == diff_of_segment(segs[i], group.target_rows));
        assert(segs[i] == tidy(runs(resolved)[i]));
        assert(segs[i].row_ids.contains(id));
        lemma_without_repeated_ids_among(sort_by(runs(resolved)[i].row_ids, id_order()), id);
        lemma_sort_elements(runs(resolved)[i].row_ids, id_order(), id);
        lemma_runs_name_rows(resolved, i, id);
        let j = choose|j: int| 0 <= j < resolved.len() && (#[trigger] resolved[j]).row_ids.contains(id);
        lemma_resolved_segments_name_rows(atoms, kept, group.target_rows, ctx, j, id);
        let k = choose|k: int| 0 <= k < kept.len() && (#[trigger] kept[k]).source.row_id == id;
        assert(kept.contains(kept[k]));
        lemma_kept_among(active, ctx.mode, kept[k]);
        lemma_active_among(group.source_rows, kept[k]);
        let m = choose|m: int| 0 <= m < group.source_rows.len() && group.source_rows[m] == kept[k];
        assert(report_for(group.source_rows[m], ctx) is None);
    } else {
        let o = i - segs.len();
        assert(diffs[i] == orphan_diffs(group.target_rows, segs, orphan_key(segs))[o]);
        let p = lemma_orphans_from(group.target_rows, segs, orphan_key(segs), o, o);
        assert(diffs[i] == diff_of_target(group.target_rows[p.0], orphan_key(segs)));
        assert(row.row_ids.len() == 0);
    }
}

/// A source row of the groups with one more source row was a source row
/// of the groups before, or is the row that was added.
proof fn lemma_with_source_only(groups: Seq<GroupModel>, ms: MatchedModel, m: MatchedModel)
    requires
        in_a_group(with_source(groups, ms), m),
    ensures
        in_a_group(groups, m) || m == ms,
    decreases groups.len(),
{
    let out = with_source(groups, ms);
    let (g, i) = choose|g: int, i: int|
        0 <= g < out.len() && 0 <= i < (#[trigger] out[g]).source_rows.len()
            && #[trigger] out[g].source_rows[i] == m;
    if groups.len() == 0 {
        assert(out[0].source_rows[0] == ms);
    } else if groups[0].grouping_key == ms.grouping_key {
        if g == 0 {
            assert(out[0].source_rows == groups[0].source_rows.push(ms));
            if i < groups[0].source_rows.len() {
                assert(groups[0].source_rows[i] == m);
            }
        } else {
            assert(out[g] == groups[g]);
            assert(groups[g].source_rows[i] == m);
        }
    } else if lex_lt(ms.grouping_key, groups[0].grouping_key) {
        if g > 0 {
            assert(out[g] == groups[g - 1]);
            assert(groups[g - 1].source_rows[i] == m);
        }
    } else {
        let rest = with_source(groups.drop_first(), ms);
        assert(out =~= seq![groups[0]] + rest);
        if g == 0 {
            assert(groups[0].source_rows[i] == m);
        } else {
            assert(rest[g - 1] == out[g]);
            assert(rest[g - 1].source_rows[i] == m);
            lemma_with_source_only(groups.drop_first(), ms, m);
            if m != ms {
                let (h, j) = choose|h: int, j: int|
                    0 <= h < groups.drop_first().len() && 0 <= j < (
                    #[trigger] groups.drop_first()[h]).source_rows.len()
                        && #[trigger] groups.drop_first()[h].source_rows[j] == m;
                assert(groups[h + 1] == groups.drop_first()[h]);
                assert(groups[h + 1].source_rows[j] == m);
            }
        }
    }
}

/// A source row of the groups with one more target row was a source row
/// of the groups before.
proof fn lemma_with_target_only(
    groups: Seq<GroupModel>,
    t: TargetRowModel,
    key: Seq<char>,
    orphans: bool,
    m: MatchedModel,
)
    requires
        in_a_group(with_target(groups, t, key, orphans), m),
    ensures
        in_a_group(groups, m),
    decreases groups.len(),
{
    let out = with_target(groups, t, key, orphans);
    let (g, i) = choose|g: int, i: int|
        0 <= g < out.len() && 0 <= i < (#[trigger] out[g]).source_rows.len()
            && #[trigger] out[g].source_rows[i] == m;
    if groups.len() == 0 {
    } else if groups[0].grouping_key == key {
        if g == 0 {
            assert(groups[0].source_rows[i] == m);
        } else {
            assert(out[g] == groups[g]);
            assert(groups[g].source_rows[i] == m);
        }
    } else if lex_lt(key, groups[0].grouping_key) {
        if orphans {
            if g > 0 {
                assert(out[g] == groups[g - 1]);
                assert(groups[g - 1].source_rows[i] == m);
            }
        }
    } else {
        let rest = with_target(groups.drop_first(), t, key, orphans);
        assert(out =~= seq![groups[0]] + rest);
        if g == 0 {
            assert(groups[0].source_rows[i] == m);
        } else {
            assert(rest[g - 1] == out[g]);
            assert(rest[g - 1].source_rows[i] == m);
            lemma_with_target_only(groups.drop_first(), t, key, orphans, m);
            let (h, j) = choose|h: int, j: int|
                0 <= h < groups.drop_first().len() && 0 <= j < (
                #[trigger] groups.drop_first()[h]).source_rows.len()
                    && #[trigger] groups.drop_first()[h].source_rows[j] == m;
            assert(groups[h + 1] == groups.drop_first()[h]);
            assert(groups[h + 1].source_rows[j] == m);
        }
    }
}

proof fn lemma_grouped_sources_only(matched: Seq<MatchedModel>, m: MatchedModel)
    requires
        in_a_group(grouped_sources(matched), m),
    ensures
        matched.contains(m),
    decreases matched.len(),
{
    if matched.len() > 0 {
        lemma_with_source_only(grouped_sources(matched.drop_last()), matched.last(), m);
        if m == matched.last() {
            assert(matched[matched.len() - 1] == m);
        } else {
            lemma_grouped_sources_only(matched.drop_last(), m);
            let k = choose|k: int| 0 <= k < matched.drop_last().len() && matched.drop_last()[k] == m;
            assert(matched[k] == m);
        }
    }
}

proof fn lemma_with_targets_only(
    groups: Seq<GroupModel>,
    targets: Seq<TargetRowModel>,
    ctx: ContextModel,
    m: MatchedModel,
)
    requires
        in_a_group(with_targets(groups, targets, ctx), m),
    ensures
        in_a_group(groups, m),
    decreases targets.len(),
{
    if targets.len() > 0 {
        lemma_with_target_only(
            with_targets(groups, targets.drop_last(), ctx),
            targets.last(),
            target_key(targets.last(), ctx),
            ctx.delete_mode.spec_deletes_entities(),
            m,
        );
        lemma_with_targets_only(groups, targets.drop_last(), ctx, m);
    }
}

/// Every source row of a group is one of the source rows that were
/// grouped.
pub proof fn lemma_grouped_row_is_matched(
    matched: Seq<MatchedModel>,
    targets: Seq<TargetRowModel>,
    ctx: ContextModel,
    m: MatchedModel,
)
    requires
        in_a_group(grouped(matched, targets, ctx), m),
    ensures
        matched.contains(m),
{
    lemma_with_targets_only(grouped_sources(matched), targets, ctx, m);
    lemma_grouped_sources_only(matched, m);
}

/// Whether no two of the rows have the same row id.
pub open spec fn ids_differ(rows: Seq<MatchedModel>) -> bool {
    forall|a: int, b: int|
        0 <= a < b < rows.len() ==> (#[trigger] rows[a]).source.row_id != (
        #[trigger] rows[b]).source.row_id
}

/// A source row is accounted for by a row of feedback or by the rows that
/// are planned, never by both: where the row ids of the source rows
/// differ, no row that is planned for a group names a source row that the
/// plan reports on.
pub proof fn lemma_reported_row_is_not_planned(
    sources: Seq<SourceRowModel>,
    targets: Seq<TargetRowModel>,
    ctx: ContextModel,
    i: int,
    g: int,
    a: int,
)
    requires
        ids_differ(prepared(sources, targets, ctx)),
        0 <= i < prepared(sources, targets, ctx).len(),
        report_for(prepared(sources, targets, ctx)[i], ctx) is Some,
        0 <= g < grouped(prepared(sources, targets, ctx), targets, ctx).len(),
        0 <= a < planned_rows(grouped(prepared(sources, targets, ctx), targets, ctx)[g], ctx).len(),
    ensures
        !planned_rows(grouped(prepared(sources, targets, ctx), targets, ctx)[g], ctx)[a].row_ids.contains(
            prepared(sources, targets, ctx)[i].source.row_id,
        ),
{
    let matched = prepared(sources, targets, ctx);
    let groups = grouped(matched, targets, ctx);
    let id = matched[i].source.row_id;
    if planned_rows(groups[g], ctx)[a].row_ids.contains(id) {
        lemma_group_names_planned_rows(groups[g], ctx, a, id);
        let j = choose|j: int|
            0 <= j < groups[g].source_rows.len() && (#[trigger] groups[g].source_rows[j]).source.row_id
                == id && report_for(groups[g].source_rows[j], ctx) is None;
        let m = groups[g].source_rows[j];
        assert(in_a_group(groups, m));
        lemma_grouped_row_is_matched(matched, targets, ctx, m);
        let k = choose|k: int| 0 <= k < matched.len() && matched[k] == m;
        if k < i {
            assert(matched[k].source.row_id != matched[i].source.row_id);
        } else if i < k {
            assert(matched[i].source.row_id != matched[k].source.row_id);
        }
        assert(false);
    }
}

} // verus!
