use crate::classify::{classification, classified_upto, unchanged, update_rank};
use crate::interval::UpdateEffect;
use crate::plan::{
    feedback_row, feedback_rows, filtered_feedback, filtered_rows, group_plan, groups_plan,
    plan_of, planned_rows, prepared, skip_reason,
};
use crate::segments::{
    active_rows, grouped, grouped_sources, is_active, kept_by_mode, with_source, with_target,
    with_targets,
};
use crate::sequence::{numbered_row, plan_order, sequenced};
use crate::sorting::{lemma_sort_elements, sort_by};
use crate::types::{
    ContextModel, DiffRowModel, EarlyFeedbackModel, GroupModel, MatchedModel, PlanAction,
    PlanRowModel, SourceRowModel, TargetRowModel,
};
use vstd::prelude::*;

verus! {

/// A segment that leaves its target row as it is is skipped, whatever its
/// rank: planning what is already there asks for no change.
pub proof fn lemma_unchanged_is_skipped(d: DiffRowModel, rank: Option<usize>, n: bool)
    requires
        d.target_valid_from is Some,
        d.final_valid_from is Some,
        unchanged(d),
    ensures
        classification(d, rank, n) == (PlanAction::SkipIdentical, None::<UpdateEffect>),
{
}

/// Where every row of a diff sets a segment that a source row covers
/// against a target row that it leaves as it is, the plan of the group is
/// one skip for each of them: planning what is there already changes nothing.
pub proof fn lemma_unchanged_diff_is_all_skips(
    diffs: Seq<DiffRowModel>,
    upto: int,
    group: GroupModel,
    ctx: ContextModel,
)
    requires
        0 <= upto <= diffs.len(),
        forall|i: int|
            0 <= i < diffs.len() ==> (#[trigger] diffs[i]).target_valid_from is Some
                && diffs[i].final_valid_from is Some && unchanged(diffs[i])
                && diffs[i].has_source_coverage,
    ensures
        classified_upto(diffs, upto, group, ctx).len() == upto,
        forall|k: int|
            0 <= k < upto ==> (#[trigger] classified_upto(diffs, upto, group, ctx)[k]).operation
                is SkipIdentical,
    decreases upto,
{
    if upto > 0 {
        lemma_unchanged_diff_is_all_skips(diffs, upto - 1, group, ctx);
        let rest = classified_upto(diffs, upto - 1, group, ctx);
        let all = classified_upto(diffs, upto, group, ctx);
        assert(diffs[upto - 1].target_valid_from is Some);
        lemma_unchanged_is_skipped(
            diffs[upto - 1],
            update_rank(diffs, upto - 1, ctx.numeric),
            ctx.numeric,
        );
        assert forall|k: int| 0 <= k < upto implies (#[trigger] all[k]).operation is SkipIdentical by {
            if k < upto - 1 {
                assert(all[k] == rest[k]);
            }
        }
    }
}

/// What a source row that is not planned is told, if it is not planned: it
/// has early feedback, is eclipsed, or the mode has no use for it.
pub open spec fn report_for(m: MatchedModel, ctx: ContextModel) -> Option<EarlyFeedbackModel> {
    match skip_reason(m, ctx) {
        Some(fb) => Some(fb),
        None => if kept_by_mode(m, ctx.mode) {
            None
        } else {
            Some(filtered_feedback(m))
        },
    }
}

/// Whether two rows of a plan differ in their numbers at most.
pub open spec fn same_but_numbers(a: PlanRowModel, b: PlanRowModel) -> bool {
    a == (PlanRowModel { plan_op_seq: a.plan_op_seq, statement_seq: a.statement_seq, ..b })
}

proof fn lemma_feedback_rows_hold(rows: Seq<MatchedModel>, ctx: ContextModel, i: int)
    requires
        0 <= i < rows.len(),
        skip_reason(rows[i], ctx) is Some,
    ensures
        feedback_rows(rows, ctx).contains(feedback_row(rows[i], skip_reason(rows[i], ctx)->0, ctx)),
    decreases rows.len(),
{
    let all = feedback_rows(rows, ctx);
    let rest = feedback_rows(rows.drop_last(), ctx);
    if i == rows.len() - 1 {
        assert(all[all.len() - 1] == feedback_row(rows[i], skip_reason(rows[i], ctx)->0, ctx));
    } else {
        lemma_feedback_rows_hold(rows.drop_last(), ctx, i);
        let want = feedback_row(rows[i], skip_reason(rows[i], ctx)->0, ctx);
        assert(rows.drop_last()[i] == rows[i]);
        let k = choose|k: int| 0 <= k < rest.len() && rest[k] == want;
        assert(all[k] == want);
    }
}

/// The active rows are the rows without early feedback that are not eclipsed.
proof fn lemma_active_rows_hold(rows: Seq<MatchedModel>, i: int)
    requires
        0 <= i < rows.len(),
        is_active(rows[i]),
    ensures
        active_rows(rows).contains(rows[i]),
    decreases rows.len(),
{
    let all = active_rows(rows);
    let rest = active_rows(rows.drop_last());
    if i == rows.len() - 1 {
        assert(all[all.len() - 1] == rows[i]);
    } else {
        lemma_active_rows_hold(rows.drop_last(), i);
        assert(rows.drop_last()[i] == rows[i]);
        let k = choose|k: int| 0 <= k < rest.len() && rest[k] == rows[i];
        assert(all[k] == rows[i]);
    }
}

proof fn lemma_filtered_rows_hold(active: Seq<MatchedModel>, ctx: ContextModel, i: int)
    requires
        0 <= i < active.len(),
        !kept_by_mode(active[i], ctx.mode),
    ensures
        filtered_rows(active, ctx).contains(feedback_row(active[i], filtered_feedback(active[i]), ctx)),
    decreases active.len(),
{
    let all = filtered_rows(active, ctx);
    let rest = filtered_rows(active.drop_last(), ctx);
    let want = feedback_row(active[i], filtered_feedback(active[i]), ctx);
    if i == active.len() - 1 {
        assert(all[all.len() - 1] == want);
    } else {
        lemma_filtered_rows_hold(active.drop_last(), ctx, i);
        assert(active.drop_last()[i] == active[i]);
        let k = choose|k: int| 0 <= k < rest.len() && rest[k] == want;
        assert(all[k] == want);
    }
}

/// Each source row of a group that is not planned has its row of feedback
/// in the plan of the group.
pub proof fn lemma_group_reports(group: GroupModel, ctx: ContextModel, i: int)
    requires
        0 <= i < group.source_rows.len(),
        report_for(group.source_rows[i], ctx) is Some,
    ensures
        group_plan(group, ctx).contains(
            feedback_row(group.source_rows[i], report_for(group.source_rows[i], ctx)->0, ctx),
        ),
{
    let m = group.source_rows[i];
    let want = feedback_row(m, report_for(m, ctx)->0, ctx);
    let a = feedback_rows(group.source_rows, ctx);
    let b = filtered_rows(active_rows(group.source_rows), ctx);
    let c = planned_rows(group, ctx);
    let all = group_plan(group, ctx);
    if skip_reason(m, ctx) is Some {
        lemma_feedback_rows_hold(group.source_rows, ctx, i);
        let k = choose|k: int| 0 <= k < a.len() && a[k] == want;
        assert(all[k] == want);
    } else {
        lemma_active_rows_hold(group.source_rows, i);
        let active = active_rows(group.source_rows);
        let j = choose|j: int| 0 <= j < active.len() && active[j] == m;
        lemma_filtered_rows_hold(active, ctx, j);
        let k = choose|k: int| 0 <= k < b.len() && b[k] == want;
        assert(all[a.len() + k] == want);
    }
}

/// Whether one of the groups has the row among its source rows.
pub open spec fn in_a_group(groups: Seq<GroupModel>, m: MatchedModel) -> bool {
    exists|g: int, i: int|
        0 <= g < groups.len() && 0 <= i < (#[trigger] groups[g]).source_rows.len()
            && #[trigger] groups[g].source_rows[i] == m
}

proof fn lemma_with_source_keeps(groups: Seq<GroupModel>, ms: MatchedModel, m: MatchedModel)
    requires
        in_a_group(groups, m) || m == ms,
    ensures
        in_a_group(with_source(groups, ms), m),
    decreases groups.len(),
{
    let out = with_source(groups, ms);
    if groups.len() == 0 {
        assert(out[0].source_rows[0] == ms);
    } else if groups[0].grouping_key == ms.grouping_key {
        let joined = groups[0].source_rows.push(ms);
        assert(out[0].source_rows == joined);
        if m == ms {
            assert(out[0].source_rows[joined.len() - 1] == m);
        }
        if in_a_group(groups, m) {
            let (g, i) = choose|g: int, i: int|
                0 <= g < groups.len() && 0 <= i < (#[trigger] groups[g]).source_rows.len()
                    && #[trigger] groups[g].source_rows[i] == m;
            if g == 0 {
                assert(out[0].source_rows[i] == m);
            } else {
                assert(out[g] == groups[g]);
                assert(out[g].source_rows[i] == m);
            }
        }
    } else if crate::text::lex_lt(ms.grouping_key, groups[0].grouping_key) {
        if m == ms {
            assert(out[0].source_rows[0] == m);
        }
        if in_a_group(groups, m) {
            let (g, i) = choose|g: int, i: int|
                0 <= g < groups.len() && 0 <= i < (#[trigger] groups[g]).source_rows.len()
                    && #[trigger] groups[g].source_rows[i] == m;
            assert(out[g + 1] == groups[g]);
            assert(out[g + 1].source_rows[i] == m);
        }
    } else {
        let rest = with_source(groups.drop_first(), ms);
        assert(out =~= seq![groups[0]] + rest);
        let mut in_first = false;
        if in_a_group(groups, m) {
            let (g, i) = choose|g: int, i: int|
                0 <= g < groups.len() && 0 <= i < (#[trigger] groups[g]).source_rows.len()
                    && #[trigger] groups[g].source_rows[i] == m;
            if g == 0 {
                in_first = true;
                assert(out[0].source_rows[i] == m);
            } else {
                assert(groups.drop_first()[g - 1] == groups[g]);
                assert(groups.drop_first()[g - 1].source_rows[i] == m);
                assert(in_a_group(groups.drop_first(), m));
            }
        }
        if !in_first {
            lemma_with_source_keeps(groups.drop_first(), ms, m);
            let (g, i) = choose|g: int, i: int|
                0 <= g < rest.len() && 0 <= i < (#[trigger] rest[g]).source_rows.len()
                    && #[trigger] rest[g].source_rows[i] == m;
            assert(out[g + 1] == rest[g]);
            assert(out[g + 1].source_rows[i] == m);
        }
    }
}

proof fn lemma_with_target_keeps(
    groups: Seq<GroupModel>,
    t: TargetRowModel,
    key: Seq<char>,
    orphans: bool,
    m: MatchedModel,
)
    requires
        in_a_group(groups, m),
    ensures
        in_a_group(with_target(groups, t, key, orphans), m),
    decreases groups.len(),
{
    let out = with_target(groups, t, key, orphans);
    let (g, i) = choose|g: int, i: int|
        0 <= g < groups.len() && 0 <= i < (#[trigger] groups[g]).source_rows.len()
            && #[trigger] groups[g].source_rows[i] == m;
    if groups[0].grouping_key == key {
        if g == 0 {
            assert(out[0].source_rows[i] == m);
        } else {
            assert(out[g] == groups[g]);
            assert(out[g].source_rows[i] == m);
        }
    } else if crate::text::lex_lt(key, groups[0].grouping_key) {
        if orphans {
            assert(out[g + 1] == groups[g]);
            assert(out[g + 1].source_rows[i] == m);
        }
    } else {
        let rest = with_target(groups.drop_first(), t, key, orphans);
        assert(out =~= seq![groups[0]] + rest);
        if g == 0 {
            assert(out[0].source_rows[i] == m);
        } else {
            assert(groups.drop_first()[g - 1] == groups[g]);
            assert(groups.drop_first()[g - 1].source_rows[i] == m);
            lemma_with_target_keeps(groups.drop_first(), t, key, orphans, m);
            let (g2, i2) = choose|g2: int, i2: int|
                0 <= g2 < rest.len() && 0 <= i2 < (#[trigger] rest[g2]).source_rows.len()
                    && #[trigger] rest[g2].source_rows[i2] == m;
            assert(out[g2 + 1] == rest[g2]);
            assert(out[g2 + 1].source_rows[i2] == m);
        }
    }
}

proof fn lemma_grouped_sources_hold(matched: Seq<MatchedModel>, i: int)
    requires
        0 <= i < matched.len(),
    ensures
        in_a_group(grouped_sources(matched), matched[i]),
    decreases matched.len(),
{
    if i == matched.len() - 1 {
        lemma_with_source_keeps(grouped_sources(matched.drop_last()), matched.last(), matched[i]);
    } else {
        lemma_grouped_sources_hold(matched.drop_last(), i);
        assert(matched.drop_last()[i] == matched[i]);
        lemma_with_source_keeps(grouped_sources(matched.drop_last()), matched.last(), matched[i]);
    }
}

proof fn lemma_with_targets_keep(
    groups: Seq<GroupModel>,
    targets: Seq<TargetRowModel>,
    ctx: ContextModel,
    m: MatchedModel,
)
    requires
        in_a_group(groups, m),
    ensures
        in_a_group(with_targets(groups, targets, ctx), m),
    decreases targets.len(),
{
    if targets.len() > 0 {
        lemma_with_targets_keep(groups, targets.drop_last(), ctx, m);
        lemma_with_target_keeps(
            with_targets(groups, targets.drop_last(), ctx),
            targets.last(),
            crate::segments::target_key(targets.last(), ctx),
            ctx.delete_mode.spec_deletes_entities(),
            m,
        );
    }
}

/// Every source row is among the source rows of one of the groups.
pub proof fn lemma_every_row_is_grouped(
    matched: Seq<MatchedModel>,
    targets: Seq<TargetRowModel>,
    ctx: ContextModel,
    i: int,
)
    requires
        0 <= i < matched.len(),
    ensures
        in_a_group(grouped(matched, targets, ctx), matched[i]),
{
    lemma_grouped_sources_hold(matched, i);
    lemma_with_targets_keep(grouped_sources(matched), targets, ctx, matched[i]);
}

proof fn lemma_groups_plan_holds(groups: Seq<GroupModel>, ctx: ContextModel, g: int, row: PlanRowModel)
    requires
        0 <= g < groups.len(),
        group_plan(groups[g], ctx).contains(row),
    ensures
        groups_plan(groups, ctx).contains(row),
    decreases groups.len(),
{
    let all = groups_plan(groups, ctx);
    let head = groups_plan(groups.drop_last(), ctx);
    let tail = group_plan(groups.last(), ctx);
    if g == groups.len() - 1 {
        let k = choose|k: int| 0 <= k < tail.len() && tail[k] == row;
        assert(all[head.len() + k] == row);
    } else {
        assert(groups.drop_last()[g] == groups[g]);
        lemma_groups_plan_holds(groups.drop_last(), ctx, g, row);
        let k = choose|k: int| 0 <= k < head.len() && head[k] == row;
        assert(all[k] == row);
    }
}

/// Sequencing a plan keeps each of its rows and changes its numbers only.
pub proof fn lemma_sequenced_keeps_rows(rows: Seq<PlanRowModel>, n: bool, row: PlanRowModel)
    requires
        rows.contains(row),
    ensures
        exists|k: int|
            0 <= k < sequenced(rows, n).len() && same_but_numbers(#[trigger] sequenced(rows, n)[k], row),
{
    let sorted = sort_by(rows, plan_order(n));
    lemma_sort_elements(rows, plan_order(n), row);
    let k = choose|k: int| 0 <= k < sorted.len() && sorted[k] == row;
    assert(sequenced(rows, n)[k] == numbered_row(sorted, k));
    assert(same_but_numbers(sequenced(rows, n)[k], row));
}

/// Every source row that is not planned is reported on: the plan holds its
/// row of feedback, which names it, says why it is left out, and is no
/// change of the table.
pub proof fn lemma_plan_reports(
    sources: Seq<SourceRowModel>,
    targets: Seq<TargetRowModel>,
    ctx: ContextModel,
    i: int,
)
    requires
        0 <= i < prepared(sources, targets, ctx).len(),
        report_for(prepared(sources, targets, ctx)[i], ctx) is Some,
    ensures
        exists|k: int|
            0 <= k < plan_of(sources, targets, ctx).len() && same_but_numbers(
                #[trigger] plan_of(sources, targets, ctx)[k],
                feedback_row(
                    prepared(sources, targets, ctx)[i],
                    report_for(prepared(sources, targets, ctx)[i], ctx)->0,
                    ctx,
                ),
            ),
{
    let matched = prepared(sources, targets, ctx);
    let m = matched[i];
    let groups = grouped(matched, targets, ctx);
    lemma_every_row_is_grouped(matched, targets, ctx, i);
    let (g, j) = choose|g: int, j: int|
        0 <= g < groups.len() && 0 <= j < (#[trigger] groups[g]).source_rows.len()
            && #[trigger] groups[g].source_rows[j] == m;
    lemma_group_reports(groups[g], ctx, j);
    let want = feedback_row(m, report_for(m, ctx)->0, ctx);
    lemma_groups_plan_holds(groups, ctx, g, want);
    let rows = groups_plan(groups, ctx);
    lemma_sequenced_keeps_rows(rows, ctx.numeric, want);
    let k = choose|k: int|
        0 <= k < sequenced(rows, ctx.numeric).len() && same_but_numbers(
            #[trigger] sequenced(rows, ctx.numeric)[k],
            want,
        );
    assert(plan_of(sources, targets, ctx) == sequenced(rows, ctx.numeric));
    assert(same_but_numbers(plan_of(sources, targets, ctx)[k], want));
}

} // verus!
