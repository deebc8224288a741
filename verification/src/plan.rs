use crate::canonical::{canonicalize_new_entity_nks, canonicalized};
use crate::classify::{classified, classify_operations, format_range, range_text};
use crate::coalesce::{coalesce_segments, coalesced};
use crate::correlate::{correlate_entities, correlated};
use crate::diff::{compute_diff, diff_rows, lemma_diff_rows_complete};
use crate::eclipse::{detect_eclipsed, with_eclipses};
use crate::resolve::{resolve_payloads, resolved_segments};
use crate::segments::{
    active_rows, active_sources, atomic_segments, build_atomic_segments, filter_by_mode,
    group_by_entity, grouped, kept_by_mode, mode_keeps, rows_kept,
};
use crate::sequence::{sequence_statements, sequenced};
use crate::types::{
    ContextModel, EarlyFeedback, EarlyFeedbackModel, EntityGroup, Feedback, FeedbackModel,
    GroupModel, MatchedModel, MatchedSourceRow, PlanAction, PlanRow, PlanRowModel, PlannerContext,
    SourceRow, SourceRowModel, TargetRow, TargetRowModel,
};
use crate::validate::{check_context, context_fault, ConfigError};
use crate::value::{fill_blank, fill_blank_into, fill_missing, fill_missing_into};
use crate::views::{lemma_deep_empty, lemma_deep_push, lemma_take_all, lemma_take_step};
use vstd::prelude::*;

verus! {

/// What a source row is told that the mode has no use for.
pub open spec fn filtered_text() -> Seq<char> {
    "Source row was correctly filtered by the mode's logic and did not result in a DML operation."@
}

/// What a source row is told that is eclipsed.
pub open spec fn eclipsed_text() -> Seq<char> {
    "Source row was eclipsed by source rows of the same batch with a higher row id."@
}

/// What a row of the plan tells about a source row that is not planned: the
/// error for an error, else the reason for which it is left out.
pub open spec fn feedback_of(fb: EarlyFeedbackModel) -> FeedbackModel {
    match fb.action {
        PlanAction::Error => FeedbackModel::Error(
            match fb.message {
                Some(m) => m,
                None => Seq::empty(),
            },
        ),
        PlanAction::SkipEclipsed => FeedbackModel::Info(eclipsed_text()),
        _ => FeedbackModel::Info(filtered_text()),
    }
}

/// Whether a row of feedback shows the interval of its source row: it does
/// not for an error nor for a row that the mode has no use for.
pub open spec fn shows_interval(action: PlanAction) -> bool {
    !(action is SkipNoTarget) && !(action is SkipFiltered) && !(action is Error)
}

/// The grouping key under which a row of feedback stands.
pub open spec fn feedback_key(m: MatchedModel, ctx: ContextModel) -> Seq<char> {
    if m.is_new_entity && m.source.lookup_keys.len() == 0 && ctx.all_lookup_cols.len() == 0 {
        "new_entity__"@ + m.source.causal_id
    } else {
        m.grouping_key
    }
}

/// The identity of a source row, with what correlation found where the row
/// itself has nothing.
pub open spec fn known_identity(m: MatchedModel) -> crate::value::FieldsModel {
    match m.discovered_identity {
        Some(d) => fill_blank(m.source.identity_keys, d),
        None => m.source.identity_keys,
    }
}

/// The row of the plan that reports on a source row without planning it.
pub open spec fn feedback_row(m: MatchedModel, fb: EarlyFeedbackModel, ctx: ContextModel) -> PlanRowModel {
    let shown = shows_interval(fb.action);
    PlanRowModel {
        plan_op_seq: 0,
        statement_seq: 0,
        row_ids: seq![m.source.row_id],
        operation: fb.action,
        update_effect: None,
        causal_id: Some(m.source.causal_id),
        is_new_entity: m.is_new_entity,
        entity_keys: Some(fill_missing(known_identity(m), m.source.lookup_keys)),
        identity_keys: Some(known_identity(m)),
        lookup_keys: Some(m.source.lookup_keys),
        s_t_relation: None,
        b_a_relation: None,
        old_valid_from: None,
        old_valid_until: None,
        new_valid_from: if shown {
            Some(m.source.valid_from)
        } else {
            None
        },
        new_valid_until: if shown {
            Some(m.source.valid_until)
        } else {
            None
        },
        old_valid_range: None,
        new_valid_range: if shown {
            Some(range_text(m.source.valid_from.text, m.source.valid_until.text))
        } else {
            None
        },
        data: None,
        feedback: Some(feedback_of(fb)),
        trace: None,
        grouping_key: feedback_key(m, ctx),
    }
}

/// Why a source row is not planned though correlation had nothing against
/// it, if it is not: it is eclipsed, or the mode has no use for it.
pub open spec fn skip_reason(m: MatchedModel, ctx: ContextModel) -> Option<EarlyFeedbackModel> {
    if m.early_feedback is Some {
        m.early_feedback
    } else if m.is_eclipsed {
        Some(EarlyFeedbackModel { action: PlanAction::SkipEclipsed, message: None })
    } else {
        None
    }
}

/// The rows of feedback for the source rows with early feedback and the
/// eclipsed ones, in the order of the rows.
pub open spec fn feedback_rows(rows: Seq<MatchedModel>, ctx: ContextModel) -> Seq<PlanRowModel>
    decreases rows.len(),
{
    if rows.len() == 0 {
        Seq::empty()
    } else {
        let rest = feedback_rows(rows.drop_last(), ctx);
        match skip_reason(rows.last(), ctx) {
            Some(fb) => rest.push(feedback_row(rows.last(), fb, ctx)),
            None => rest,
        }
    }
}

/// What an active row is told that the mode has no use for.
pub open spec fn filtered_feedback(m: MatchedModel) -> EarlyFeedbackModel {
    EarlyFeedbackModel {
        action: if m.is_new_entity {
            PlanAction::SkipNoTarget
        } else {
            PlanAction::SkipFiltered
        },
        message: None,
    }
}

/// The rows of feedback for the active rows that the mode has no use for.
pub open spec fn filtered_rows(active: Seq<MatchedModel>, ctx: ContextModel) -> Seq<PlanRowModel>
    decreases active.len(),
{
    if active.len() == 0 {
        Seq::empty()
    } else {
        let rest = filtered_rows(active.drop_last(), ctx);
        if kept_by_mode(active.last(), ctx.mode) {
            rest
        } else {
            rest.push(feedback_row(active.last(), filtered_feedback(active.last()), ctx))
        }
    }
}

/// The rows of the plan that the planned rows of a group and its target
/// rows give: the time of the group is cut into segments, the payload of
/// each is worked out, equal neighbours are joined, and what results is set
/// against the target.
pub open spec fn planned_rows(group: GroupModel, ctx: ContextModel) -> Seq<PlanRowModel> {
    let kept = rows_kept(active_rows(group.source_rows), ctx.mode);
    if kept.len() == 0 && group.target_rows.len() == 0 {
        Seq::empty()
    } else {
        classified(
            diff_rows(
                coalesced(
                    resolved_segments(atomic_segments(group, kept, ctx), kept, group.target_rows, ctx),
                ),
                group.target_rows,
            ),
            group,
            ctx,
        )
    }
}

/// The rows of the plan for one group: feedback first, then what is planned.
pub open spec fn group_plan(group: GroupModel, ctx: ContextModel) -> Seq<PlanRowModel> {
    feedback_rows(group.source_rows, ctx) + filtered_rows(active_rows(group.source_rows), ctx)
        + planned_rows(group, ctx)
}

/// The rows of the plan for the groups, in their order.
pub open spec fn groups_plan(groups: Seq<GroupModel>, ctx: ContextModel) -> Seq<PlanRowModel>
    decreases groups.len(),
{
    if groups.len() == 0 {
        Seq::empty()
    } else {
        groups_plan(groups.drop_last(), ctx) + group_plan(groups.last(), ctx)
    }
}

/// The source rows as they stand when planning starts: correlated, the
/// fragments of new entities under one key, the eclipsed ones marked.
pub open spec fn prepared(
    sources: Seq<SourceRowModel>,
    targets: Seq<TargetRowModel>,
    ctx: ContextModel,
) -> Seq<MatchedModel> {
    with_eclipses(canonicalized(correlated(sources, targets, ctx), ctx), ctx)
}

/// The merge plan for a batch of source rows against the target rows.
pub open spec fn plan_of(
    sources: Seq<SourceRowModel>,
    targets: Seq<TargetRowModel>,
    ctx: ContextModel,
) -> Seq<PlanRowModel> {
    sequenced(
        groups_plan(grouped(prepared(sources, targets, ctx), targets, ctx), ctx),
        ctx.numeric,
    )
}

fn feedback_for(fb: &EarlyFeedback) -> (r: Feedback)
    ensures
        r.deep_view() == feedback_of(fb.deep_view()),
{
    match fb.action {
        PlanAction::Error => Feedback::Error(
            match &fb.message {
                Some(m) => m.clone(),
                None => String::new(),
            },
        ),
        PlanAction::SkipEclipsed => Feedback::Info(
            String::from_str(
                "Source row was eclipsed by source rows of the same batch with a higher row id.",
            ),
        ),
        _ => Feedback::Info(
            String::from_str(
                "Source row was correctly filtered by the mode's logic and did not result in a DML operation.",
            ),
        ),
    }
}

/// The row of the plan that reports on a source row without planning it.
pub fn make_feedback_plan_row(sr: &MatchedSourceRow, fb: &EarlyFeedback, ctx: &PlannerContext) -> (row: PlanRow)
    ensures
        row.deep_view() == feedback_row(sr.deep_view(), fb.deep_view(), ctx.deep_view()),
{
    let shown = !matches!(
        fb.action,
        PlanAction::SkipNoTarget | PlanAction::SkipFiltered | PlanAction::Error
    );
    let grouping_key = if sr.is_new_entity && sr.source.lookup_keys.is_empty()
        && ctx.all_lookup_cols.len() == 0 {
        let mut key = String::from_str("new_entity__");
        key.append(sr.source.causal_id.as_str());
        key
    } else {
        sr.grouping_key.clone()
    };
    let mut identity = sr.source.identity_keys.clone();
    match &sr.discovered_identity {
        Some(d) => {
            fill_blank_into(&mut identity, d);
        },
        None => {},
    }
    let mut entity = identity.clone();
    fill_missing_into(&mut entity, &sr.source.lookup_keys);
    let mut row_ids: Vec<i64> = Vec::new();
    row_ids.push(sr.source.row_id);
    assert(row_ids@ =~= seq![sr.source.row_id]);
    PlanRow {
        plan_op_seq: 0,
        statement_seq: 0,
        row_ids,
        operation: fb.action,
        update_effect: None,
        causal_id: Some(sr.source.causal_id.clone()),
        is_new_entity: sr.is_new_entity,
        entity_keys: Some(entity),
        identity_keys: Some(identity),
        lookup_keys: Some(sr.source.lookup_keys.clone()),
        s_t_relation: None,
        b_a_relation: None,
        old_valid_from: None,
        old_valid_until: None,
        new_valid_from: if shown {
            Some(sr.source.valid_from.clone())
        } else {
            None
        },
        new_valid_until: if shown {
            Some(sr.source.valid_until.clone())
        } else {
            None
        },
        old_valid_range: None,
        new_valid_range: if shown {
            Some(format_range(sr.source.valid_from.text.as_str(), sr.source.valid_until.text.as_str()))
        } else {
            None
        },
        data: None,
        feedback: Some(feedback_for(fb)),
        trace: None,
        grouping_key,
    }
}

/// Appends `more` to `rows`.
fn append_rows(rows: &mut Vec<PlanRow>, more: Vec<PlanRow>)
    ensures
        final(rows).deep_view() == old(rows).deep_view() + more.deep_view(),
{
    let ghost start = rows.deep_view();
    let ghost mm = more.deep_view();
    assert(rows.deep_view() =~= start + mm.take(0));
    for r in it: more.into_iter()
        invariant
            it.seq().len() == mm.len(),
            forall|j: int| 0 <= j < mm.len() ==> (#[trigger] it.seq()[j]).deep_view() == mm[j],
            rows.deep_view() == start + mm.take(it.index() as int),
    {
        let ghost before_vec = *rows;
        rows.push(r);
        proof {
            lemma_deep_push(before_vec, *rows, r);
            assert(rows.deep_view() =~= start + mm.take(it.index() + 1));
        }
    }
    proof {
        lemma_take_all(mm);
    }
}

/// The rows of the plan for one group.
pub fn plan_group(group: &EntityGroup, ctx: &PlannerContext) -> (rows: Vec<PlanRow>)
    ensures
        rows.deep_view() == group_plan(group.deep_view(), ctx.deep_view()),
{
    let ghost gm = group.deep_view();
    let ghost cm = ctx.deep_view();
    let ghost srcs = gm.source_rows;
    let mut rows: Vec<PlanRow> = Vec::new();
    let mut i: usize = 0;
    proof {
        lemma_deep_empty(rows);
    }
    while i < group.source_rows.len()
        invariant
            i <= group.source_rows.len(),
            srcs == group.source_rows.deep_view(),
            cm == ctx.deep_view(),
            rows.deep_view() == feedback_rows(srcs.take(i as int), cm),
        decreases group.source_rows.len() - i,
    {
        proof {
            lemma_take_step(srcs, i as int);
            assert(srcs[i as int] == group.source_rows@[i as int].deep_view());
        }
        let sr = &group.source_rows[i];
        let ghost before_vec = rows;
        match &sr.early_feedback {
            Some(fb) => {
                let row = make_feedback_plan_row(sr, fb, ctx);
                rows.push(row);
                proof {
                    lemma_deep_push(before_vec, rows, row);
                }
            },
            None => {
                if sr.is_eclipsed {
                    let fb = EarlyFeedback { action: PlanAction::SkipEclipsed, message: None };
                    let row = make_feedback_plan_row(sr, &fb, ctx);
                    rows.push(row);
                    proof {
                        lemma_deep_push(before_vec, rows, row);
                    }
                }
            },
        }
        i += 1;
    }
    proof {
        lemma_take_all(srcs);
    }
    let ghost head = rows.deep_view();
    let active = active_sources(group);
    let ghost am = active.deep_view();
    let mut j: usize = 0;
    assert(rows.deep_view() =~= head + filtered_rows(am.take(0), cm));
    while j < active.len()
        invariant
            j <= active.len(),
            am == active.deep_view(),
            cm == ctx.deep_view(),
            rows.deep_view() == head + filtered_rows(am.take(j as int), cm),
        decreases active.len() - j,
    {
        proof {
            lemma_take_step(am, j as int);
            assert(am[j as int] == active@[j as int].deep_view());
        }
        if !mode_keeps(&active[j], ctx.mode) {
            let fb = EarlyFeedback {
                action: if active[j].is_new_entity {
                    PlanAction::SkipNoTarget
                } else {
                    PlanAction::SkipFiltered
                },
                message: None,
            };
            let ghost before_vec = rows;
            let row = make_feedback_plan_row(&active[j], &fb, ctx);
            rows.push(row);
            proof {
                lemma_deep_push(before_vec, rows, row);
                assert(rows.deep_view() =~= head + filtered_rows(am.take(j + 1), cm));
            }
        }
        j += 1;
    }
    proof {
        lemma_take_all(am);
    }
    let kept = filter_by_mode(&active, ctx);
    if kept.len() == 0 && group.target_rows.len() == 0 {
        proof {
            assert(rows.deep_view() =~= group_plan(gm, cm));
        }
        return rows;
    }
    let segments = build_atomic_segments(group, &kept, ctx);
    let resolved = resolve_payloads(segments, &kept, &group.target_rows, ctx);
    let joined = coalesce_segments(resolved, ctx);
    let ghost jm = joined.deep_view();
    let diffs = compute_diff(joined, &group.target_rows, ctx);
    proof {
        lemma_diff_rows_complete(jm, gm.target_rows);
    }
    let planned = classify_operations(diffs, group, ctx);
    append_rows(&mut rows, planned);
    rows
}

/// Plans the merge of a batch of source rows into the target: the rows of
/// the plan in the order in which they are to be executed.
pub fn sweep_line_plan(source_rows: Vec<SourceRow>, target_rows: Vec<TargetRow>, ctx: &PlannerContext) -> (plan: Vec<PlanRow>)
    ensures
        plan.deep_view() == plan_of(source_rows.deep_view(), target_rows.deep_view(), ctx.deep_view()),
{
    let ghost cm = ctx.deep_view();
    let matched = correlate_entities(&source_rows, &target_rows, ctx);
    let matched = canonicalize_new_entity_nks(matched, ctx);
    let matched = detect_eclipsed(matched, ctx);
    let groups = group_by_entity(matched, &target_rows, ctx);
    let ghost gm = groups.deep_view();
    let mut plan: Vec<PlanRow> = Vec::new();
    let mut g: usize = 0;
    proof {
        lemma_deep_empty(plan);
    }
    while g < groups.len()
        invariant
            g <= groups.len(),
            gm == groups.deep_view(),
            cm == ctx.deep_view(),
            plan.deep_view() == groups_plan(gm.take(g as int), cm),
        decreases groups.len() - g,
    {
        proof {
            lemma_take_step(gm, g as int);
            assert(gm[g as int] == groups@[g as int].deep_view());
        }
        let rows = plan_group(&groups[g], ctx);
        append_rows(&mut plan, rows);
        g += 1;
    }
    proof {
        lemma_take_all(gm);
    }
    sequence_statements(&mut plan, ctx);
    plan
}

/// Plans the merge of a batch, unless the context cannot be planned with:
/// a context without identity columns and lookup keys is turned down, and
/// one whose era is of a subtype that is neither discrete nor numeric.
pub fn plan_merge(source_rows: Vec<SourceRow>, target_rows: Vec<TargetRow>, ctx: &PlannerContext) -> (r: Result<
    Vec<PlanRow>,
    ConfigError,
>)
    ensures
        match r {
            Ok(plan) => context_fault(ctx.strategy, ctx.era.range_subtype_category) is None
                && plan.deep_view() == plan_of(
                source_rows.deep_view(),
                target_rows.deep_view(),
                ctx.deep_view(),
            ),
            Err(e) => Some(e.deep_view()) == context_fault(
                ctx.strategy,
                ctx.era.range_subtype_category,
            ),
        },
{
    match check_context(ctx) {
        Ok(_) => Ok(sweep_line_plan(source_rows, target_rows, ctx)),
        Err(e) => Err(e),
    }
}

} // verus!
