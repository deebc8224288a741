use crate::hashing::{content_hash, content_hash_of};
use crate::interval::{allen, before, precedes, AllenRelation, Bound, BoundModel};
use crate::sorting::{sort_by, sort_vec};
use crate::text::same_text;
use crate::types::{
    clone_text, AtomicSegment, AtomicSegmentModel, ContextModel, MatchedModel, MatchedSourceRow,
    MergeMode, PlannerContext, ResolvedSegment, ResolvedSegmentModel, TargetRow, TargetRowModel,
};
use crate::value::{overlay, overlay_onto, Fields, FieldsModel};
use crate::views::{lemma_deep_empty, lemma_deep_push, lemma_take_all, lemma_take_step};
use vstd::prelude::*;

verus! {

/// Whether `[from, until)` holds all of the segment.
pub open spec fn holds_segment(
    from: BoundModel,
    until: BoundModel,
    seg: AtomicSegmentModel,
    n: bool,
) -> bool {
    !before(seg.valid_from, from, n) && !before(until, seg.valid_until, n)
}

/// The source rows whose interval holds all of the segment.
pub open spec fn covering_rows(active: Seq<MatchedModel>, seg: AtomicSegmentModel, n: bool) -> Seq<
    MatchedModel,
>
    decreases active.len(),
{
    if active.len() == 0 {
        active
    } else {
        let rest = covering_rows(active.drop_last(), seg, n);
        let r = active.last();
        if holds_segment(r.source.valid_from, r.source.valid_until, seg, n) {
            rest.push(r)
        } else {
            rest
        }
    }
}

/// Source rows by their row id, the lowest first.
pub open spec fn by_row_id() -> spec_fn(MatchedModel, MatchedModel) -> bool {
    |a: MatchedModel, b: MatchedModel| a.source.row_id < b.source.row_id
}

/// The source rows that cover the segment, in the order of their row ids.
pub open spec fn covering_sources(active: Seq<MatchedModel>, seg: AtomicSegmentModel, n: bool) -> Seq<
    MatchedModel,
> {
    sort_by(covering_rows(active, seg, n), by_row_id())
}

/// The first target row whose interval holds all of the segment.
pub open spec fn covering_target(targets: Seq<TargetRowModel>, seg: AtomicSegmentModel, n: bool) -> Option<
    TargetRowModel,
>
    decreases targets.len(),
{
    if targets.len() == 0 {
        None
    } else if holds_segment(targets[0].valid_from, targets[0].valid_until, seg, n) {
        Some(targets[0])
    } else {
        covering_target(targets.drop_first(), seg, n)
    }
}

/// `base` with the data of the rows laid over it in order. A PATCH leaves
/// out every NULL, the other modes the NULLs of the columns that keep
/// their value.
pub open spec fn merged_data(base: FieldsModel, rows: Seq<MatchedModel>, ctx: ContextModel) -> FieldsModel
    decreases rows.len(),
{
    if rows.len() == 0 {
        base
    } else {
        overlay(
            merged_data(base, rows.drop_last(), ctx),
            rows.last().source.data_payload,
            ctx.mode.spec_is_patch(),
            ctx.exclude_if_null,
        )
    }
}

/// The row ids of the rows, each once, in the order in which they are met.
pub open spec fn distinct_ids(rows: Seq<MatchedModel>) -> Seq<i64>
    decreases rows.len(),
{
    if rows.len() == 0 {
        Seq::empty()
    } else {
        let rest = distinct_ids(rows.drop_last());
        if rest.contains(rows.last().source.row_id) {
            rest
        } else {
            rest.push(rows.last().source.row_id)
        }
    }
}

/// The row ids of the rows.
pub open spec fn all_ids(rows: Seq<MatchedModel>) -> Seq<i64> {
    rows.map_values(|m: MatchedModel| m.source.row_id)
}

/// The data of the target row, if there is one.
pub open spec fn target_data(target: Option<TargetRowModel>) -> Option<FieldsModel> {
    match target {
        Some(t) => Some(t.data_payload),
        None => None,
    }
}

/// The data that holds in a segment, and the rows that it is owed to: the
/// target's data with that of the covering sources laid over it. Where the
/// last writer wins only the last source is named, else all of them.
pub open spec fn source_payload(
    covering: Seq<MatchedModel>,
    target: Option<TargetRowModel>,
    ctx: ContextModel,
) -> (Option<FieldsModel>, Seq<i64>) {
    if covering.len() == 0 {
        (target_data(target), Seq::empty())
    } else {
        let base = match target {
            Some(t) => t.data_payload,
            None => Seq::empty(),
        };
        (
            Some(merged_data(base, covering, ctx)),
            if ctx.mode.spec_is_last_writer_wins() {
                seq![covering.last().source.row_id]
            } else {
                distinct_ids(covering)
            },
        )
    }
}

/// Whether a source row starts where the segment ends or ends where it starts.
pub open spec fn touches(r: MatchedModel, seg: AtomicSegmentModel) -> bool {
    r.source.valid_from.text == seg.valid_until.text || r.source.valid_until.text
        == seg.valid_from.text
}

/// The source row that a segment without source is put down to: the first
/// that touches it, else the first of all.
pub open spec fn causal_row(active: Seq<MatchedModel>, seg: AtomicSegmentModel) -> MatchedModel
    recommends
        active.len() > 0,
{
    match first_touching(active, seg) {
        Some(i) => active[i],
        None => active[0],
    }
}

/// The place of the first source row that touches the segment.
pub open spec fn first_touching(active: Seq<MatchedModel>, seg: AtomicSegmentModel) -> Option<int>
    decreases active.len(),
{
    if active.len() == 0 {
        None
    } else {
        match first_touching(active.drop_last(), seg) {
            Some(i) => Some(i),
            None => if touches(active.last(), seg) {
                Some(active.len() - 1)
            } else {
                None
            },
        }
    }
}

/// What holds in one atomic segment, or nothing where the segment is left
/// out of the plan.
///
/// The payload is the target's with the covering sources laid over it; in
/// a deletion for a portion the covered segment has none. A segment that
/// neither source nor target covers is left out, as is one that only
/// sources cover where a portion of the target is changed, and one that a
/// deletion covers. A segment of the target alone is put down to the source
/// row that touches it.
pub open spec fn resolve_one(
    seg: AtomicSegmentModel,
    active: Seq<MatchedModel>,
    targets: Seq<TargetRowModel>,
    ctx: ContextModel,
) -> Option<ResolvedSegmentModel> {
    let n = ctx.numeric;
    let cov = covering_sources(active, seg, n);
    let tgt = covering_target(targets, seg, n);
    let covered = cov.len() > 0;
    let deleting = ctx.mode is DeleteForPortionOf && covered;
    let payload = if deleting {
        (None, all_ids(cov))
    } else {
        source_payload(cov, tgt, ctx)
    };
    let data = payload.0;
    let target_from = match tgt {
        Some(t) => Some(t.valid_from),
        None => None,
    };
    let target_until = match tgt {
        Some(t) => Some(t.valid_until),
        None => None,
    };
    let ephemeral = if covered {
        Some(
            overlay(
                match tgt {
                    Some(t) => t.ephemeral_payload,
                    None => Seq::empty(),
                },
                cov.last().source.ephemeral_payload,
                ctx.mode.spec_is_patch(),
                ctx.exclude_if_null,
            ),
        )
    } else {
        match tgt {
            Some(t) => Some(t.ephemeral_payload),
            None => None,
        }
    };
    let dropped = (data is None && tgt is None) || (ctx.mode.spec_is_for_portion_of() && tgt is None
        && covered) || (data is None && deleting);
    let inherits = !covered && active.len() > 0;
    let cause = causal_row(active, seg);
    let source_from = if covered {
        Some(cov[0].source.valid_from)
    } else if inherits {
        Some(cause.source.valid_from)
    } else {
        None
    };
    let source_until = if covered {
        Some(cov.last().source.valid_until)
    } else if inherits {
        Some(cause.source.valid_until)
    } else {
        None
    };
    let relation = if tgt is None {
        None
    } else if covered {
        allen(source_from->0, source_until->0, target_from->0, target_until->0, n)
    } else if inherits && before(source_from->0, target_until->0, n) && before(
        target_from->0,
        source_until->0,
        n,
    ) {
        allen(source_from->0, source_until->0, target_from->0, target_until->0, n)
    } else {
        None
    };
    if dropped {
        None
    } else {
        Some(
            ResolvedSegmentModel {
                grouping_key: seg.grouping_key,
                valid_from: seg.valid_from,
                valid_until: seg.valid_until,
                is_new_entity: seg.is_new_entity,
                identity_keys: seg.identity_keys,
                causal_id: if seg.is_new_entity && covered {
                    Some(cov.last().source.causal_id)
                } else {
                    seg.causal_id
                },
                row_ids: if inherits {
                    seq![cause.source.row_id]
                } else {
                    payload.1
                },
                source_valid_from: source_from,
                source_valid_until: source_until,
                target_valid_from: target_from,
                target_valid_until: target_until,
                data_payload: data,
                ephemeral_payload: ephemeral,
                target_data_payload: target_data(tgt),
                data_hash: match data {
                    Some(d) => Some(content_hash_of(d)),
                    None => None,
                },
                has_source_coverage: covered,
                has_target_coverage: tgt is Some,
                s_t_relation: relation,
            },
        )
    }
}

/// What holds in each of the segments that are not left out.
pub open spec fn resolved_segments(
    segs: Seq<AtomicSegmentModel>,
    active: Seq<MatchedModel>,
    targets: Seq<TargetRowModel>,
    ctx: ContextModel,
) -> Seq<ResolvedSegmentModel>
    decreases segs.len(),
{
    if segs.len() == 0 {
        Seq::empty()
    } else {
        let rest = resolved_segments(segs.drop_last(), active, targets, ctx);
        match resolve_one(segs.last(), active, targets, ctx) {
            Some(r) => rest.push(r),
            None => rest,
        }
    }
}

/// The data that holds in a segment, and the rows that it is owed to.
pub fn resolve_source_payload(
    covering_sources: &Vec<MatchedSourceRow>,
    covering_target: Option<&TargetRow>,
    ctx: &PlannerContext,
) -> (r: (Option<Fields>, Vec<i64>))
    ensures
        (r.0.deep_view(), r.1@) == source_payload(
            covering_sources.deep_view(),
            covering_target.deep_view(),
            ctx.deep_view(),
        ),
{
    let ghost cov = covering_sources.deep_view();
    let ghost cm = ctx.deep_view();
    let mut row_ids: Vec<i64> = Vec::new();
    if covering_sources.len() == 0 {
        let data = match covering_target {
            Some(t) => Some(t.data_payload.clone()),
            None => None,
        };
        return (data, row_ids);
    }
    let mut merged = match covering_target {
        Some(t) => t.data_payload.clone(),
        None => Fields::new(),
    };
    let ghost base = merged.deep_view();
    let strip_all = ctx.mode.is_patch();
    let mut i: usize = 0;
    while i < covering_sources.len()
        invariant
            i <= covering_sources.len(),
            cov == covering_sources.deep_view(),
            cm == ctx.deep_view(),
            strip_all == cm.mode.spec_is_patch(),
            merged.deep_view() == merged_data(base, cov.take(i as int), cm),
        decreases covering_sources.len() - i,
    {
        proof {
            lemma_take_step(cov, i as int);
            assert(cov[i as int] == covering_sources@[i as int].deep_view());
        }
        overlay_onto(
            &mut merged,
            &covering_sources[i].source.data_payload,
            strip_all,
            &ctx.exclude_if_null_columns,
        );
        i += 1;
    }
    proof {
        lemma_take_all(cov);
    }
    if ctx.mode.is_last_writer_wins() {
        let last = covering_sources.len() - 1;
        assert(cov[last as int] == covering_sources@[last as int].deep_view());
        row_ids.push(covering_sources[last].source.row_id);
        assert(row_ids@ =~= seq![cov.last().source.row_id]);
    } else {
        let mut j: usize = 0;
        assert(row_ids@ =~= distinct_ids(cov.take(0)));
        while j < covering_sources.len()
            invariant
                j <= covering_sources.len(),
                cov == covering_sources.deep_view(),
                row_ids@ == distinct_ids(cov.take(j as int)),
            decreases covering_sources.len() - j,
        {
            proof {
                lemma_take_step(cov, j as int);
                assert(cov[j as int] == covering_sources@[j as int].deep_view());
            }
            let id = covering_sources[j].source.row_id;
            if !has_id(&row_ids, id) {
                row_ids.push(id);
            }
            j += 1;
        }
        proof {
            lemma_take_all(cov);
        }
    }
    (Some(merged), row_ids)
}

/// Whether `id` is one of `ids`.
pub fn has_id(ids: &Vec<i64>, id: i64) -> (r: bool)
    ensures
        r == ids@.contains(id),
{
    let mut i: usize = 0;
    while i < ids.len()
        invariant
            i <= ids.len(),
            forall|j: int| 0 <= j < i ==> ids@[j] != id,
        decreases ids.len() - i,
    {
        if ids[i] == id {
            return true;
        }
        i += 1;
    }
    false
}

fn find_covering_sources(
    active_sources: &Vec<MatchedSourceRow>,
    seg: &AtomicSegment,
    is_numeric: bool,
) -> (out: Vec<MatchedSourceRow>)
    ensures
        out.deep_view() == covering_sources(active_sources.deep_view(), seg.deep_view(), is_numeric),
{
    let ghost am = active_sources.deep_view();
    let ghost sg = seg.deep_view();
    let mut rows: Vec<MatchedSourceRow> = Vec::new();
    let mut i: usize = 0;
    proof {
        lemma_deep_empty(rows);
    }
    while i < active_sources.len()
        invariant
            i <= active_sources.len(),
            am == active_sources.deep_view(),
            sg == seg.deep_view(),
            rows.deep_view() == covering_rows(am.take(i as int), sg, is_numeric),
        decreases active_sources.len() - i,
    {
        proof {
            lemma_take_step(am, i as int);
            assert(am[i as int] == active_sources@[i as int].deep_view());
        }
        let s = &active_sources[i];
        if !precedes(&seg.valid_from, &s.source.valid_from, is_numeric) && !precedes(
            &s.source.valid_until,
            &seg.valid_until,
            is_numeric,
        ) {
            let ghost before_vec = rows;
            let copy = s.clone();
            rows.push(copy);
            proof {
                lemma_deep_push(before_vec, rows, copy);
            }
        }
        i += 1;
    }
    proof {
        lemma_take_all(am);
    }
    let less = |a: &MatchedSourceRow, b: &MatchedSourceRow| -> (r: bool)
        ensures
            r == (a.deep_view().source.row_id < b.deep_view().source.row_id),
        { a.source.row_id < b.source.row_id };
    sort_vec(rows, less, Ghost(by_row_id()))
}

fn find_covering_target<'a>(
    target_rows: &'a Vec<TargetRow>,
    seg: &AtomicSegment,
    is_numeric: bool,
) -> (r: Option<&'a TargetRow>)
    ensures
        r.deep_view() == covering_target(target_rows.deep_view(), seg.deep_view(), is_numeric),
{
    let ghost tm = target_rows.deep_view();
    let ghost sg = seg.deep_view();
    let mut i: usize = 0;
    proof {
        lemma_take_all(tm);
    }
    while i < target_rows.len()
        invariant
            i <= target_rows.len(),
            tm == target_rows.deep_view(),
            sg == seg.deep_view(),
            covering_target(tm, sg, is_numeric) == covering_target(tm.skip(i as int), sg, is_numeric),
        decreases target_rows.len() - i,
    {
        proof {
            lemma_take_step(tm, i as int);
            assert(tm[i as int] == target_rows@[i as int].deep_view());
        }
        let t = &target_rows[i];
        if !precedes(&seg.valid_from, &t.valid_from, is_numeric) && !precedes(
            &t.valid_until,
            &seg.valid_until,
            is_numeric,
        ) {
            return Some(t);
        }
        i += 1;
    }
    None
}

fn find_causal_row<'a>(active_sources: &'a Vec<MatchedSourceRow>, seg: &AtomicSegment) -> (r: &'a MatchedSourceRow)
    requires
        active_sources.len() > 0,
    ensures
        r.deep_view() == causal_row(active_sources.deep_view(), seg.deep_view()),
{
    let ghost am = active_sources.deep_view();
    let ghost sg = seg.deep_view();
    let mut i: usize = 0;
    while i < active_sources.len()
        invariant
            i <= active_sources.len(),
            am == active_sources.deep_view(),
            sg == seg.deep_view(),
            first_touching(am.take(i as int), sg) is None,
        decreases active_sources.len() - i,
    {
        proof {
            lemma_take_step(am, i as int);
            assert(am[i as int] == active_sources@[i as int].deep_view());
        }
        let s = &active_sources[i];
        if same_text(s.source.valid_from.text.as_str(), seg.valid_until.text.as_str()) || same_text(
            s.source.valid_until.text.as_str(),
            seg.valid_from.text.as_str(),
        ) {
            proof {
                lemma_first_touching_prefix(am, sg, i as int + 1);
            }
            return s;
        }
        i += 1;
    }
    proof {
        lemma_take_all(am);
    }
    assert(am[0] == active_sources@[0].deep_view());
    &active_sources[0]
}

/// The first touching row of a prefix is the first touching row of the whole.
proof fn lemma_first_touching_prefix(active: Seq<MatchedModel>, seg: AtomicSegmentModel, k: int)
    requires
        0 <= k <= active.len(),
        first_touching(active.take(k), seg) is Some,
    ensures
        first_touching(active, seg) == first_touching(active.take(k), seg),
    decreases active.len() - k,
{
    if k < active.len() {
        lemma_take_step(active, k);
        assert(first_touching(active.take(k + 1), seg) == first_touching(active.take(k), seg));
        lemma_first_touching_prefix(active, seg, k + 1);
    } else {
        lemma_take_all(active);
    }
}

fn resolve_segment(
    seg: AtomicSegment,
    active_sources: &Vec<MatchedSourceRow>,
    target_rows: &Vec<TargetRow>,
    ctx: &PlannerContext,
) -> (r: Option<ResolvedSegment>)
    ensures
        r.deep_view() == resolve_one(
            seg.deep_view(),
            active_sources.deep_view(),
            target_rows.deep_view(),
            ctx.deep_view(),
        ),
{
    let ghost sg = seg.deep_view();
    let ghost am = active_sources.deep_view();
    let ghost cm = ctx.deep_view();
    let n = ctx.is_numeric();
    let cov = find_covering_sources(active_sources, &seg, n);
    let ghost cv = cov.deep_view();
    let tgt = find_covering_target(target_rows, &seg, n);
    let covered = cov.len() > 0;
    let deleting = matches!(ctx.mode, MergeMode::DeleteForPortionOf) && covered;
    let (data, ids): (Option<Fields>, Vec<i64>) = if deleting {
        let mut ids: Vec<i64> = Vec::new();
        let mut i: usize = 0;
        while i < cov.len()
            invariant
                i <= cov.len(),
                cv == cov.deep_view(),
                ids.len() == i,
                forall|j: int| 0 <= j < i ==> ids@[j] == cv[j].source.row_id,
            decreases cov.len() - i,
        {
            assert(cv[i as int] == cov@[i as int].deep_view());
            ids.push(cov[i].source.row_id);
            i += 1;
        }
        assert(ids@ =~= all_ids(cv));
        (None, ids)
    } else {
        resolve_source_payload(&cov, tgt, ctx)
    };
    let target_from: Option<Bound> = match tgt {
        Some(t) => Some(t.valid_from.clone()),
        None => None,
    };
    let target_until: Option<Bound> = match tgt {
        Some(t) => Some(t.valid_until.clone()),
        None => None,
    };
    let ephemeral: Option<Fields> = if covered {
        let mut merged = match tgt {
            Some(t) => t.ephemeral_payload.clone(),
            None => Fields::new(),
        };
        let last = cov.len() - 1;
        assert(cv[last as int] == cov@[last as int].deep_view());
        overlay_onto(
            &mut merged,
            &cov[last].source.ephemeral_payload,
            ctx.mode.is_patch(),
            &ctx.exclude_if_null_columns,
        );
        Some(merged)
    } else {
        match tgt {
            Some(t) => Some(t.ephemeral_payload.clone()),
            None => None,
        }
    };
    let dropped = (data.is_none() && tgt.is_none()) || (ctx.mode.is_for_portion_of() && tgt.is_none()
        && covered) || (data.is_none() && deleting);
    if dropped {
        return None;
    }
    let inherits = !covered && active_sources.len() > 0;
    let source_from: Option<Bound>;
    let source_until: Option<Bound>;
    let row_ids: Vec<i64>;
    let relation: Option<AllenRelation>;
    if covered {
        let last = cov.len() - 1;
        assert(cv[last as int] == cov@[last as int].deep_view());
        assert(cv[0] == cov@[0].deep_view());
        let sf = cov[0].source.valid_from.clone();
        let su = cov[last].source.valid_until.clone();
        relation = match (&target_from, &target_until) {
            (Some(tf), Some(tu)) => AllenRelation::compute(&sf, &su, tf, tu, n),
            _ => None,
        };
        source_from = Some(sf);
        source_until = Some(su);
        row_ids = ids;
    } else if inherits {
        let cause = find_causal_row(active_sources, &seg);
        let sf = cause.source.valid_from.clone();
        let su = cause.source.valid_until.clone();
        relation = match (&target_from, &target_until) {
            (Some(tf), Some(tu)) => {
                if precedes(&sf, tu, n) && precedes(tf, &su, n) {
                    AllenRelation::compute(&sf, &su, tf, tu, n)
                } else {
                    None
                }
            },
            _ => None,
        };
        let mut one: Vec<i64> = Vec::new();
        one.push(cause.source.row_id);
        assert(one@ =~= seq![cause.deep_view().source.row_id]);
        source_from = Some(sf);
        source_until = Some(su);
        row_ids = one;
    } else {
        source_from = None;
        source_until = None;
        relation = None;
        row_ids = ids;
    }
    let causal_id: Option<String> = if seg.is_new_entity && covered {
        let last = cov.len() - 1;
        assert(cv[last as int] == cov@[last as int].deep_view());
        Some(cov[last].source.causal_id.clone())
    } else {
        clone_text(&seg.causal_id)
    };
    let data_hash: Option<String> = match &data {
        Some(d) => Some(content_hash(d)),
        None => None,
    };
    let target_data_payload: Option<Fields> = match tgt {
        Some(t) => Some(t.data_payload.clone()),
        None => None,
    };
    Some(
        ResolvedSegment {
            grouping_key: seg.grouping_key,
            valid_from: seg.valid_from,
            valid_until: seg.valid_until,
            is_new_entity: seg.is_new_entity,
            identity_keys: seg.identity_keys,
            causal_id,
            row_ids,
            source_valid_from: source_from,
            source_valid_until: source_until,
            target_valid_from: target_from,
            target_valid_until: target_until,
            data_payload: data,
            ephemeral_payload: ephemeral,
            target_data_payload,
            data_hash,
            has_source_coverage: covered,
            has_target_coverage: tgt.is_some(),
            s_t_relation: relation,
        },
    )
}

/// Works out what holds in each atomic segment of a group.
pub fn resolve_payloads(
    segments: Vec<AtomicSegment>,
    active_sources: &Vec<MatchedSourceRow>,
    target_rows: &Vec<TargetRow>,
    ctx: &PlannerContext,
) -> (resolved: Vec<ResolvedSegment>)
    ensures
        resolved.deep_view() == resolved_segments(
            segments.deep_view(),
            active_sources.deep_view(),
            target_rows.deep_view(),
            ctx.deep_view(),
        ),
{
    let ghost sm = segments.deep_view();
    let ghost am = active_sources.deep_view();
    let ghost tm = target_rows.deep_view();
    let ghost cm = ctx.deep_view();
    let mut resolved: Vec<ResolvedSegment> = Vec::new();
    proof {
        lemma_deep_empty(resolved);
    }
    for seg in it: segments.into_iter()
        invariant
            it.seq().len() == sm.len(),
            forall|j: int| 0 <= j < sm.len() ==> (#[trigger] it.seq()[j]).deep_view() == sm[j],
            am == active_sources.deep_view(),
            tm == target_rows.deep_view(),
            cm == ctx.deep_view(),
            resolved.deep_view() == resolved_segments(sm.take(it.index() as int), am, tm, cm),
    {
        proof {
            lemma_take_step(sm, it.index() as int);
        }
        match resolve_segment(seg, active_sources, target_rows, ctx) {
            Some(r) => {
                let ghost before_vec = resolved;
                resolved.push(r);
                proof {
                    lemma_deep_push(before_vec, resolved, r);
                }
            },
            None => {},
        }
    }
    proof {
        lemma_take_all(sm);
    }
    resolved
}

} // verus!
