use crate::interval::{before, precedes, Bound, BoundModel};
use crate::keys::{build_columns_key, columns_key};
use crate::sorting::{sort_by, sort_vec};
use crate::text::{lex_lt, same_text, text_lt};
use crate::types::{
    clone_text, AtomicSegment, AtomicSegmentModel, ContextModel, EntityGroup, GroupModel,
    MatchedModel, MatchedSourceRow, MergeMode, PlannerContext, TargetRow, TargetRowModel,
};
use crate::views::{
    lemma_deep_empty, lemma_deep_insert, lemma_deep_push, lemma_take_all, lemma_take_step,
};
use vstd::prelude::*;

verus! {

/// The group that a source row founds.
pub open spec fn group_of_source(ms: MatchedModel) -> GroupModel {
    GroupModel {
        grouping_key: ms.grouping_key,
        is_new_entity: ms.is_new_entity,
        identity_keys: match ms.discovered_identity {
            Some(d) => d,
            None => ms.source.identity_keys,
        },
        source_rows: seq![ms],
        target_rows: Seq::empty(),
    }
}

/// The group of a target entity that no source row belongs to.
pub open spec fn group_of_target(t: TargetRowModel, key: Seq<char>) -> GroupModel {
    GroupModel {
        grouping_key: key,
        is_new_entity: false,
        identity_keys: t.identity_keys,
        source_rows: Seq::empty(),
        target_rows: seq![t],
    }
}

/// The groups, which stand in the order of their keys, with the source row
/// added to the group of its key; a group is made where there is none.
pub open spec fn with_source(groups: Seq<GroupModel>, ms: MatchedModel) -> Seq<GroupModel>
    decreases groups.len(),
{
    if groups.len() == 0 {
        seq![group_of_source(ms)]
    } else if groups[0].grouping_key == ms.grouping_key {
        seq![GroupModel { source_rows: groups[0].source_rows.push(ms), ..groups[0] }]
            + groups.drop_first()
    } else if lex_lt(ms.grouping_key, groups[0].grouping_key) {
        seq![group_of_source(ms)] + groups
    } else {
        seq![groups[0]] + with_source(groups.drop_first(), ms)
    }
}

/// The groups with the target row added to the group of `key`; where there
/// is none, one is made if `orphans` says so.
pub open spec fn with_target(
    groups: Seq<GroupModel>,
    t: TargetRowModel,
    key: Seq<char>,
    orphans: bool,
) -> Seq<GroupModel>
    decreases groups.len(),
{
    if groups.len() == 0 {
        if orphans {
            seq![group_of_target(t, key)]
        } else {
            groups
        }
    } else if groups[0].grouping_key == key {
        seq![GroupModel { target_rows: groups[0].target_rows.push(t), ..groups[0] }]
            + groups.drop_first()
    } else if lex_lt(key, groups[0].grouping_key) {
        if orphans {
            seq![group_of_target(t, key)] + groups
        } else {
            groups
        }
    } else {
        seq![groups[0]] + with_target(groups.drop_first(), t, key, orphans)
    }
}

/// The source rows by their grouping keys.
pub open spec fn grouped_sources(matched: Seq<MatchedModel>) -> Seq<GroupModel>
    decreases matched.len(),
{
    if matched.len() == 0 {
        Seq::empty()
    } else {
        with_source(grouped_sources(matched.drop_last()), matched.last())
    }
}

/// The grouping key of the entity of a target row.
pub open spec fn target_key(t: TargetRowModel, ctx: ContextModel) -> Seq<char> {
    "existing_entity__"@ + columns_key(t.identity_keys, ctx.identity_columns)
}

/// `groups` with the target rows added.
pub open spec fn with_targets(
    groups: Seq<GroupModel>,
    targets: Seq<TargetRowModel>,
    ctx: ContextModel,
) -> Seq<GroupModel>
    decreases targets.len(),
{
    if targets.len() == 0 {
        groups
    } else {
        with_target(
            with_targets(groups, targets.drop_last(), ctx),
            targets.last(),
            target_key(targets.last(), ctx),
            ctx.delete_mode.spec_deletes_entities(),
        )
    }
}

/// Source and target rows by entity, in the order of the grouping keys. An
/// entity of the target without source rows has a group only where the
/// delete mode deletes entities.
pub open spec fn grouped(
    matched: Seq<MatchedModel>,
    targets: Seq<TargetRowModel>,
    ctx: ContextModel,
) -> Seq<GroupModel> {
    with_targets(grouped_sources(matched), targets, ctx)
}

fn add_source(groups: &mut Vec<EntityGroup>, ms: MatchedSourceRow)
    ensures
        final(groups).deep_view() == with_source(old(groups).deep_view(), ms.deep_view()),
{
    let ghost g = groups.deep_view();
    let ghost m = ms.deep_view();
    let mut i: usize = 0;
    proof {
        lemma_take_all(g);
        assert(g.take(0) + with_source(g, m) =~= with_source(g, m));
    }
    while i < groups.len()
        invariant
            i <= groups.len(),
            groups.deep_view() == g,
            g == old(groups).deep_view(),
            m == ms.deep_view(),
            with_source(g, m) == g.take(i as int) + with_source(g.skip(i as int), m),
        decreases groups.len() - i,
    {
        let ghost rest = g.skip(i as int);
        let ghost before_vec = *groups;
        proof {
            lemma_take_step(g, i as int);
            assert(rest[0] == g[i as int]);
            assert(g[i as int] == groups@[i as int].deep_view());
        }
        if same_text(groups[i].grouping_key.as_str(), ms.grouping_key.as_str()) {
            let mut group = groups.remove(i);
            let ghost mid = *groups;
            let ghost rows0 = group.source_rows;
            group.source_rows.push(ms);
            proof {
                lemma_deep_push(rows0, group.source_rows, ms);
            }
            groups.insert(i, group);
            proof {
                lemma_deep_insert(mid, *groups, i as int, group);
                assert(mid.deep_view() =~= g.remove(i as int));
                assert(g.remove(i as int).insert(i as int, group.deep_view()) =~= g.take(i as int) + (
                seq![group.deep_view()] + rest.drop_first()));
            }
            return ;
        }
        if text_lt(ms.grouping_key.as_str(), groups[i].grouping_key.as_str()) {
            let group = found_by_source(ms);
            groups.insert(i, group);
            proof {
                lemma_deep_insert(before_vec, *groups, i as int, group);
                assert(g.insert(i as int, group.deep_view()) =~= g.take(i as int) + (seq![
                    group.deep_view(),
                ] + rest));
            }
            return ;
        }
        proof {
            assert(with_source(rest, m) == seq![rest[0]] + with_source(rest.drop_first(), m));
            assert(g.take(i as int) + (seq![rest[0]] + with_source(rest.drop_first(), m)) =~= g.take(
                i + 1,
            ) + with_source(g.skip(i + 1), m));
        }
        i += 1;
    }
    let ghost before_vec = *groups;
    let group = found_by_source(ms);
    groups.push(group);
    proof {
        lemma_deep_push(before_vec, *groups, group);
        assert(g.skip(i as int) =~= Seq::empty());
        assert(g.take(i as int) + seq![group.deep_view()] =~= g.push(group.deep_view()));
    }
}

fn found_by_source(ms: MatchedSourceRow) -> (group: EntityGroup)
    ensures
        group.deep_view() == group_of_source(ms.deep_view()),
{
    let identity_keys = match &ms.discovered_identity {
        Some(d) => d.clone(),
        None => ms.source.identity_keys.clone(),
    };
    let grouping_key = ms.grouping_key.clone();
    let is_new_entity = ms.is_new_entity;
    let mut source_rows: Vec<MatchedSourceRow> = Vec::new();
    let ghost empty = source_rows;
    source_rows.push(ms);
    let target_rows: Vec<TargetRow> = Vec::new();
    proof {
        lemma_deep_empty(empty);
        lemma_deep_push(empty, source_rows, ms);
        lemma_deep_empty(target_rows);
        assert(source_rows.deep_view() =~= seq![ms.deep_view()]);
    }
    EntityGroup { grouping_key, is_new_entity, identity_keys, source_rows, target_rows }
}

fn found_by_target(tr: &TargetRow, key: String) -> (group: EntityGroup)
    ensures
        group.deep_view() == group_of_target(tr.deep_view(), key@),
{
    let source_rows: Vec<MatchedSourceRow> = Vec::new();
    let mut target_rows: Vec<TargetRow> = Vec::new();
    let ghost empty = target_rows;
    let copy = tr.clone();
    target_rows.push(copy);
    proof {
        lemma_deep_empty(source_rows);
        lemma_deep_empty(empty);
        lemma_deep_push(empty, target_rows, copy);
        assert(target_rows.deep_view() =~= seq![tr.deep_view()]);
    }
    EntityGroup {
        grouping_key: key,
        is_new_entity: false,
        identity_keys: tr.identity_keys.clone(),
        source_rows,
        target_rows,
    }
}

fn add_target(groups: &mut Vec<EntityGroup>, tr: &TargetRow, key: String, orphans: bool)
    ensures
        final(groups).deep_view() == with_target(
            old(groups).deep_view(),
            tr.deep_view(),
            key@,
            orphans,
        ),
{
    let ghost g = groups.deep_view();
    let ghost t = tr.deep_view();
    let ghost k = key@;
    let mut i: usize = 0;
    proof {
        lemma_take_all(g);
        assert(g.take(0) + with_target(g, t, k, orphans) =~= with_target(g, t, k, orphans));
    }
    while i < groups.len()
        invariant
            i <= groups.len(),
            groups.deep_view() == g,
            g == old(groups).deep_view(),
            t == tr.deep_view(),
            k == key@,
            with_target(g, t, k, orphans) == g.take(i as int) + with_target(
                g.skip(i as int),
                t,
                k,
                orphans,
            ),
        decreases groups.len() - i,
    {
        let ghost rest = g.skip(i as int);
        let ghost before_vec = *groups;
        proof {
            lemma_take_step(g, i as int);
            assert(rest[0] == g[i as int]);
            assert(g[i as int] == groups@[i as int].deep_view());
        }
        if same_text(groups[i].grouping_key.as_str(), key.as_str()) {
            let mut group = groups.remove(i);
            let ghost mid = *groups;
            let ghost rows0 = group.target_rows;
            let copy = tr.clone();
            group.target_rows.push(copy);
            proof {
                lemma_deep_push(rows0, group.target_rows, copy);
            }
            groups.insert(i, group);
            proof {
                lemma_deep_insert(mid, *groups, i as int, group);
                assert(mid.deep_view() =~= g.remove(i as int));
                assert(g.remove(i as int).insert(i as int, group.deep_view()) =~= g.take(i as int) + (
                seq![group.deep_view()] + rest.drop_first()));
            }
            return ;
        }
        if text_lt(key.as_str(), groups[i].grouping_key.as_str()) {
            if orphans {
                let group = found_by_target(tr, key);
                groups.insert(i, group);
                proof {
                    lemma_deep_insert(before_vec, *groups, i as int, group);
                    assert(g.insert(i as int, group.deep_view()) =~= g.take(i as int) + (seq![
                        group.deep_view(),
                    ] + rest));
                }
            } else {
                proof {
                    assert(g.take(i as int) + rest =~= g);
                }
            }
            return ;
        }
        proof {
            assert(with_target(rest, t, k, orphans) == seq![rest[0]] + with_target(
                rest.drop_first(),
                t,
                k,
                orphans,
            ));
            assert(g.take(i as int) + (seq![rest[0]] + with_target(rest.drop_first(), t, k, orphans))
                =~= g.take(i + 1) + with_target(g.skip(i + 1), t, k, orphans));
        }
        i += 1;
    }
    proof {
        assert(g.skip(i as int) =~= Seq::empty());
        assert(g.take(i as int) =~= g);
    }
    if orphans {
        let ghost before_vec = *groups;
        let group = found_by_target(tr, key);
        groups.push(group);
        proof {
            lemma_deep_push(before_vec, *groups, group);
            assert(g + seq![group.deep_view()] =~= g.push(group.deep_view()));
        }
    } else {
        proof {
            assert(g + Seq::<GroupModel>::empty() =~= g);
        }
    }
}

/// Puts source and target rows together by entity.
pub fn group_by_entity(
    matched_sources: Vec<MatchedSourceRow>,
    target_rows: &Vec<TargetRow>,
    ctx: &PlannerContext,
) -> (groups: Vec<EntityGroup>)
    ensures
        groups.deep_view() == grouped(
            matched_sources.deep_view(),
            target_rows.deep_view(),
            ctx.deep_view(),
        ),
{
    let ghost mm = matched_sources.deep_view();
    let ghost tm = target_rows.deep_view();
    let ghost cm = ctx.deep_view();
    let mut groups: Vec<EntityGroup> = Vec::new();
    proof {
        lemma_deep_empty(groups);
    }
    for ms in it: matched_sources.into_iter()
        invariant
            it.seq().len() == mm.len(),
            forall|j: int| 0 <= j < mm.len() ==> (#[trigger] it.seq()[j]).deep_view() == mm[j],
            groups.deep_view() == grouped_sources(mm.take(it.index() as int)),
    {
        proof {
            lemma_take_step(mm, it.index() as int);
        }
        add_source(&mut groups, ms);
    }
    proof {
        lemma_take_all(mm);
    }
    let ghost g0 = groups.deep_view();
    let orphans = ctx.delete_mode.deletes_entities();
    let mut t: usize = 0;
    while t < target_rows.len()
        invariant
            t <= target_rows.len(),
            tm == target_rows.deep_view(),
            cm == ctx.deep_view(),
            orphans == cm.delete_mode.spec_deletes_entities(),
            groups.deep_view() == with_targets(g0, tm.take(t as int), cm),
        decreases target_rows.len() - t,
    {
        proof {
            lemma_take_step(tm, t as int);
        }
        let id_key = build_columns_key(&target_rows[t].identity_keys, &ctx.identity_columns);
        let mut key = String::from_str("existing_entity__");
        key.append(id_key.as_str());
        add_target(&mut groups, &target_rows[t], key, orphans);
        t += 1;
    }
    proof {
        lemma_take_all(tm);
    }
    groups
}

/// Whether a source row is planned at all: it has no early feedback and is
/// not eclipsed.
pub open spec fn is_active(ms: MatchedModel) -> bool {
    ms.early_feedback is None && !ms.is_eclipsed
}

/// Whether the mode has a use for a row: only rows of new entities where
/// only new entities are inserted, only rows of existing ones where a
/// portion of the target is changed, else every row.
pub open spec fn kept_by_mode(ms: MatchedModel, mode: MergeMode) -> bool {
    if mode is InsertNewEntities {
        ms.is_new_entity
    } else if mode.spec_is_for_portion_of() {
        !ms.is_new_entity
    } else {
        true
    }
}

/// The rows that are active.
pub open spec fn active_rows(rows: Seq<MatchedModel>) -> Seq<MatchedModel>
    decreases rows.len(),
{
    if rows.len() == 0 {
        rows
    } else if is_active(rows.last()) {
        active_rows(rows.drop_last()).push(rows.last())
    } else {
        active_rows(rows.drop_last())
    }
}

/// The rows that the mode has a use for.
pub open spec fn rows_kept(rows: Seq<MatchedModel>, mode: MergeMode) -> Seq<MatchedModel>
    decreases rows.len(),
{
    if rows.len() == 0 {
        rows
    } else if kept_by_mode(rows.last(), mode) {
        rows_kept(rows.drop_last(), mode).push(rows.last())
    } else {
        rows_kept(rows.drop_last(), mode)
    }
}

/// The source rows of a group that are active.
pub fn active_sources(group: &EntityGroup) -> (out: Vec<MatchedSourceRow>)
    ensures
        out.deep_view() == active_rows(group.deep_view().source_rows),
{
    let ghost rows = group.source_rows.deep_view();
    let mut out: Vec<MatchedSourceRow> = Vec::new();
    let mut i: usize = 0;
    proof {
        lemma_deep_empty(out);
    }
    while i < group.source_rows.len()
        invariant
            i <= group.source_rows.len(),
            rows == group.source_rows.deep_view(),
            out.deep_view() == active_rows(rows.take(i as int)),
        decreases group.source_rows.len() - i,
    {
        proof {
            lemma_take_step(rows, i as int);
            assert(rows[i as int] == group.source_rows@[i as int].deep_view());
        }
        if group.source_rows[i].early_feedback.is_none() && !group.source_rows[i].is_eclipsed {
            let ghost before_vec = out;
            let copy = group.source_rows[i].clone();
            out.push(copy);
            proof {
                lemma_deep_push(before_vec, out, copy);
            }
        }
        i += 1;
    }
    proof {
        lemma_take_all(rows);
    }
    out
}

/// Whether the mode has a use for a row.
pub fn mode_keeps(ms: &MatchedSourceRow, mode: MergeMode) -> (r: bool)
    ensures
        r == kept_by_mode(ms.deep_view(), mode),
{
    match mode {
        MergeMode::InsertNewEntities => ms.is_new_entity,
        MergeMode::UpdateForPortionOf
        | MergeMode::PatchForPortionOf
        | MergeMode::ReplaceForPortionOf
        | MergeMode::DeleteForPortionOf => !ms.is_new_entity,
        _ => true,
    }
}

/// The rows that the merge mode has a use for.
pub fn filter_by_mode(active_sources: &Vec<MatchedSourceRow>, ctx: &PlannerContext) -> (out: Vec<
    MatchedSourceRow,
>)
    ensures
        out.deep_view() == rows_kept(active_sources.deep_view(), ctx.deep_view().mode),
{
    let ghost rows = active_sources.deep_view();
    let mut out: Vec<MatchedSourceRow> = Vec::new();
    let mut i: usize = 0;
    proof {
        lemma_deep_empty(out);
    }
    while i < active_sources.len()
        invariant
            i <= active_sources.len(),
            rows == active_sources.deep_view(),
            out.deep_view() == rows_kept(rows.take(i as int), ctx.deep_view().mode),
        decreases active_sources.len() - i,
    {
        proof {
            lemma_take_step(rows, i as int);
            assert(rows[i as int] == active_sources@[i as int].deep_view());
        }
        if mode_keeps(&active_sources[i], ctx.mode) {
            let ghost before_vec = out;
            let copy = active_sources[i].clone();
            out.push(copy);
            proof {
                lemma_deep_push(before_vec, out, copy);
            }
        }
        i += 1;
    }
    proof {
        lemma_take_all(rows);
    }
    out
}

/// Both ends of each source row, in order.
pub open spec fn source_bounds(rows: Seq<MatchedModel>) -> Seq<BoundModel>
    decreases rows.len(),
{
    if rows.len() == 0 {
        Seq::empty()
    } else {
        source_bounds(rows.drop_last()).push(rows.last().source.valid_from).push(
            rows.last().source.valid_until,
        )
    }
}

/// Both ends of each target row, in order, behind `acc`.
pub open spec fn target_bounds(acc: Seq<BoundModel>, rows: Seq<TargetRowModel>) -> Seq<BoundModel>
    decreases rows.len(),
{
    if rows.len() == 0 {
        acc
    } else {
        target_bounds(acc, rows.drop_last()).push(rows.last().valid_from).push(
            rows.last().valid_until,
        )
    }
}

/// Bounds in the order of time.
pub open spec fn bound_order(n: bool) -> spec_fn(BoundModel, BoundModel) -> bool {
    |a: BoundModel, b: BoundModel| before(a, b, n)
}

/// `s` without the bounds that repeat the bound before them.
pub open spec fn without_repeats(s: Seq<BoundModel>) -> Seq<BoundModel>
    decreases s.len(),
{
    if s.len() == 0 {
        s
    } else {
        let d = without_repeats(s.drop_last());
        if d.len() > 0 && d.last() == s.last() {
            d
        } else {
            d.push(s.last())
        }
    }
}

/// The points in time at which something changes for a group: the ends of
/// its planned source rows and of its target rows, in the order of time.
pub open spec fn time_points(group: GroupModel, active: Seq<MatchedModel>, n: bool) -> Seq<BoundModel> {
    without_repeats(sort_by(target_bounds(source_bounds(active), group.target_rows), bound_order(n)))
}

/// The least of the causal ids of the rows, in the order of texts.
pub open spec fn least_causal_id(rows: Seq<MatchedModel>) -> Option<Seq<char>>
    decreases rows.len(),
{
    if rows.len() == 0 {
        None
    } else {
        let c = rows.last().source.causal_id;
        match least_causal_id(rows.drop_last()) {
            Some(m) => if lex_lt(c, m) {
                Some(c)
            } else {
                Some(m)
            },
            None => Some(c),
        }
    }
}

/// The causal id that the segments of a group start out with: for a new
/// entity that of its first planned row, else the least of all.
pub open spec fn group_causal_id(group: GroupModel, active: Seq<MatchedModel>) -> Option<Seq<char>> {
    if group.is_new_entity {
        if active.len() > 0 {
            Some(active[0].source.causal_id)
        } else {
            None
        }
    } else {
        least_causal_id(active)
    }
}

/// The segment of a group between two points.
pub open spec fn segment_between(
    group: GroupModel,
    causal_id: Option<Seq<char>>,
    from: BoundModel,
    until: BoundModel,
) -> AtomicSegmentModel {
    AtomicSegmentModel {
        grouping_key: group.grouping_key,
        valid_from: from,
        valid_until: until,
        is_new_entity: group.is_new_entity,
        identity_keys: group.identity_keys,
        causal_id,
    }
}

/// One segment for each pair of neighbours among `points` of which the
/// first lies before the second.
pub open spec fn segments_between(
    group: GroupModel,
    causal_id: Option<Seq<char>>,
    points: Seq<BoundModel>,
    n: bool,
) -> Seq<AtomicSegmentModel>
    decreases points.len(),
{
    if points.len() < 2 {
        Seq::empty()
    } else {
        let rest = segments_between(group, causal_id, points.drop_last(), n);
        let from = points[points.len() - 2];
        let until = points.last();
        if before(from, until, n) {
            rest.push(segment_between(group, causal_id, from, until))
        } else {
            rest
        }
    }
}

/// The atomic segments of a group: the stretches between neighbouring
/// points in time.
pub open spec fn atomic_segments(group: GroupModel, active: Seq<MatchedModel>, ctx: ContextModel) -> Seq<
    AtomicSegmentModel,
> {
    segments_between(
        group,
        group_causal_id(group, active),
        time_points(group, active, ctx.numeric),
        ctx.numeric,
    )
}

fn least_causal(active: &Vec<MatchedSourceRow>) -> (r: Option<String>)
    ensures
        r.deep_view() == least_causal_id(active.deep_view()),
{
    let ghost rows = active.deep_view();
    let mut best: Option<usize> = None;
    let mut i: usize = 0;
    while i < active.len()
        invariant
            i <= active.len(),
            rows == active.deep_view(),
            best is Some ==> best->0 < i,
            match best {
                Some(b) => least_causal_id(rows.take(i as int)) == Some(rows[b as int].source.causal_id),
                None => least_causal_id(rows.take(i as int)) is None,
            },
        decreases active.len() - i,
    {
        proof {
            lemma_take_step(rows, i as int);
            assert(rows[i as int] == active@[i as int].deep_view());
        }
        match best {
            Some(b) => {
                assert(rows[b as int] == active@[b as int].deep_view());
                if text_lt(active[i].source.causal_id.as_str(), active[b].source.causal_id.as_str()) {
                    best = Some(i);
                }
            },
            None => {
                best = Some(i);
            },
        }
        i += 1;
    }
    proof {
        lemma_take_all(rows);
    }
    match best {
        Some(b) => {
            assert(rows[b as int] == active@[b as int].deep_view());
            Some(active[b].source.causal_id.clone())
        },
        None => None,
    }
}

/// Cuts the time of a group into atomic segments.
pub fn build_atomic_segments(
    group: &EntityGroup,
    active_sources: &Vec<MatchedSourceRow>,
    ctx: &PlannerContext,
) -> (segments: Vec<AtomicSegment>)
    ensures
        segments.deep_view() == atomic_segments(
            group.deep_view(),
            active_sources.deep_view(),
            ctx.deep_view(),
        ),
{
    let ghost gm = group.deep_view();
    let ghost am = active_sources.deep_view();
    let is_numeric = ctx.is_numeric();
    let mut bounds: Vec<Bound> = Vec::new();
    let mut i: usize = 0;
    proof {
        lemma_deep_empty(bounds);
    }
    while i < active_sources.len()
        invariant
            i <= active_sources.len(),
            am == active_sources.deep_view(),
            bounds.deep_view() == source_bounds(am.take(i as int)),
        decreases active_sources.len() - i,
    {
        proof {
            lemma_take_step(am, i as int);
            assert(am[i as int] == active_sources@[i as int].deep_view());
        }
        let ghost b0 = bounds;
        let from = active_sources[i].source.valid_from.clone();
        bounds.push(from);
        let ghost b1 = bounds;
        let until = active_sources[i].source.valid_until.clone();
        bounds.push(until);
        proof {
            lemma_deep_push(b0, b1, from);
            lemma_deep_push(b1, bounds, until);
        }
        i += 1;
    }
    proof {
        lemma_take_all(am);
    }
    let ghost sb = bounds.deep_view();
    let ghost tm = gm.target_rows;
    let mut t: usize = 0;
    while t < group.target_rows.len()
        invariant
            t <= group.target_rows.len(),
            tm == group.target_rows.deep_view(),
            bounds.deep_view() == target_bounds(sb, tm.take(t as int)),
        decreases group.target_rows.len() - t,
    {
        proof {
            lemma_take_step(tm, t as int);
            assert(tm[t as int] == group.target_rows@[t as int].deep_view());
        }
        let ghost b0 = bounds;
        let from = group.target_rows[t].valid_from.clone();
        bounds.push(from);
        let ghost b1 = bounds;
        let until = group.target_rows[t].valid_until.clone();
        bounds.push(until);
        proof {
            lemma_deep_push(b0, b1, from);
            lemma_deep_push(b1, bounds, until);
        }
        t += 1;
    }
    proof {
        lemma_take_all(tm);
    }
    let less = |a: &Bound, b: &Bound| -> (r: bool)
        ensures
            r == before(a.deep_view(), b.deep_view(), is_numeric),
        { precedes(a, b, is_numeric) };
    let sorted = sort_vec(bounds, less, Ghost(bound_order(is_numeric)));
    let ghost sm = sorted.deep_view();
    let mut points: Vec<Bound> = Vec::new();
    let mut k: usize = 0;
    proof {
        lemma_deep_empty(points);
    }
    while k < sorted.len()
        invariant
            k <= sorted.len(),
            sm == sorted.deep_view(),
            points.deep_view() == without_repeats(sm.take(k as int)),
        decreases sorted.len() - k,
    {
        proof {
            lemma_take_step(sm, k as int);
            assert(sm[k as int] == sorted@[k as int].deep_view());
        }
        let n_points = points.len();
        let repeat = if n_points > 0 {
            assert(points.deep_view().last() == points@[n_points - 1].deep_view());
            points[n_points - 1].rank == sorted[k].rank && same_text(
                points[n_points - 1].text.as_str(),
                sorted[k].text.as_str(),
            )
        } else {
            false
        };
        if !repeat {
            let ghost before_vec = points;
            let copy = sorted[k].clone();
            points.push(copy);
            proof {
                lemma_deep_push(before_vec, points, copy);
            }
        }
        k += 1;
    }
    proof {
        lemma_take_all(sm);
    }
    let ghost pm = points.deep_view();
    let causal_id: Option<String> = if group.is_new_entity {
        if active_sources.len() > 0 {
            assert(am[0] == active_sources@[0].deep_view());
            Some(active_sources[0].source.causal_id.clone())
        } else {
            None
        }
    } else {
        least_causal(active_sources)
    };
    let ghost cid = causal_id.deep_view();
    let mut segments: Vec<AtomicSegment> = Vec::new();
    proof {
        lemma_deep_empty(segments);
    }
    if points.len() < 2 {
        return segments;
    }
    let mut w: usize = 1;
    proof {
        assert(pm.take(1).len() < 2);
    }
    while w < points.len()
        invariant
            1 <= w <= points.len(),
            pm == points.deep_view(),
            gm == group.deep_view(),
            cid == causal_id.deep_view(),
            segments.deep_view() == segments_between(gm, cid, pm.take(w as int), is_numeric),
        decreases points.len() - w,
    {
        proof {
            lemma_take_step(pm, w as int);
            assert(pm[w as int] == points@[w as int].deep_view());
            assert(pm[w - 1] == points@[w - 1].deep_view());
            assert(pm.take(w + 1)[w - 1] == pm[w - 1]);
        }
        if precedes(&points[w - 1], &points[w], is_numeric) {
            let ghost before_vec = segments;
            let seg = AtomicSegment {
                grouping_key: group.grouping_key.clone(),
                valid_from: points[w - 1].clone(),
                valid_until: points[w].clone(),
                is_new_entity: group.is_new_entity,
                identity_keys: group.identity_keys.clone(),
                causal_id: clone_text(&causal_id),
            };
            segments.push(seg);
            proof {
                lemma_deep_push(before_vec, segments, seg);
            }
        }
        w += 1;
    }
    proof {
        lemma_take_all(pm);
    }
    segments
}

} // verus!
