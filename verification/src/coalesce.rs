use crate::sorting::{sort_by, sort_vec};
use crate::text::same_text;
use crate::types::{
    clone_bound, clone_fields, clone_ids, clone_text, CoalescedSegment, CoalescedSegmentModel,
    PlannerContext, ResolvedSegment, ResolvedSegmentModel,
};
use crate::views::{lemma_deep_empty, lemma_deep_push, lemma_take_all, lemma_take_step};
use vstd::prelude::*;

verus! {

/// Whether a segment continues the run before it: it is of the same group,
/// starts where the run ends, and has the content of the run.
pub open spec fn continues(c: CoalescedSegmentModel, seg: ResolvedSegmentModel) -> bool {
    c.grouping_key == seg.grouping_key && c.valid_until.text == seg.valid_from.text
        && c.data_hash is Some && c.data_hash == seg.data_hash
}

/// The run that a segment starts.
pub open spec fn run_of(seg: ResolvedSegmentModel) -> CoalescedSegmentModel {
    CoalescedSegmentModel {
        grouping_key: seg.grouping_key,
        valid_from: seg.valid_from,
        valid_until: seg.valid_until,
        is_new_entity: seg.is_new_entity,
        identity_keys: seg.identity_keys,
        causal_id: seg.causal_id,
        row_ids: seg.row_ids,
        data_payload: seg.data_payload,
        ephemeral_payload: seg.ephemeral_payload,
        ancestor_valid_from: seg.target_valid_from,
        data_hash: seg.data_hash,
        has_source_coverage: seg.has_source_coverage,
        has_target_coverage: seg.has_target_coverage,
        s_t_relation: seg.s_t_relation,
    }
}

/// The run with one more segment: it ends where the segment ends, has the
/// segment's ephemeral values if it has any, and keeps the first ancestor
/// and the first relation that one of its segments had.
pub open spec fn run_with(c: CoalescedSegmentModel, seg: ResolvedSegmentModel) -> CoalescedSegmentModel {
    CoalescedSegmentModel {
        valid_until: seg.valid_until,
        row_ids: c.row_ids + seg.row_ids,
        ephemeral_payload: if seg.ephemeral_payload is Some {
            seg.ephemeral_payload
        } else {
            c.ephemeral_payload
        },
        ancestor_valid_from: if c.ancestor_valid_from is None {
            seg.target_valid_from
        } else {
            c.ancestor_valid_from
        },
        has_source_coverage: c.has_source_coverage || seg.has_source_coverage,
        has_target_coverage: c.has_target_coverage || seg.has_target_coverage,
        s_t_relation: if c.s_t_relation is None {
            seg.s_t_relation
        } else {
            c.s_t_relation
        },
        ..c
    }
}

/// The runs of the segments: each segment continues the run before it or
/// starts one.
pub open spec fn runs(resolved: Seq<ResolvedSegmentModel>) -> Seq<CoalescedSegmentModel>
    decreases resolved.len(),
{
    if resolved.len() == 0 {
        Seq::empty()
    } else {
        let prev = runs(resolved.drop_last());
        if prev.len() > 0 && continues(prev.last(), resolved.last()) {
            prev.drop_last().push(run_with(prev.last(), resolved.last()))
        } else {
            prev.push(run_of(resolved.last()))
        }
    }
}

/// Row ids by their size.
pub open spec fn id_order() -> spec_fn(i64, i64) -> bool {
    |a: i64, b: i64| a < b
}

/// `s` without the ids that repeat the id before them.
pub open spec fn without_repeated_ids(s: Seq<i64>) -> Seq<i64>
    decreases s.len(),
{
    if s.len() == 0 {
        s
    } else {
        let d = without_repeated_ids(s.drop_last());
        if d.len() > 0 && d.last() == s.last() {
            d
        } else {
            d.push(s.last())
        }
    }
}

/// The ids in rising order, each once.
pub open spec fn sorted_distinct(ids: Seq<i64>) -> Seq<i64> {
    without_repeated_ids(sort_by(ids, id_order()))
}

/// A run with its row ids in rising order, each once.
pub open spec fn tidy(c: CoalescedSegmentModel) -> CoalescedSegmentModel {
    CoalescedSegmentModel { row_ids: sorted_distinct(c.row_ids), ..c }
}

/// The coalesced segments: the runs of neighbouring segments of equal
/// content.
pub open spec fn coalesced(resolved: Seq<ResolvedSegmentModel>) -> Seq<CoalescedSegmentModel> {
    runs(resolved).map_values(|c: CoalescedSegmentModel| tidy(c))
}

/// Whether the segment at place `i` continues the segment before it.
pub open spec fn chained(resolved: Seq<ResolvedSegmentModel>, i: int) -> bool {
    0 < i < resolved.len() && resolved[i - 1].grouping_key == resolved[i].grouping_key
        && resolved[i - 1].valid_until.text == resolved[i].valid_from.text && resolved[i
        - 1].data_hash is Some && resolved[i - 1].data_hash == resolved[i].data_hash
}

/// The places at which a run starts: the first, and each whose segment does
/// not continue the one before it.
pub open spec fn run_starts(resolved: Seq<ResolvedSegmentModel>) -> Seq<int>
    decreases resolved.len(),
{
    if resolved.len() == 0 {
        Seq::empty()
    } else {
        let prev = run_starts(resolved.drop_last());
        if chained(resolved, resolved.len() - 1) {
            prev
        } else {
            prev.push(resolved.len() - 1)
        }
    }
}

/// The place at which run `k` ends.
pub open spec fn run_end(resolved: Seq<ResolvedSegmentModel>, k: int) -> int {
    let starts = run_starts(resolved);
    if k + 1 < starts.len() {
        starts[k + 1] - 1
    } else {
        resolved.len() - 1
    }
}

/// The last run goes by the last segment.
proof fn lemma_last_run(resolved: Seq<ResolvedSegmentModel>)
    requires
        resolved.len() > 0,
    ensures
        runs(resolved).len() > 0,
        runs(resolved).last().grouping_key == resolved.last().grouping_key,
        runs(resolved).last().valid_until == resolved.last().valid_until,
        runs(resolved).last().data_hash == resolved.last().data_hash,
    decreases resolved.len(),
{
    if resolved.len() > 1 {
        lemma_last_run(resolved.drop_last());
    }
}

/// A segment continues the last run exactly where it continues the last segment.
proof fn lemma_continues_is_chained(resolved: Seq<ResolvedSegmentModel>)
    requires
        resolved.len() > 0,
    ensures
        (runs(resolved.drop_last()).len() > 0 && continues(
            runs(resolved.drop_last()).last(),
            resolved.last(),
        )) == chained(resolved, resolved.len() - 1),
{
    let init = resolved.drop_last();
    if init.len() > 0 {
        lemma_last_run(init);
        assert(init.last() == resolved[resolved.len() - 2]);
    }
}

/// The starts of the runs are places of segments, in rising order.
pub proof fn lemma_run_starts_rise(resolved: Seq<ResolvedSegmentModel>)
    ensures
        run_starts(resolved).len() <= resolved.len(),
        resolved.len() > 0 ==> run_starts(resolved).len() > 0 && run_starts(resolved)[0] == 0,
        forall|k: int|
            0 <= k < run_starts(resolved).len() ==> 0 <= #[trigger] run_starts(resolved)[k]
                < resolved.len(),
        forall|k: int, l: int|
            0 <= k < l < run_starts(resolved).len() ==> run_starts(resolved)[k] < run_starts(
                resolved,
            )[l],
        forall|k: int|
            0 <= k < run_starts(resolved).len() ==> !chained(resolved, #[trigger] run_starts(resolved)[k]),
    decreases resolved.len(),
{
    if resolved.len() > 0 {
        let init = resolved.drop_last();
        lemma_run_starts_rise(init);
        let prev = run_starts(init);
        assert forall|k: int| 0 <= k < prev.len() implies !chained(resolved, #[trigger] prev[k]) by {
            let i = prev[k];
            assert(!chained(init, i));
            if i > 0 {
                assert(init[i - 1] == resolved[i - 1]);
                assert(init[i] == resolved[i]);
            }
        }
    }
}

/// Coalescing yields one segment for each longest run of neighbouring
/// segments of equal content, and it spans the run: it starts where the
/// first segment of the run starts and ends where the last one ends.
pub proof fn lemma_runs_span(resolved: Seq<ResolvedSegmentModel>)
    ensures
        coalesced(resolved).len() == run_starts(resolved).len(),
        forall|k: int|
            0 <= k < run_starts(resolved).len() ==> (#[trigger] coalesced(resolved)[k]).valid_from
                == resolved[run_starts(resolved)[k]].valid_from,
        forall|k: int|
            0 <= k < run_starts(resolved).len() ==> (#[trigger] coalesced(resolved)[k]).valid_until
                == resolved[run_end(resolved, k)].valid_until,
{
    lemma_runs_span_raw(resolved);
}

proof fn lemma_runs_span_raw(resolved: Seq<ResolvedSegmentModel>)
    ensures
        runs(resolved).len() == run_starts(resolved).len(),
        forall|k: int|
            0 <= k < run_starts(resolved).len() ==> (#[trigger] runs(resolved)[k]).valid_from
                == resolved[run_starts(resolved)[k]].valid_from,
        forall|k: int|
            0 <= k < run_starts(resolved).len() ==> (#[trigger] runs(resolved)[k]).valid_until
                == resolved[run_end(resolved, k)].valid_until,
    decreases resolved.len(),
{
    if resolved.len() > 0 {
        let init = resolved.drop_last();
        lemma_runs_span_raw(init);
        lemma_continues_is_chained(resolved);
        lemma_run_starts_rise(init);
        lemma_run_starts_rise(resolved);
        let prev = runs(init);
        let starts0 = run_starts(init);
        let starts = run_starts(resolved);
        let last = resolved.len() - 1;
        assert forall|k: int| 0 <= k < starts.len() implies (#[trigger] runs(resolved)[k]).valid_from
            == resolved[starts[k]].valid_from && runs(resolved)[k].valid_until == resolved[run_end(
            resolved,
            k,
        )].valid_until by {
            if chained(resolved, last) {
                if k < starts.len() - 1 {
                    assert(runs(resolved)[k] == prev[k]);
                    assert(run_end(resolved, k) == run_end(init, k));
                    assert(init[starts0[k]] == resolved[starts[k]]);
                    assert(init[run_end(init, k)] == resolved[run_end(resolved, k)]);
                } else {
                    assert(init[starts0[k]] == resolved[starts[k]]);
                }
            } else {
                if k < starts.len() - 1 {
                    assert(runs(resolved)[k] == prev[k]);
                    assert(init[starts0[k]] == resolved[starts[k]]);
                    if k + 1 < starts0.len() {
                        assert(run_end(resolved, k) == run_end(init, k));
                    } else {
                        assert(run_end(init, k) == init.len() - 1);
                        assert(run_end(resolved, k) == last - 1);
                    }
                    assert(init[run_end(init, k)] == resolved[run_end(resolved, k)]);
                }
            }
        }
    }
}

/// Whether two coalesced segments that stand side by side could have been
/// one: they are of the same group, touch, and have the same content.
pub open spec fn mergeable(a: CoalescedSegmentModel, b: CoalescedSegmentModel) -> bool {
    a.grouping_key == b.grouping_key && a.valid_until.text == b.valid_from.text && a.data_hash is Some
        && a.data_hash == b.data_hash
}

/// No two neighbours among the coalesced segments are of one group, touch
/// and have the same content.
pub proof fn lemma_neighbours_differ(resolved: Seq<ResolvedSegmentModel>)
    ensures
        forall|k: int|
            0 <= k && k + 1 < coalesced(resolved).len() ==> !mergeable(
                #[trigger] coalesced(resolved)[k],
                coalesced(resolved)[k + 1],
            ),
{
    lemma_neighbours_differ_raw(resolved);
}

proof fn lemma_first_of_run(resolved: Seq<ResolvedSegmentModel>)
    requires
        resolved.len() > 0,
    ensures
        runs(resolved).len() > 0,
        runs(resolved).last().grouping_key == resolved[run_starts(resolved).last()].grouping_key,
        runs(resolved).last().valid_from == resolved[run_starts(resolved).last()].valid_from,
        runs(resolved).last().data_hash == resolved[run_starts(resolved).last()].data_hash,
        run_starts(resolved).len() == runs(resolved).len(),
    decreases resolved.len(),
{
    lemma_runs_span_raw(resolved);
    lemma_continues_is_chained(resolved);
    lemma_run_starts_rise(resolved);
    let init = resolved.drop_last();
    if init.len() > 0 {
        lemma_first_of_run(init);
        lemma_run_starts_rise(init);
        if chained(resolved, resolved.len() - 1) {
            assert(init[run_starts(init).last()] == resolved[run_starts(resolved).last()]);
        }
    }
}

proof fn lemma_neighbours_differ_raw(resolved: Seq<ResolvedSegmentModel>)
    ensures
        forall|k: int|
            0 <= k && k + 1 < runs(resolved).len() ==> !(runs(resolved)[k].grouping_key == (
            #[trigger] runs(resolved)[k + 1]).grouping_key && runs(resolved)[k].valid_until.text
                == runs(resolved)[k + 1].valid_from.text && runs(resolved)[k].data_hash is Some
                && runs(resolved)[k].data_hash == runs(resolved)[k + 1].data_hash),
    decreases resolved.len(),
{
    if resolved.len() > 0 {
        let init = resolved.drop_last();
        lemma_neighbours_differ_raw(init);
        lemma_continues_is_chained(resolved);
        let prev = runs(init);
        let out = runs(resolved);
        if prev.len() > 0 {
            lemma_last_run(init);
            lemma_first_of_run(init);
        }
        assert forall|k: int| 0 <= k && k + 1 < out.len() implies !(out[k].grouping_key == (
        #[trigger] out[k + 1]).grouping_key && out[k].valid_until.text == out[k + 1].valid_from.text
            && out[k].data_hash is Some && out[k].data_hash == out[k + 1].data_hash) by {
            if prev.len() > 0 && continues(prev.last(), resolved.last()) {
                assert(out[k] == prev[k]);
                if k + 1 < prev.len() - 1 {
                    assert(out[k + 1] == prev[k + 1]);
                } else {
                    assert(out[k + 1].grouping_key == prev[k + 1].grouping_key);
                    assert(out[k + 1].valid_from == prev[k + 1].valid_from);
                    assert(out[k + 1].data_hash == prev[k + 1].data_hash);
                }
            } else {
                if k + 1 < prev.len() {
                    assert(out[k] == prev[k]);
                    assert(out[k + 1] == prev[k + 1]);
                } else {
                    assert(out[k] == prev.last());
                    assert(out[k + 1] == run_of(resolved.last()));
                }
            }
        }
    }
}

/// The ids in rising order, each once.
pub fn tidy_ids(ids: Vec<i64>) -> (out: Vec<i64>)
    ensures
        out@ == sorted_distinct(ids@),
{
    let less = |a: &i64, b: &i64| -> (r: bool)
        ensures
            r == (*a < *b),
        { *a < *b };
    proof {
        assert(ids.deep_view() =~= ids@);
    }
    let sorted = sort_vec(ids, less, Ghost(id_order()));
    proof {
        assert(sorted.deep_view() =~= sorted@);
    }
    let mut out: Vec<i64> = Vec::new();
    let mut i: usize = 0;
    assert(out@ =~= without_repeated_ids(sorted@.take(0)));
    while i < sorted.len()
        invariant
            i <= sorted.len(),
            out@ == without_repeated_ids(sorted@.take(i as int)),
        decreases sorted.len() - i,
    {
        proof {
            lemma_take_step(sorted@, i as int);
        }
        let n_out = out.len();
        if !(n_out > 0 && out[n_out - 1] == sorted[i]) {
            out.push(sorted[i]);
        }
        i += 1;
    }
    proof {
        lemma_take_all(sorted@);
    }
    out
}

fn start_run(seg: &ResolvedSegment) -> (c: CoalescedSegment)
    ensures
        c.deep_view() == run_of(seg.deep_view()),
{
    CoalescedSegment {
        grouping_key: seg.grouping_key.clone(),
        valid_from: seg.valid_from.clone(),
        valid_until: seg.valid_until.clone(),
        is_new_entity: seg.is_new_entity,
        identity_keys: seg.identity_keys.clone(),
        causal_id: clone_text(&seg.causal_id),
        row_ids: clone_ids(&seg.row_ids),
        data_payload: clone_fields(&seg.data_payload),
        ephemeral_payload: clone_fields(&seg.ephemeral_payload),
        ancestor_valid_from: clone_bound(&seg.target_valid_from),
        data_hash: clone_text(&seg.data_hash),
        has_source_coverage: seg.has_source_coverage,
        has_target_coverage: seg.has_target_coverage,
        s_t_relation: seg.s_t_relation,
    }
}

fn extend_run(c: CoalescedSegment, seg: &ResolvedSegment) -> (r: CoalescedSegment)
    ensures
        r.deep_view() == run_with(c.deep_view(), seg.deep_view()),
{
    let mut c = c;
    let mut ids: Vec<i64> = Vec::new();
    std::mem::swap(&mut c.row_ids, &mut ids);
    let ghost ids0 = ids@;
    let mut i: usize = 0;
    assert(ids@ =~= ids0 + seg.row_ids@.take(0));
    while i < seg.row_ids.len()
        invariant
            i <= seg.row_ids.len(),
            ids@ == ids0 + seg.row_ids@.take(i as int),
        decreases seg.row_ids.len() - i,
    {
        ids.push(seg.row_ids[i]);
        assert(ids@ =~= ids0 + seg.row_ids@.take(i + 1));
        i += 1;
    }
    proof {
        lemma_take_all(seg.row_ids@);
    }
    c.row_ids = ids;
    c.valid_until = seg.valid_until.clone();
    if seg.ephemeral_payload.is_some() {
        c.ephemeral_payload = clone_fields(&seg.ephemeral_payload);
    }
    c.has_source_coverage = c.has_source_coverage || seg.has_source_coverage;
    c.has_target_coverage = c.has_target_coverage || seg.has_target_coverage;
    if c.ancestor_valid_from.is_none() {
        c.ancestor_valid_from = clone_bound(&seg.target_valid_from);
    }
    if c.s_t_relation.is_none() {
        c.s_t_relation = seg.s_t_relation;
    }
    c
}

fn can_merge(c: &CoalescedSegment, seg: &ResolvedSegment) -> (r: bool)
    ensures
        r == continues(c.deep_view(), seg.deep_view()),
{
    if !same_text(c.grouping_key.as_str(), seg.grouping_key.as_str()) {
        return false;
    }
    if !same_text(c.valid_until.text.as_str(), seg.valid_from.text.as_str()) {
        return false;
    }
    match (&c.data_hash, &seg.data_hash) {
        (Some(a), Some(b)) => same_text(a.as_str(), b.as_str()),
        _ => false,
    }
}

/// Joins neighbouring segments of equal content into the longest runs.
pub fn coalesce_segments(resolved: Vec<ResolvedSegment>, _ctx: &PlannerContext) -> (out: Vec<
    CoalescedSegment,
>)
    ensures
        out.deep_view() == coalesced(resolved.deep_view()),
{
    let ghost rm = resolved.deep_view();
    let mut merged: Vec<CoalescedSegment> = Vec::new();
    let mut i: usize = 0;
    proof {
        lemma_deep_empty(merged);
    }
    while i < resolved.len()
        invariant
            i <= resolved.len(),
            rm == resolved.deep_view(),
            merged.deep_view() == runs(rm.take(i as int)),
        decreases resolved.len() - i,
    {
        proof {
            lemma_take_step(rm, i as int);
            assert(rm[i as int] == resolved@[i as int].deep_view());
        }
        let ghost m0 = merged;
        let n_merged = merged.len();
        let joins = if n_merged > 0 {
            assert(merged.deep_view().last() == merged@[n_merged - 1].deep_view());
            can_merge(&merged[n_merged - 1], &resolved[i])
        } else {
            false
        };
        if joins {
            let last = merged.pop().unwrap();
            let ghost m1 = merged;
            let longer = extend_run(last, &resolved[i]);
            merged.push(longer);
            proof {
                lemma_deep_push(m1, merged, longer);
                assert(m1.deep_view() =~= m0.deep_view().drop_last());
            }
        } else {
            let fresh = start_run(&resolved[i]);
            merged.push(fresh);
            proof {
                lemma_deep_push(m0, merged, fresh);
            }
        }
        i += 1;
    }
    proof {
        lemma_take_all(rm);
    }
    let ghost mm = merged.deep_view();
    let mut out: Vec<CoalescedSegment> = Vec::new();
    for c in it: merged.into_iter()
        invariant
            it.seq().len() == mm.len(),
            forall|j: int| 0 <= j < mm.len() ==> (#[trigger] it.seq()[j]).deep_view() == mm[j],
            out.len() == it.index(),
            forall|j: int| 0 <= j < it.index() ==> (#[trigger] out[j]).deep_view() == tidy(mm[j]),
    {
        let mut c = c;
        let mut ids: Vec<i64> = Vec::new();
        std::mem::swap(&mut c.row_ids, &mut ids);
        c.row_ids = tidy_ids(ids);
        out.push(c);
    }
    assert(out.deep_view() =~= coalesced(rm));
    out
}

} // verus!
