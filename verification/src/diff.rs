use crate::text::same_text;
use crate::types::{
    clone_fields, clone_ids, clone_text, CoalescedSegment, CoalescedSegmentModel, DiffRow,
    DiffRowModel, PlannerContext, TargetRow, TargetRowModel,
};
use crate::views::{lemma_deep_push, lemma_take_all, lemma_take_step};
use vstd::prelude::*;

verus! {

/// The last of the target rows that starts at the bound written `text`.
pub open spec fn target_from(targets: Seq<TargetRowModel>, text: Seq<char>) -> Option<TargetRowModel>
    decreases targets.len(),
{
    if targets.len() == 0 {
        None
    } else if targets.last().valid_from.text == text {
        Some(targets.last())
    } else {
        target_from(targets.drop_last(), text)
    }
}

/// The target row that a coalesced segment comes from.
pub open spec fn ancestor_of(cs: CoalescedSegmentModel, targets: Seq<TargetRowModel>) -> Option<
    TargetRowModel,
> {
    match cs.ancestor_valid_from {
        Some(a) => target_from(targets, a.text),
        None => None,
    }
}

/// A coalesced segment beside the target row it comes from, if there is one.
pub open spec fn diff_of_segment(cs: CoalescedSegmentModel, targets: Seq<TargetRowModel>) -> DiffRowModel {
    let tr = ancestor_of(cs, targets);
    DiffRowModel {
        grouping_key: cs.grouping_key,
        is_new_entity: cs.is_new_entity,
        identity_keys: cs.identity_keys,
        causal_id: cs.causal_id,
        row_ids: cs.row_ids,
        final_valid_from: Some(cs.valid_from),
        final_valid_until: Some(cs.valid_until),
        final_payload: cs.data_payload,
        target_valid_from: match tr {
            Some(t) => Some(t.valid_from),
            None => None,
        },
        target_valid_until: match tr {
            Some(t) => Some(t.valid_until),
            None => None,
        },
        target_payload: match tr {
            Some(t) => Some(t.data_payload),
            None => None,
        },
        ephemeral_payload: cs.ephemeral_payload,
        has_source_coverage: cs.has_source_coverage,
        s_t_relation: cs.s_t_relation,
        target_ephemeral: match tr {
            Some(t) => Some(t.ephemeral_payload),
            None => None,
        },
        target_lookup_keys: match tr {
            Some(t) => Some(t.lookup_keys),
            None => None,
        },
        target_pk_payload: match tr {
            Some(t) => Some(t.pk_payload),
            None => None,
        },
    }
}

/// A target row that no coalesced segment comes from.
pub open spec fn diff_of_target(t: TargetRowModel, key: Seq<char>) -> DiffRowModel {
    DiffRowModel {
        grouping_key: key,
        is_new_entity: false,
        identity_keys: t.identity_keys,
        causal_id: None,
        row_ids: Seq::empty(),
        final_valid_from: None,
        final_valid_until: None,
        final_payload: None,
        target_valid_from: Some(t.valid_from),
        target_valid_until: Some(t.valid_until),
        target_payload: Some(t.data_payload),
        ephemeral_payload: None,
        has_source_coverage: false,
        s_t_relation: None,
        target_ephemeral: Some(t.ephemeral_payload),
        target_lookup_keys: Some(t.lookup_keys),
        target_pk_payload: Some(t.pk_payload),
    }
}

/// Whether a coalesced segment comes from a target row that starts at `text`.
pub open spec fn has_descendant(coalesced: Seq<CoalescedSegmentModel>, text: Seq<char>) -> bool {
    exists|i: int|
        0 <= i < coalesced.len() && (#[trigger] coalesced[i]).ancestor_valid_from is Some
            && coalesced[i].ancestor_valid_from->0.text == text
}

/// The target rows that no coalesced segment comes from.
pub open spec fn orphan_diffs(
    targets: Seq<TargetRowModel>,
    coalesced: Seq<CoalescedSegmentModel>,
    key: Seq<char>,
) -> Seq<DiffRowModel>
    decreases targets.len(),
{
    if targets.len() == 0 {
        Seq::empty()
    } else {
        let rest = orphan_diffs(targets.drop_last(), coalesced, key);
        if has_descendant(coalesced, targets.last().valid_from.text) {
            rest
        } else {
            rest.push(diff_of_target(targets.last(), key))
        }
    }
}

/// The grouping key of the rows of the target alone: that of the first
/// coalesced segment, and the empty text where there is none.
pub open spec fn orphan_key(coalesced: Seq<CoalescedSegmentModel>) -> Seq<char> {
    if coalesced.len() > 0 {
        coalesced[0].grouping_key
    } else {
        Seq::empty()
    }
}

/// The full outer join of the coalesced segments and the target rows of one
/// entity: each segment beside the target row that starts where its ancestor
/// starts, then the target rows without such a segment.
pub open spec fn diff_rows(coalesced: Seq<CoalescedSegmentModel>, targets: Seq<TargetRowModel>) -> Seq<
    DiffRowModel,
> {
    coalesced.map_values(|cs: CoalescedSegmentModel| diff_of_segment(cs, targets)) + orphan_diffs(
        targets,
        coalesced,
        orphan_key(coalesced),
    )
}

/// A diff row has both ends of an interval or neither.
pub open spec fn diff_complete(d: DiffRowModel) -> bool {
    (d.final_valid_from is Some) == (d.final_valid_until is Some) && (d.target_valid_from is Some)
        == (d.target_valid_until is Some)
}

/// Every row of a diff has both ends of each of its intervals or neither.
pub proof fn lemma_diff_rows_complete(coalesced: Seq<CoalescedSegmentModel>, targets: Seq<TargetRowModel>)
    ensures
        forall|i: int|
            0 <= i < diff_rows(coalesced, targets).len() ==> diff_complete(
                #[trigger] diff_rows(coalesced, targets)[i],
            ),
{
    let key = orphan_key(coalesced);
    lemma_orphans_complete(targets, coalesced, key);
    let head = coalesced.map_values(|cs: CoalescedSegmentModel| diff_of_segment(cs, targets));
    assert forall|i: int| 0 <= i < diff_rows(coalesced, targets).len() implies diff_complete(
        #[trigger] diff_rows(coalesced, targets)[i],
    ) by {
        if i < head.len() {
            assert(diff_rows(coalesced, targets)[i] == diff_of_segment(coalesced[i], targets));
        } else {
            assert(diff_rows(coalesced, targets)[i] == orphan_diffs(targets, coalesced, key)[i
                - head.len()]);
        }
    }
}

proof fn lemma_orphans_complete(
    targets: Seq<TargetRowModel>,
    coalesced: Seq<CoalescedSegmentModel>,
    key: Seq<char>,
)
    ensures
        forall|i: int|
            0 <= i < orphan_diffs(targets, coalesced, key).len() ==> diff_complete(
                #[trigger] orphan_diffs(targets, coalesced, key)[i],
            ),
    decreases targets.len(),
{
    if targets.len() > 0 {
        lemma_orphans_complete(targets.drop_last(), coalesced, key);
        let rest = orphan_diffs(targets.drop_last(), coalesced, key);
        let all = orphan_diffs(targets, coalesced, key);
        assert forall|i: int| 0 <= i < all.len() implies diff_complete(#[trigger] all[i]) by {
            if i < rest.len() {
                assert(all[i] == rest[i]);
            } else {
                assert(all[i] == diff_of_target(targets.last(), key));
            }
        }
    }
}

fn find_target<'a>(target_rows: &'a Vec<TargetRow>, text: &str) -> (r: Option<&'a TargetRow>)
    ensures
        r.deep_view() == target_from(target_rows.deep_view(), text@),
{
    let ghost tm = target_rows.deep_view();
    let mut i: usize = target_rows.len();
    proof {
        lemma_take_all(tm);
    }
    while i > 0
        invariant
            i <= target_rows.len(),
            tm == target_rows.deep_view(),
            target_from(tm, text@) == target_from(tm.take(i as int), text@),
        decreases i,
    {
        proof {
            lemma_take_step(tm, i - 1);
            assert(tm[i - 1] == target_rows@[i - 1].deep_view());
        }
        if same_text(target_rows[i - 1].valid_from.text.as_str(), text) {
            return Some(&target_rows[i - 1]);
        }
        i -= 1;
    }
    None
}

fn segment_diff(cs: &CoalescedSegment, target_rows: &Vec<TargetRow>) -> (d: DiffRow)
    ensures
        d.deep_view() == diff_of_segment(cs.deep_view(), target_rows.deep_view()),
{
    let tr: Option<&TargetRow> = match &cs.ancestor_valid_from {
        Some(a) => find_target(target_rows, a.text.as_str()),
        None => None,
    };
    DiffRow {
        grouping_key: cs.grouping_key.clone(),
        is_new_entity: cs.is_new_entity,
        identity_keys: cs.identity_keys.clone(),
        causal_id: clone_text(&cs.causal_id),
        row_ids: clone_ids(&cs.row_ids),
        final_valid_from: Some(cs.valid_from.clone()),
        final_valid_until: Some(cs.valid_until.clone()),
        final_payload: clone_fields(&cs.data_payload),
        target_valid_from: match tr {
            Some(t) => Some(t.valid_from.clone()),
            None => None,
        },
        target_valid_until: match tr {
            Some(t) => Some(t.valid_until.clone()),
            None => None,
        },
        target_payload: match tr {
            Some(t) => Some(t.data_payload.clone()),
            None => None,
        },
        ephemeral_payload: clone_fields(&cs.ephemeral_payload),
        has_source_coverage: cs.has_source_coverage,
        s_t_relation: cs.s_t_relation,
        target_ephemeral: match tr {
            Some(t) => Some(t.ephemeral_payload.clone()),
            None => None,
        },
        target_lookup_keys: match tr {
            Some(t) => Some(t.lookup_keys.clone()),
            None => None,
        },
        target_pk_payload: match tr {
            Some(t) => Some(t.pk_payload.clone()),
            None => None,
        },
    }
}

fn target_diff(tr: &TargetRow, key: &String) -> (d: DiffRow)
    ensures
        d.deep_view() == diff_of_target(tr.deep_view(), key@),
{
    DiffRow {
        grouping_key: key.clone(),
        is_new_entity: false,
        identity_keys: tr.identity_keys.clone(),
        causal_id: None,
        row_ids: Vec::new(),
        final_valid_from: None,
        final_valid_until: None,
        final_payload: None,
        target_valid_from: Some(tr.valid_from.clone()),
        target_valid_until: Some(tr.valid_until.clone()),
        target_payload: Some(tr.data_payload.clone()),
        ephemeral_payload: None,
        has_source_coverage: false,
        s_t_relation: None,
        target_ephemeral: Some(tr.ephemeral_payload.clone()),
        target_lookup_keys: Some(tr.lookup_keys.clone()),
        target_pk_payload: Some(tr.pk_payload.clone()),
    }
}

fn descends(coalesced: &Vec<CoalescedSegment>, text: &str) -> (r: bool)
    ensures
        r == has_descendant(coalesced.deep_view(), text@),
{
    let ghost cm = coalesced.deep_view();
    let mut i: usize = 0;
    while i < coalesced.len()
        invariant
            i <= coalesced.len(),
            cm == coalesced.deep_view(),
            forall|j: int|
                0 <= j < i ==> !((#[trigger] cm[j]).ancestor_valid_from is Some
                    && cm[j].ancestor_valid_from->0.text == text@),
        decreases coalesced.len() - i,
    {
        assert(cm[i as int] == coalesced@[i as int].deep_view());
        match &coalesced[i].ancestor_valid_from {
            Some(a) => {
                if same_text(a.text.as_str(), text) {
                    return true;
                }
            },
            None => {},
        }
        i += 1;
    }
    false
}

/// Sets the coalesced segments of one entity beside its target rows.
pub fn compute_diff(coalesced: Vec<CoalescedSegment>, target_rows: &Vec<TargetRow>, _ctx: &PlannerContext) -> (diffs: Vec<DiffRow>)
    ensures
        diffs.deep_view() == diff_rows(coalesced.deep_view(), target_rows.deep_view()),
{
    let ghost cm = coalesced.deep_view();
    let ghost tm = target_rows.deep_view();
    let mut diffs: Vec<DiffRow> = Vec::new();
    let mut i: usize = 0;
    while i < coalesced.len()
        invariant
            i <= coalesced.len(),
            cm == coalesced.deep_view(),
            tm == target_rows.deep_view(),
            diffs.len() == i,
            forall|j: int| 0 <= j < i ==> (#[trigger] diffs[j]).deep_view() == diff_of_segment(cm[j], tm),
        decreases coalesced.len() - i,
    {
        assert(cm[i as int] == coalesced@[i as int].deep_view());
        diffs.push(segment_diff(&coalesced[i], target_rows));
        i += 1;
    }
    let ghost head = diffs.deep_view();
    assert(head =~= cm.map_values(|cs: CoalescedSegmentModel| diff_of_segment(cs, tm)));
    let key: String = if coalesced.len() > 0 {
        assert(cm[0] == coalesced@[0].deep_view());
        coalesced[0].grouping_key.clone()
    } else {
        String::new()
    };
    let mut t: usize = 0;
    assert(diffs.deep_view() =~= head + orphan_diffs(tm.take(0), cm, key@));
    while t < target_rows.len()
        invariant
            t <= target_rows.len(),
            cm == coalesced.deep_view(),
            tm == target_rows.deep_view(),
            diffs.deep_view() == head + orphan_diffs(tm.take(t as int), cm, key@),
        decreases target_rows.len() - t,
    {
        proof {
            lemma_take_step(tm, t as int);
            assert(tm[t as int] == target_rows@[t as int].deep_view());
        }
        if !descends(&coalesced, target_rows[t].valid_from.text.as_str()) {
            let ghost before_vec = diffs;
            let d = target_diff(&target_rows[t], &key);
            diffs.push(d);
            proof {
                lemma_deep_push(before_vec, diffs, d);
                assert(diffs.deep_view() =~= head + orphan_diffs(tm.take(t + 1), cm, key@));
            }
        }
        t += 1;
    }
    proof {
        lemma_take_all(tm);
    }
    diffs
}

} // verus!
