use crate::keys::{
    build_grouping_key, build_key_for_cols, grouping_key_of, json_map_to_key, json_to_pg_text,
    key_for_cols, map_key, pg_object_text,
};
use crate::text::{join, join_spec, same_text};
use crate::types::{
    ContextModel, EarlyFeedback, EarlyFeedbackModel, IdentityStrategy, MatchedModel,
    MatchedSourceRow, PlanAction, PlannerContext, SourceRow, SourceRowModel, TargetRow,
    TargetRowModel,
};
use crate::value::{strip_nulls, without_nulls, Fields, FieldsModel};
use crate::views::{lemma_take_all, lemma_take_step};
use vstd::prelude::*;

verus! {

/// Whether one of `found` is the identity `id`, by its key.
pub open spec fn has_identity(found: Seq<FieldsModel>, id: FieldsModel) -> bool {
    exists|i: int| 0 <= i < found.len() && map_key(#[trigger] found[i]) == map_key(id)
}

/// `found`, and behind it the identities of those targets, in order, whose
/// key under the columns `ks` is `key` and whose identity is not yet there.
pub open spec fn collect_set(
    found: Seq<FieldsModel>,
    key: Seq<char>,
    targets: Seq<TargetRowModel>,
    ks: Seq<Seq<char>>,
) -> Seq<FieldsModel>
    decreases targets.len(),
{
    if targets.len() == 0 {
        found
    } else {
        let f = collect_set(found, key, targets.drop_last(), ks);
        let t = targets.last();
        if key_for_cols(t.lookup_keys, ks) == key && !has_identity(f, t.identity_keys) {
            f.push(t.identity_keys)
        } else {
            f
        }
    }
}

/// The distinct identities of the targets that a row with these lookup keys
/// matches under any of the key sets, in the order in which they are met.
pub open spec fn collect_all(
    lookup_keys: FieldsModel,
    targets: Seq<TargetRowModel>,
    key_sets: Seq<Seq<Seq<char>>>,
) -> Seq<FieldsModel>
    decreases key_sets.len(),
{
    if key_sets.len() == 0 {
        Seq::empty()
    } else {
        let f = collect_all(lookup_keys, targets, key_sets.drop_last());
        let key = key_for_cols(lookup_keys, key_sets.last());
        if key.len() == 0 {
            f
        } else {
            collect_set(f, key, targets, key_sets.last())
        }
    }
}

/// Whether a target has the identity `identity_keys`, one value of which
/// at least is not NULL.
pub open spec fn identity_hit(identity_keys: FieldsModel, targets: Seq<TargetRowModel>) -> bool {
    map_key(identity_keys).len() > 0 && exists|i: int|
        0 <= i < targets.len() && map_key(#[trigger] targets[i].identity_keys) == map_key(
            identity_keys,
        )
}

/// What a row is told that matches more than one entity.
pub open spec fn ambiguous_message(found: Seq<FieldsModel>) -> Seq<char> {
    "Source row is ambiguous. It matches multiple distinct target entities: ["@ + join_spec(
        found.map_values(|m: FieldsModel| pg_object_text(m)),
        ", "@,
    ) + "]"@
}

/// One key set between square brackets.
pub open spec fn key_set_text(ks: Seq<Seq<char>>) -> Seq<char> {
    "["@ + join_spec(ks, ", "@) + "]"@
}

/// What a row of a new entity is told that has neither identity nor key.
pub open spec fn unidentifiable_message(ctx: ContextModel) -> Seq<char> {
    "Source row is unidentifiable. It has NULL for all stable identity columns {"@ + join_spec(
        ctx.identity_columns,
        ", "@,
    ) + "} and all natural keys ["@ + join_spec(
        ctx.lookup_key_sets.map_values(|ks: Seq<Seq<char>>| key_set_text(ks)),
        ", "@,
    ) + "]"@
}

/// What correlation finds out about one source row: the entity it belongs
/// to, by its identity first and else by any of the key sets.
///
/// A row that matches by identity, or one entity by its keys, belongs to
/// that entity; one that matches several is in error, and is grouped with
/// the first of them; one that matches none is new, and in error where it
/// has nothing to be told apart by.
pub open spec fn correlate_one(
    sr: SourceRowModel,
    targets: Seq<TargetRowModel>,
    ctx: ContextModel,
) -> MatchedModel {
    let by_id = identity_hit(sr.identity_keys, targets);
    let found = if !by_id && sr.lookup_keys.len() > 0 && !sr.lookup_cols_are_null {
        collect_all(sr.lookup_keys, targets, ctx.lookup_key_sets)
    } else {
        Seq::empty()
    };
    let is_new = !by_id && found.len() == 0;
    let discovered = if by_id {
        Some(sr.identity_keys)
    } else if found.len() > 0 {
        Some(found[0])
    } else {
        None
    };
    let canonical = if found.len() == 1 {
        Some(without_nulls(sr.lookup_keys))
    } else {
        None
    };
    let feedback = if found.len() > 1 {
        Some(
            EarlyFeedbackModel {
                action: PlanAction::Error,
                message: Some(ambiguous_message(found)),
            },
        )
    } else if is_new && !sr.is_identifiable && sr.lookup_cols_are_null && !ctx.founding
        && ctx.strategy != IdentityStrategy::IdentityKeyOnly {
        Some(
            EarlyFeedbackModel {
                action: PlanAction::Error,
                message: Some(unidentifiable_message(ctx)),
            },
        )
    } else {
        None
    };
    MatchedModel {
        source: sr,
        is_new_entity: is_new,
        grouping_key: grouping_key_of(sr, is_new, discovered, canonical, ctx),
        discovered_identity: discovered,
        canonical_nk: canonical,
        early_feedback: feedback,
        is_eclipsed: false,
    }
}

/// Each source row with what correlation finds out about it.
pub open spec fn correlated(
    sources: Seq<SourceRowModel>,
    targets: Seq<TargetRowModel>,
    ctx: ContextModel,
) -> Seq<MatchedModel> {
    sources.map_values(|sr: SourceRowModel| correlate_one(sr, targets, ctx))
}

/// The keys of the targets, worked out once for all source rows.
struct TargetKeys {
    /// For each target the key of its identity.
    by_identity: Vec<String>,
    /// For each key set, for each target, its key under that set.
    by_key_set: Vec<Vec<String>>,
}

impl TargetKeys {
    spec fn fits(&self, targets: Seq<TargetRowModel>, ctx: ContextModel) -> bool {
        &&& self.by_identity.len() == targets.len()
        &&& forall|t: int|
            0 <= t < targets.len() ==> (#[trigger] self.by_identity[t])@ == map_key(
                targets[t].identity_keys,
            )
        &&& self.by_key_set.len() == ctx.lookup_key_sets.len()
        &&& forall|k: int|
            0 <= k < ctx.lookup_key_sets.len() ==> (#[trigger] self.by_key_set[k]).len()
                == targets.len()
        &&& forall|k: int, t: int|
            0 <= k < ctx.lookup_key_sets.len() && 0 <= t < targets.len() ==> (
            #[trigger] self.by_key_set[k][t])@ == key_for_cols(
                targets[t].lookup_keys,
                ctx.lookup_key_sets[k],
            )
    }
}

fn target_keys(target_rows: &Vec<TargetRow>, ctx: &PlannerContext) -> (r: TargetKeys)
    ensures
        r.fits(target_rows.deep_view(), ctx.deep_view()),
{
    let ghost tm = target_rows.deep_view();
    let ghost cm = ctx.deep_view();
    let mut by_identity: Vec<String> = Vec::new();
    let mut t: usize = 0;
    while t < target_rows.len()
        invariant
            t <= target_rows.len(),
            tm == target_rows.deep_view(),
            by_identity.len() == t,
            forall|j: int|
                0 <= j < t ==> (#[trigger] by_identity[j])@ == map_key(tm[j].identity_keys),
        decreases target_rows.len() - t,
    {
        by_identity.push(json_map_to_key(&target_rows[t].identity_keys));
        t += 1;
    }
    let mut by_key_set: Vec<Vec<String>> = Vec::new();
    let mut k: usize = 0;
    while k < ctx.lookup_key_sets.len()
        invariant
            k <= ctx.lookup_key_sets.len(),
            tm == target_rows.deep_view(),
            cm == ctx.deep_view(),
            by_key_set.len() == k,
            forall|j: int| 0 <= j < k ==> (#[trigger] by_key_set[j]).len() == tm.len(),
            forall|j: int, t: int|
                0 <= j < k && 0 <= t < tm.len() ==> (#[trigger] by_key_set[j][t])@ == key_for_cols(
                    tm[t].lookup_keys,
                    cm.lookup_key_sets[j],
                ),
        decreases ctx.lookup_key_sets.len() - k,
    {
        let mut keys: Vec<String> = Vec::new();
        let mut t: usize = 0;
        while t < target_rows.len()
            invariant
                t <= target_rows.len(),
                k < ctx.lookup_key_sets.len(),
                tm == target_rows.deep_view(),
                cm == ctx.deep_view(),
                keys.len() == t,
                forall|j: int|
                    0 <= j < t ==> (#[trigger] keys[j])@ == key_for_cols(
                        tm[j].lookup_keys,
                        cm.lookup_key_sets[k as int],
                    ),
            decreases target_rows.len() - t,
        {
            keys.push(build_key_for_cols(&target_rows[t].lookup_keys, &ctx.lookup_key_sets[k]));
            t += 1;
        }
        by_key_set.push(keys);
        k += 1;
    }
    TargetKeys { by_identity, by_key_set }
}

/// The identities of `targets` at the places `found`.
spec fn identities_at(targets: Seq<TargetRowModel>, found: Seq<usize>) -> Seq<FieldsModel> {
    Seq::new(found.len(), |i: int| targets[found[i] as int].identity_keys)
}

/// The places, among the targets, of the distinct entities that the lookup
/// keys of `sr` match.
fn matching_targets(
    sr: &SourceRow,
    target_rows: &Vec<TargetRow>,
    ctx: &PlannerContext,
    keys: &TargetKeys,
) -> (found: Vec<usize>)
    requires
        keys.fits(target_rows.deep_view(), ctx.deep_view()),
    ensures
        forall|i: int| 0 <= i < found.len() ==> (#[trigger] found[i]) < target_rows.len(),
        identities_at(target_rows.deep_view(), found@) == collect_all(
            sr.lookup_keys.deep_view(),
            target_rows.deep_view(),
            ctx.deep_view().lookup_key_sets,
        ),
{
    let ghost tm = target_rows.deep_view();
    let ghost cm = ctx.deep_view();
    let ghost lk = sr.lookup_keys.deep_view();
    let mut found: Vec<usize> = Vec::new();
    let mut k: usize = 0;
    assert(identities_at(tm, found@) =~= Seq::empty());
    while k < ctx.lookup_key_sets.len()
        invariant
            k <= ctx.lookup_key_sets.len(),
            tm == target_rows.deep_view(),
            cm == ctx.deep_view(),
            lk == sr.lookup_keys.deep_view(),
            keys.fits(tm, cm),
            forall|i: int| 0 <= i < found.len() ==> (#[trigger] found[i]) < tm.len(),
            identities_at(tm, found@) == collect_all(lk, tm, cm.lookup_key_sets.take(k as int)),
        decreases ctx.lookup_key_sets.len() - k,
    {
        proof {
            lemma_take_step(cm.lookup_key_sets, k as int);
        }
        let ghost ks = cm.lookup_key_sets[k as int];
        let ghost f0 = identities_at(tm, found@);
        let key = build_key_for_cols(&sr.lookup_keys, &ctx.lookup_key_sets[k]);
        if !key.as_str().is_empty() {
            let mut t: usize = 0;
            while t < target_rows.len()
                invariant
                    t <= target_rows.len(),
                    k < ctx.lookup_key_sets.len(),
                    tm == target_rows.deep_view(),
                    cm == ctx.deep_view(),
                    ks == cm.lookup_key_sets[k as int],
                    keys.fits(tm, cm),
                    key@ == key_for_cols(lk, ks),
                    forall|i: int| 0 <= i < found.len() ==> (#[trigger] found[i]) < tm.len(),
                    identities_at(tm, found@) == collect_set(f0, key@, tm.take(t as int), ks),
                decreases target_rows.len() - t,
            {
                proof {
                    lemma_take_step(tm, t as int);
                }
                let ghost f = identities_at(tm, found@);
                if same_text(keys.by_key_set[k][t].as_str(), key.as_str()) {
                    let mut known = false;
                    let mut j: usize = 0;
                    while j < found.len() && !known
                        invariant
                            j <= found.len(),
                            t < tm.len(),
                            keys.fits(tm, cm),
                            f == identities_at(tm, found@),
                            forall|i: int| 0 <= i < found.len() ==> (#[trigger] found[i]) < tm.len(),
                            known ==> has_identity(f, tm[t as int].identity_keys),
                            !known ==> forall|i: int|
                                0 <= i < j ==> map_key(#[trigger] f[i]) != map_key(
                                    tm[t as int].identity_keys,
                                ),
                        decreases found.len() - j,
                    {
                        assert(f[j as int] == tm[found[j as int] as int].identity_keys);
                        if same_text(
                            keys.by_identity[found[j]].as_str(),
                            keys.by_identity[t].as_str(),
                        ) {
                            known = true;
                        }
                        j += 1;
                    }
                    if !known {
                        found.push(t);
                        assert(identities_at(tm, found@) =~= f.push(tm[t as int].identity_keys));
                    }
                }
                t += 1;
            }
            proof {
                lemma_take_all(tm);
            }
        }
        k += 1;
    }
    proof {
        lemma_take_all(cm.lookup_key_sets);
    }
    found
}

/// Whether a target has the identity of `sr`.
fn matches_by_identity(sr: &SourceRow, target_rows: &Vec<TargetRow>, keys: &TargetKeys, Ghost(cm): Ghost<ContextModel>) -> (r: bool)
    requires
        keys.fits(target_rows.deep_view(), cm),
    ensures
        r == identity_hit(sr.identity_keys.deep_view(), target_rows.deep_view()),
{
    let ghost tm = target_rows.deep_view();
    let id_key = json_map_to_key(&sr.identity_keys);
    if id_key.as_str().is_empty() {
        return false;
    }
    let mut t: usize = 0;
    while t < target_rows.len()
        invariant
            t <= target_rows.len(),
            tm == target_rows.deep_view(),
            keys.fits(tm, cm),
            id_key@ == map_key(sr.identity_keys.deep_view()),
            id_key@.len() > 0,
            forall|i: int|
                0 <= i < t ==> map_key(#[trigger] tm[i].identity_keys) != map_key(
                    sr.identity_keys.deep_view(),
                ),
        decreases target_rows.len() - t,
    {
        if same_text(keys.by_identity[t].as_str(), id_key.as_str()) {
            assert(map_key(tm[t as int].identity_keys) == map_key(sr.identity_keys.deep_view()));
            return true;
        }
        t += 1;
    }
    false
}

/// What a row is told that matches the entities at the places `found`.
fn ambiguous_text(target_rows: &Vec<TargetRow>, found: &Vec<usize>) -> (out: String)
    requires
        forall|i: int| 0 <= i < found.len() ==> (#[trigger] found[i]) < target_rows.len(),
    ensures
        out@ == ambiguous_message(identities_at(target_rows.deep_view(), found@)),
{
    let ghost tm = target_rows.deep_view();
    let ghost ids = identities_at(tm, found@);
    let mut parts: Vec<String> = Vec::new();
    let mut i: usize = 0;
    while i < found.len()
        invariant
            i <= found.len(),
            tm == target_rows.deep_view(),
            ids == identities_at(tm, found@),
            forall|j: int| 0 <= j < found.len() ==> (#[trigger] found[j]) < tm.len(),
            parts.len() == i,
            forall|j: int| 0 <= j < i ==> (#[trigger] parts[j])@ == pg_object_text(ids[j]),
        decreases found.len() - i,
    {
        parts.push(json_to_pg_text(&target_rows[found[i]].identity_keys));
        i += 1;
    }
    assert(parts.deep_view() =~= ids.map_values(|m: FieldsModel| pg_object_text(m)));
    let body = join(&parts, ", ");
    let mut out = String::from_str(
        "Source row is ambiguous. It matches multiple distinct target entities: [",
    );
    out.append(body.as_str());
    out.append("]");
    out
}

/// What a row of a new entity is told that has neither identity nor key.
fn unidentifiable_text(ctx: &PlannerContext) -> (out: String)
    ensures
        out@ == unidentifiable_message(ctx.deep_view()),
{
    let ghost cm = ctx.deep_view();
    let mut sets: Vec<String> = Vec::new();
    let mut k: usize = 0;
    while k < ctx.lookup_key_sets.len()
        invariant
            k <= ctx.lookup_key_sets.len(),
            cm == ctx.deep_view(),
            sets.len() == k,
            forall|j: int|
                0 <= j < k ==> (#[trigger] sets[j])@ == key_set_text(cm.lookup_key_sets[j]),
        decreases ctx.lookup_key_sets.len() - k,
    {
        let inner = join(&ctx.lookup_key_sets[k], ", ");
        let mut s = String::from_str("[");
        s.append(inner.as_str());
        s.append("]");
        sets.push(s);
        k += 1;
    }
    assert(sets.deep_view() =~= cm.lookup_key_sets.map_values(
        |ks: Seq<Seq<char>>| key_set_text(ks),
    ));
    let ids = join(&ctx.identity_columns, ", ");
    let all_sets = join(&sets, ", ");
    let mut out = String::from_str(
        "Source row is unidentifiable. It has NULL for all stable identity columns {",
    );
    out.append(ids.as_str());
    out.append("} and all natural keys [");
    out.append(all_sets.as_str());
    out.append("]");
    out
}

fn correlate_row(
    sr: &SourceRow,
    target_rows: &Vec<TargetRow>,
    ctx: &PlannerContext,
    keys: &TargetKeys,
) -> (r: MatchedSourceRow)
    requires
        keys.fits(target_rows.deep_view(), ctx.deep_view()),
    ensures
        r.deep_view() == correlate_one(sr.deep_view(), target_rows.deep_view(), ctx.deep_view()),
{
    let ghost tm = target_rows.deep_view();
    let by_id = matches_by_identity(sr, target_rows, keys, Ghost(ctx.deep_view()));
    let found: Vec<usize> = if !by_id && !sr.lookup_keys.is_empty() && !sr.lookup_cols_are_null {
        matching_targets(sr, target_rows, ctx, keys)
    } else {
        let none: Vec<usize> = Vec::new();
        assert(identities_at(tm, none@) =~= Seq::empty());
        none
    };
    let ghost ids = identities_at(tm, found@);
    let is_new = !by_id && found.len() == 0;
    let discovered: Option<Fields> = if by_id {
        Some(sr.identity_keys.clone())
    } else if found.len() > 0 {
        assert(ids[0] == tm[found[0] as int].identity_keys);
        Some(target_rows[found[0]].identity_keys.clone())
    } else {
        None
    };
    let canonical: Option<Fields> = if found.len() == 1 {
        Some(strip_nulls(&sr.lookup_keys))
    } else {
        None
    };
    let unidentifiable = is_new && !sr.is_identifiable && sr.lookup_cols_are_null
        && !ctx.is_founding_mode() && !matches!(ctx.strategy, IdentityStrategy::IdentityKeyOnly);
    let feedback: Option<EarlyFeedback> = if found.len() > 1 {
        Some(
            EarlyFeedback {
                action: PlanAction::Error,
                message: Some(ambiguous_text(target_rows, &found)),
            },
        )
    } else if unidentifiable {
        Some(EarlyFeedback { action: PlanAction::Error, message: Some(unidentifiable_text(ctx)) })
    } else {
        None
    };
    let grouping_key = build_grouping_key(sr, is_new, &discovered, &canonical, ctx);
    MatchedSourceRow {
        source: sr.clone(),
        is_new_entity: is_new,
        grouping_key,
        discovered_identity: discovered,
        canonical_nk: canonical,
        early_feedback: feedback,
        is_eclipsed: false,
    }
}

/// Matches each source row to the entity of the target that it belongs to,
/// or finds it to be new.
pub fn correlate_entities(
    source_rows: &Vec<SourceRow>,
    target_rows: &Vec<TargetRow>,
    ctx: &PlannerContext,
) -> (matched: Vec<MatchedSourceRow>)
    ensures
        matched.deep_view() == correlated(
            source_rows.deep_view(),
            target_rows.deep_view(),
            ctx.deep_view(),
        ),
{
    let ghost sm = source_rows.deep_view();
    let ghost tm = target_rows.deep_view();
    let ghost cm = ctx.deep_view();
    let keys = target_keys(target_rows, ctx);
    let mut matched: Vec<MatchedSourceRow> = Vec::new();
    let mut i: usize = 0;
    while i < source_rows.len()
        invariant
            i <= source_rows.len(),
            sm == source_rows.deep_view(),
            tm == target_rows.deep_view(),
            cm == ctx.deep_view(),
            keys.fits(tm, cm),
            matched.len() == i,
            forall|j: int|
                0 <= j < i ==> (#[trigger] matched[j]).deep_view() == correlate_one(sm[j], tm, cm),
        decreases source_rows.len() - i,
    {
        matched.push(correlate_row(&source_rows[i], target_rows, ctx, &keys));
        i += 1;
    }
    assert(matched.deep_view() =~= correlated(sm, tm, cm));
    matched
}

} // verus!
