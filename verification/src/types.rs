use crate::interval::{AllenRelation, Bound, BoundModel, UpdateEffect};
use crate::text::same_text;
use crate::value::{Fields, FieldsModel};
use vstd::prelude::*;

verus! {

/// What a merge does with the rows of the source.
#[derive(Debug, Clone, Copy, PartialEq, Eq, Hash, Structural)]
pub enum MergeMode {
    MergeEntityUpsert,
    UpdateForPortionOf,
    MergeEntityPatch,
    PatchForPortionOf,
    MergeEntityReplace,
    ReplaceForPortionOf,
    InsertNewEntities,
    DeleteForPortionOf,
}

/// The mode that a name stands for.
pub open spec fn merge_mode_of(s: Seq<char>) -> Option<MergeMode> {
    if s == "MERGE_ENTITY_UPSERT"@ {
        Some(MergeMode::MergeEntityUpsert)
    } else if s == "UPDATE_FOR_PORTION_OF"@ {
        Some(MergeMode::UpdateForPortionOf)
    } else if s == "MERGE_ENTITY_PATCH"@ {
        Some(MergeMode::MergeEntityPatch)
    } else if s == "PATCH_FOR_PORTION_OF"@ {
        Some(MergeMode::PatchForPortionOf)
    } else if s == "MERGE_ENTITY_REPLACE"@ {
        Some(MergeMode::MergeEntityReplace)
    } else if s == "REPLACE_FOR_PORTION_OF"@ {
        Some(MergeMode::ReplaceForPortionOf)
    } else if s == "INSERT_NEW_ENTITIES"@ {
        Some(MergeMode::InsertNewEntities)
    } else if s == "DELETE_FOR_PORTION_OF"@ {
        Some(MergeMode::DeleteForPortionOf)
    } else {
        None
    }
}

impl MergeMode {
    pub fn from_str(s: &str) -> (r: Option<Self>)
        ensures
            r == merge_mode_of(s@),
    {
        if same_text(s, "MERGE_ENTITY_UPSERT") {
            Some(Self::MergeEntityUpsert)
        } else if same_text(s, "UPDATE_FOR_PORTION_OF") {
            Some(Self::UpdateForPortionOf)
        } else if same_text(s, "MERGE_ENTITY_PATCH") {
            Some(Self::MergeEntityPatch)
        } else if same_text(s, "PATCH_FOR_PORTION_OF") {
            Some(Self::PatchForPortionOf)
        } else if same_text(s, "MERGE_ENTITY_REPLACE") {
            Some(Self::MergeEntityReplace)
        } else if same_text(s, "REPLACE_FOR_PORTION_OF") {
            Some(Self::ReplaceForPortionOf)
        } else if same_text(s, "INSERT_NEW_ENTITIES") {
            Some(Self::InsertNewEntities)
        } else if same_text(s, "DELETE_FOR_PORTION_OF") {
            Some(Self::DeleteForPortionOf)
        } else {
            None
        }
    }

    /// NULLs of the source never overwrite.
    #[verifier::when_used_as_spec(spec_is_patch)]
    pub fn is_patch(&self) -> (r: bool)
        ensures
            r == self.spec_is_patch(),
    {
        matches!(self, Self::MergeEntityPatch | Self::PatchForPortionOf)
    }

    pub open spec fn spec_is_patch(&self) -> bool {
        *self is MergeEntityPatch || *self is PatchForPortionOf
    }

    #[verifier::when_used_as_spec(spec_is_replace)]
    pub fn is_replace(&self) -> (r: bool)
        ensures
            r == self.spec_is_replace(),
    {
        matches!(self, Self::MergeEntityReplace | Self::ReplaceForPortionOf)
    }

    pub open spec fn spec_is_replace(&self) -> bool {
        *self is MergeEntityReplace || *self is ReplaceForPortionOf
    }

    /// Only the last source row that covers a segment is recorded for it.
    #[verifier::when_used_as_spec(spec_is_last_writer_wins)]
    pub fn is_last_writer_wins(&self) -> (r: bool)
        ensures
            r == self.spec_is_last_writer_wins(),
    {
        matches!(
            self,
            Self::MergeEntityReplace | Self::ReplaceForPortionOf | Self::InsertNewEntities
                | Self::DeleteForPortionOf
        )
    }

    pub open spec fn spec_is_last_writer_wins(&self) -> bool {
        *self is MergeEntityReplace || *self is ReplaceForPortionOf || *self is InsertNewEntities
            || *self is DeleteForPortionOf
    }

    /// The merge touches only what the target already holds.
    #[verifier::when_used_as_spec(spec_is_for_portion_of)]
    pub fn is_for_portion_of(&self) -> (r: bool)
        ensures
            r == self.spec_is_for_portion_of(),
    {
        matches!(
            self,
            Self::UpdateForPortionOf | Self::PatchForPortionOf | Self::ReplaceForPortionOf
                | Self::DeleteForPortionOf
        )
    }

    pub open spec fn spec_is_for_portion_of(&self) -> bool {
        *self is UpdateForPortionOf || *self is PatchForPortionOf || *self is ReplaceForPortionOf
            || *self is DeleteForPortionOf
    }

    #[verifier::when_used_as_spec(spec_is_entity_scope)]
    pub fn is_entity_scope(&self) -> (r: bool)
        ensures
            r == self.spec_is_entity_scope(),
    {
        matches!(
            self,
            Self::MergeEntityUpsert | Self::MergeEntityPatch | Self::MergeEntityReplace
                | Self::InsertNewEntities
        )
    }

    pub open spec fn spec_is_entity_scope(&self) -> bool {
        *self is MergeEntityUpsert || *self is MergeEntityPatch || *self is MergeEntityReplace
            || *self is InsertNewEntities
    }
}

/// What a merge deletes of the target that the source does not mention.
#[derive(Debug, Clone, Copy, PartialEq, Eq, Hash, Structural)]
pub enum DeleteMode {
    /// Nothing is deleted; written `NONE`.
    Nothing,
    DeleteMissingTimeline,
    DeleteMissingEntities,
    DeleteMissingTimelineAndEntities,
}

/// The mode that a name stands for.
pub open spec fn delete_mode_of(s: Seq<char>) -> Option<DeleteMode> {
    if s == "NONE"@ {
        Some(DeleteMode::Nothing)
    } else if s == "DELETE_MISSING_TIMELINE"@ {
        Some(DeleteMode::DeleteMissingTimeline)
    } else if s == "DELETE_MISSING_ENTITIES"@ {
        Some(DeleteMode::DeleteMissingEntities)
    } else if s == "DELETE_MISSING_TIMELINE_AND_ENTITIES"@ {
        Some(DeleteMode::DeleteMissingTimelineAndEntities)
    } else {
        None
    }
}

impl DeleteMode {
    pub fn from_str(s: &str) -> (r: Option<Self>)
        ensures
            r == delete_mode_of(s@),
    {
        if same_text(s, "NONE") {
            Some(Self::Nothing)
        } else if same_text(s, "DELETE_MISSING_TIMELINE") {
            Some(Self::DeleteMissingTimeline)
        } else if same_text(s, "DELETE_MISSING_ENTITIES") {
            Some(Self::DeleteMissingEntities)
        } else if same_text(s, "DELETE_MISSING_TIMELINE_AND_ENTITIES") {
            Some(Self::DeleteMissingTimelineAndEntities)
        } else {
            None
        }
    }

    /// Entities of the target that no source row belongs to are deleted.
    #[verifier::when_used_as_spec(spec_deletes_entities)]
    pub fn deletes_entities(&self) -> (r: bool)
        ensures
            r == self.spec_deletes_entities(),
    {
        matches!(self, Self::DeleteMissingEntities | Self::DeleteMissingTimelineAndEntities)
    }

    pub open spec fn spec_deletes_entities(&self) -> bool {
        *self is DeleteMissingEntities || *self is DeleteMissingTimelineAndEntities
    }

    /// Of an entity with source rows, what the source leaves uncovered is deleted.
    #[verifier::when_used_as_spec(spec_deletes_timeline)]
    pub fn deletes_timeline(&self) -> (r: bool)
        ensures
            r == self.spec_deletes_timeline(),
    {
        matches!(self, Self::DeleteMissingTimeline | Self::DeleteMissingTimelineAndEntities)
    }

    pub open spec fn spec_deletes_timeline(&self) -> bool {
        *self is DeleteMissingTimeline || *self is DeleteMissingTimelineAndEntities
    }
}

/// The operation of one row of the plan.
#[derive(Debug, Clone, Copy, PartialEq, Eq, Structural)]
pub enum PlanAction {
    Delete,
    Update,
    Insert,
    SkipIdentical,
    SkipNoTarget,
    SkipFiltered,
    SkipEclipsed,
    Error,
}

/// The name of an operation.
pub open spec fn action_name(a: PlanAction) -> Seq<char> {
    match a {
        PlanAction::Insert => "INSERT"@,
        PlanAction::Update => "UPDATE"@,
        PlanAction::Delete => "DELETE"@,
        PlanAction::SkipIdentical => "SKIP_IDENTICAL"@,
        PlanAction::SkipNoTarget => "SKIP_NO_TARGET"@,
        PlanAction::SkipFiltered => "SKIP_FILTERED"@,
        PlanAction::SkipEclipsed => "SKIP_ECLIPSED"@,
        PlanAction::Error => "ERROR"@,
    }
}

impl PlanAction {
    pub fn as_str(&self) -> (r: &'static str)
        ensures
            r@ == action_name(*self),
    {
        match self {
            Self::Insert => "INSERT",
            Self::Update => "UPDATE",
            Self::Delete => "DELETE",
            Self::SkipIdentical => "SKIP_IDENTICAL",
            Self::SkipNoTarget => "SKIP_NO_TARGET",
            Self::SkipFiltered => "SKIP_FILTERED",
            Self::SkipEclipsed => "SKIP_ECLIPSED",
            Self::Error => "ERROR",
        }
    }

    /// The operation changes the table.
    #[verifier::when_used_as_spec(spec_is_dml)]
    pub fn is_dml(&self) -> (r: bool)
        ensures
            r == self.spec_is_dml(),
    {
        matches!(self, Self::Insert | Self::Update | Self::Delete)
    }

    pub open spec fn spec_is_dml(&self) -> bool {
        *self is Insert || *self is Update || *self is Delete
    }
}

/// Which keys a configuration has to tell entities apart.
#[derive(Debug, Clone, Copy, PartialEq, Eq, Structural)]
pub enum IdentityStrategy {
    Hybrid,
    IdentityKeyOnly,
    LookupKeyOnly,
    Undefined,
}

/// The validity-tracking configuration of a table.
#[derive(Debug, Clone)]
pub struct EraMetadata {
    pub range_col: String,
    pub valid_from_col: String,
    pub valid_until_col: String,
    pub valid_to_col: Option<String>,
    pub range_type: String,
    pub multirange_type: String,
    pub range_subtype: String,
    pub range_subtype_category: char,
    pub ephemeral_columns: Vec<String>,
}

/// All that planning reads of a configuration.
#[derive(Debug, Clone)]
pub struct PlannerContext {
    pub mode: MergeMode,
    pub delete_mode: DeleteMode,
    pub era: EraMetadata,
    pub identity_columns: Vec<String>,
    pub all_lookup_cols: Vec<String>,
    /// The natural key sets, each of which alone can find an entity.
    pub lookup_key_sets: Vec<Vec<String>>,
    pub original_entity_key_cols: Vec<String>,
    pub original_entity_segment_key_cols: Vec<String>,
    pub temporal_cols: Vec<String>,
    pub pk_cols: Vec<String>,
    pub strategy: IdentityStrategy,
    pub ephemeral_columns: Vec<String>,
    pub founding_id_column: Option<String>,
    pub row_id_column: String,
    pub log_trace: bool,
    /// Columns whose NULL in the source leaves the target's value in place.
    pub exclude_if_null_columns: Vec<String>,
}

/// What planning reads of a [`PlannerContext`].
pub struct ContextModel {
    pub mode: MergeMode,
    pub delete_mode: DeleteMode,
    pub numeric: bool,
    pub valid_to_col: Option<Seq<char>>,
    pub identity_columns: Seq<Seq<char>>,
    pub all_lookup_cols: Seq<Seq<char>>,
    pub lookup_key_sets: Seq<Seq<Seq<char>>>,
    pub strategy: IdentityStrategy,
    pub founding: bool,
    pub exclude_if_null: Seq<Seq<char>>,
}

impl DeepView for PlannerContext {
    type V = ContextModel;

    open spec fn deep_view(&self) -> ContextModel {
        ContextModel {
            mode: self.mode,
            delete_mode: self.delete_mode,
            numeric: self.era.range_subtype_category == 'N',
            valid_to_col: self.era.valid_to_col.deep_view(),
            identity_columns: self.identity_columns.deep_view(),
            all_lookup_cols: self.all_lookup_cols.deep_view(),
            lookup_key_sets: self.lookup_key_sets.deep_view(),
            strategy: self.strategy,
            founding: self.founding_id_column is Some,
            exclude_if_null: self.exclude_if_null_columns.deep_view(),
        }
    }
}

impl PlannerContext {
    /// Source rows of one founding id make one new entity.
    pub fn is_founding_mode(&self) -> (r: bool)
        ensures
            r == self.deep_view().founding,
    {
        self.founding_id_column.is_some()
    }

    /// The bounds of the era are ordered by their numeric value.
    pub fn is_numeric(&self) -> (r: bool)
        ensures
            r == self.deep_view().numeric,
    {
        self.era.range_subtype_category == 'N'
    }
}

/// One row of the source batch.
#[derive(Debug, PartialEq, Eq)]
pub struct SourceRow {
    pub row_id: i64,
    pub causal_id: String,
    pub valid_from: Bound,
    pub valid_until: Bound,
    pub identity_keys: Fields,
    pub lookup_keys: Fields,
    pub data_payload: Fields,
    pub ephemeral_payload: Fields,
    pub stable_pk_payload: Fields,
    pub is_identifiable: bool,
    pub lookup_cols_are_null: bool,
}

pub struct SourceRowModel {
    pub row_id: i64,
    pub causal_id: Seq<char>,
    pub valid_from: BoundModel,
    pub valid_until: BoundModel,
    pub identity_keys: FieldsModel,
    pub lookup_keys: FieldsModel,
    pub data_payload: FieldsModel,
    pub ephemeral_payload: FieldsModel,
    pub stable_pk_payload: FieldsModel,
    pub is_identifiable: bool,
    pub lookup_cols_are_null: bool,
}

impl DeepView for SourceRow {
    type V = SourceRowModel;

    open spec fn deep_view(&self) -> SourceRowModel {
        SourceRowModel {
            row_id: self.row_id,
            causal_id: self.causal_id@,
            valid_from: self.valid_from.deep_view(),
            valid_until: self.valid_until.deep_view(),
            identity_keys: self.identity_keys.deep_view(),
            lookup_keys: self.lookup_keys.deep_view(),
            data_payload: self.data_payload.deep_view(),
            ephemeral_payload: self.ephemeral_payload.deep_view(),
            stable_pk_payload: self.stable_pk_payload.deep_view(),
            is_identifiable: self.is_identifiable,
            lookup_cols_are_null: self.lookup_cols_are_null,
        }
    }
}

impl Clone for SourceRow {
    fn clone(&self) -> (r: Self)
        ensures
            r.deep_view() == self.deep_view(),
    {
        SourceRow {
            row_id: self.row_id,
            causal_id: self.causal_id.clone(),
            valid_from: self.valid_from.clone(),
            valid_until: self.valid_until.clone(),
            identity_keys: self.identity_keys.clone(),
            lookup_keys: self.lookup_keys.clone(),
            data_payload: self.data_payload.clone(),
            ephemeral_payload: self.ephemeral_payload.clone(),
            stable_pk_payload: self.stable_pk_payload.clone(),
            is_identifiable: self.is_identifiable,
            lookup_cols_are_null: self.lookup_cols_are_null,
        }
    }
}

/// One version row of one entity of the target.
#[derive(Debug, PartialEq, Eq)]
pub struct TargetRow {
    pub valid_from: Bound,
    pub valid_until: Bound,
    pub identity_keys: Fields,
    pub lookup_keys: Fields,
    pub data_payload: Fields,
    pub ephemeral_payload: Fields,
    /// Columns of the primary key that are neither identity, lookup nor temporal.
    pub pk_payload: Fields,
}

pub struct TargetRowModel {
    pub valid_from: BoundModel,
    pub valid_until: BoundModel,
    pub identity_keys: FieldsModel,
    pub lookup_keys: FieldsModel,
    pub data_payload: FieldsModel,
    pub ephemeral_payload: FieldsModel,
    pub pk_payload: FieldsModel,
}

impl DeepView for TargetRow {
    type V = TargetRowModel;

    open spec fn deep_view(&self) -> TargetRowModel {
        TargetRowModel {
            valid_from: self.valid_from.deep_view(),
            valid_until: self.valid_until.deep_view(),
            identity_keys: self.identity_keys.deep_view(),
            lookup_keys: self.lookup_keys.deep_view(),
            data_payload: self.data_payload.deep_view(),
            ephemeral_payload: self.ephemeral_payload.deep_view(),
            pk_payload: self.pk_payload.deep_view(),
        }
    }
}

impl Clone for TargetRow {
    fn clone(&self) -> (r: Self)
        ensures
            r.deep_view() == self.deep_view(),
    {
        TargetRow {
            valid_from: self.valid_from.clone(),
            valid_until: self.valid_until.clone(),
            identity_keys: self.identity_keys.clone(),
            lookup_keys: self.lookup_keys.clone(),
            data_payload: self.data_payload.clone(),
            ephemeral_payload: self.ephemeral_payload.clone(),
            pk_payload: self.pk_payload.clone(),
        }
    }
}

/// Why a source row gets a row of the plan without being planned.
#[derive(Debug, PartialEq, Eq)]
pub struct EarlyFeedback {
    pub action: PlanAction,
    pub message: Option<String>,
}

pub struct EarlyFeedbackModel {
    pub action: PlanAction,
    pub message: Option<Seq<char>>,
}

impl DeepView for EarlyFeedback {
    type V = EarlyFeedbackModel;

    open spec fn deep_view(&self) -> EarlyFeedbackModel {
        EarlyFeedbackModel { action: self.action, message: self.message.deep_view() }
    }
}

impl Clone for EarlyFeedback {
    fn clone(&self) -> (r: Self)
        ensures
            r.deep_view() == self.deep_view(),
    {
        EarlyFeedback { action: self.action, message: self.message.clone() }
    }
}

/// A source row with what correlation found out about it.
#[derive(Debug, PartialEq, Eq)]
pub struct MatchedSourceRow {
    pub source: SourceRow,
    pub is_new_entity: bool,
    pub grouping_key: String,
    /// The identity of the target entity that the row matched.
    pub discovered_identity: Option<Fields>,
    /// The natural key of the entity, NULLs left out.
    pub canonical_nk: Option<Fields>,
    pub early_feedback: Option<EarlyFeedback>,
    pub is_eclipsed: bool,
}

pub struct MatchedModel {
    pub source: SourceRowModel,
    pub is_new_entity: bool,
    pub grouping_key: Seq<char>,
    pub discovered_identity: Option<FieldsModel>,
    pub canonical_nk: Option<FieldsModel>,
    pub early_feedback: Option<EarlyFeedbackModel>,
    pub is_eclipsed: bool,
}

impl DeepView for MatchedSourceRow {
    type V = MatchedModel;

    open spec fn deep_view(&self) -> MatchedModel {
        MatchedModel {
            source: self.source.deep_view(),
            is_new_entity: self.is_new_entity,
            grouping_key: self.grouping_key@,
            discovered_identity: self.discovered_identity.deep_view(),
            canonical_nk: self.canonical_nk.deep_view(),
            early_feedback: self.early_feedback.deep_view(),
            is_eclipsed: self.is_eclipsed,
        }
    }
}

impl Clone for MatchedSourceRow {
    fn clone(&self) -> (r: Self)
        ensures
            r.deep_view() == self.deep_view(),
    {
        MatchedSourceRow {
            source: self.source.clone(),
            is_new_entity: self.is_new_entity,
            grouping_key: self.grouping_key.clone(),
            discovered_identity: clone_fields(&self.discovered_identity),
            canonical_nk: clone_fields(&self.canonical_nk),
            early_feedback: match &self.early_feedback {
                Some(f) => Some(f.clone()),
                None => None,
            },
            is_eclipsed: self.is_eclipsed,
        }
    }
}

/// A copy of fields that may be absent.
pub fn clone_fields(f: &Option<Fields>) -> (r: Option<Fields>)
    ensures
        r.deep_view() == f.deep_view(),
{
    match f {
        Some(x) => Some(x.clone()),
        None => None,
    }
}

/// A copy of a bound that may be absent.
pub fn clone_bound(b: &Option<Bound>) -> (r: Option<Bound>)
    ensures
        r.deep_view() == b.deep_view(),
{
    match b {
        Some(x) => Some(x.clone()),
        None => None,
    }
}

/// A copy of a text that may be absent.
pub fn clone_text(t: &Option<String>) -> (r: Option<String>)
    ensures
        r.deep_view() == t.deep_view(),
{
    match t {
        Some(x) => Some(x.clone()),
        None => None,
    }
}

/// A copy of a list of row ids.
pub fn clone_ids(v: &Vec<i64>) -> (r: Vec<i64>)
    ensures
        r@ == v@,
{
    let mut r: Vec<i64> = Vec::new();
    let mut i: usize = 0;
    while i < v.len()
        invariant
            i <= v.len(),
            r@ == v@.take(i as int),
        decreases v.len() - i,
    {
        r.push(v[i]);
        assert(v@.take(i + 1) =~= v@.take(i as int).push(v@[i as int]));
        i += 1;
    }
    assert(v@.take(v.len() as int) =~= v@);
    r
}

/// The rows of one entity.
#[derive(Debug, PartialEq, Eq)]
pub struct EntityGroup {
    pub grouping_key: String,
    pub is_new_entity: bool,
    pub identity_keys: Fields,
    pub source_rows: Vec<MatchedSourceRow>,
    pub target_rows: Vec<TargetRow>,
}

pub struct GroupModel {
    pub grouping_key: Seq<char>,
    pub is_new_entity: bool,
    pub identity_keys: FieldsModel,
    pub source_rows: Seq<MatchedModel>,
    pub target_rows: Seq<TargetRowModel>,
}

impl DeepView for EntityGroup {
    type V = GroupModel;

    open spec fn deep_view(&self) -> GroupModel {
        GroupModel {
            grouping_key: self.grouping_key@,
            is_new_entity: self.is_new_entity,
            identity_keys: self.identity_keys.deep_view(),
            source_rows: self.source_rows.deep_view(),
            target_rows: self.target_rows.deep_view(),
        }
    }
}

/// A stretch of time between two neighbouring bounds of one entity.
#[derive(Debug, PartialEq, Eq)]
pub struct AtomicSegment {
    pub grouping_key: String,
    pub valid_from: Bound,
    pub valid_until: Bound,
    pub is_new_entity: bool,
    pub identity_keys: Fields,
    pub causal_id: Option<String>,
}

pub struct AtomicSegmentModel {
    pub grouping_key: Seq<char>,
    pub valid_from: BoundModel,
    pub valid_until: BoundModel,
    pub is_new_entity: bool,
    pub identity_keys: FieldsModel,
    pub causal_id: Option<Seq<char>>,
}

impl DeepView for AtomicSegment {
    type V = AtomicSegmentModel;

    open spec fn deep_view(&self) -> AtomicSegmentModel {
        AtomicSegmentModel {
            grouping_key: self.grouping_key@,
            valid_from: self.valid_from.deep_view(),
            valid_until: self.valid_until.deep_view(),
            is_new_entity: self.is_new_entity,
            identity_keys: self.identity_keys.deep_view(),
            causal_id: self.causal_id.deep_view(),
        }
    }
}

/// An atomic segment with the payload that holds in it.
#[derive(Debug, PartialEq, Eq)]
pub struct ResolvedSegment {
    pub grouping_key: String,
    pub valid_from: Bound,
    pub valid_until: Bound,
    pub is_new_entity: bool,
    pub identity_keys: Fields,
    pub causal_id: Option<String>,
    pub row_ids: Vec<i64>,
    pub source_valid_from: Option<Bound>,
    pub source_valid_until: Option<Bound>,
    pub target_valid_from: Option<Bound>,
    pub target_valid_until: Option<Bound>,
    pub data_payload: Option<Fields>,
    pub ephemeral_payload: Option<Fields>,
    pub target_data_payload: Option<Fields>,
    pub data_hash: Option<String>,
    pub has_source_coverage: bool,
    pub has_target_coverage: bool,
    /// How the covering source rows lie to the covering target row.
    pub s_t_relation: Option<AllenRelation>,
}

pub struct ResolvedSegmentModel {
    pub grouping_key: Seq<char>,
    pub valid_from: BoundModel,
    pub valid_until: BoundModel,
    pub is_new_entity: bool,
    pub identity_keys: FieldsModel,
    pub causal_id: Option<Seq<char>>,
    pub row_ids: Seq<i64>,
    pub source_valid_from: Option<BoundModel>,
    pub source_valid_until: Option<BoundModel>,
    pub target_valid_from: Option<BoundModel>,
    pub target_valid_until: Option<BoundModel>,
    pub data_payload: Option<FieldsModel>,
    pub ephemeral_payload: Option<FieldsModel>,
    pub target_data_payload: Option<FieldsModel>,
    pub data_hash: Option<Seq<char>>,
    pub has_source_coverage: bool,
    pub has_target_coverage: bool,
    pub s_t_relation: Option<AllenRelation>,
}

impl DeepView for ResolvedSegment {
    type V = ResolvedSegmentModel;

    open spec fn deep_view(&self) -> ResolvedSegmentModel {
        ResolvedSegmentModel {
            grouping_key: self.grouping_key@,
            valid_from: self.valid_from.deep_view(),
            valid_until: self.valid_until.deep_view(),
            is_new_entity: self.is_new_entity,
            identity_keys: self.identity_keys.deep_view(),
            causal_id: self.causal_id.deep_view(),
            row_ids: self.row_ids@,
            source_valid_from: self.source_valid_from.deep_view(),
            source_valid_until: self.source_valid_until.deep_view(),
            target_valid_from: self.target_valid_from.deep_view(),
            target_valid_until: self.target_valid_until.deep_view(),
            data_payload: self.data_payload.deep_view(),
            ephemeral_payload: self.ephemeral_payload.deep_view(),
            target_data_payload: self.target_data_payload.deep_view(),
            data_hash: self.data_hash.deep_view(),
            has_source_coverage: self.has_source_coverage,
            has_target_coverage: self.has_target_coverage,
            s_t_relation: self.s_t_relation,
        }
    }
}

/// A longest run of neighbouring segments of equal content.
#[derive(Debug, PartialEq, Eq)]
pub struct CoalescedSegment {
    pub grouping_key: String,
    pub valid_from: Bound,
    pub valid_until: Bound,
    pub is_new_entity: bool,
    pub identity_keys: Fields,
    pub causal_id: Option<String>,
    pub row_ids: Vec<i64>,
    pub data_payload: Option<Fields>,
    pub ephemeral_payload: Option<Fields>,
    /// Start of the target row that the run comes from.
    pub ancestor_valid_from: Option<Bound>,
    pub data_hash: Option<String>,
    pub has_source_coverage: bool,
    pub has_target_coverage: bool,
    pub s_t_relation: Option<AllenRelation>,
}

pub struct CoalescedSegmentModel {
    pub grouping_key: Seq<char>,
    pub valid_from: BoundModel,
    pub valid_until: BoundModel,
    pub is_new_entity: bool,
    pub identity_keys: FieldsModel,
    pub causal_id: Option<Seq<char>>,
    pub row_ids: Seq<i64>,
    pub data_payload: Option<FieldsModel>,
    pub ephemeral_payload: Option<FieldsModel>,
    pub ancestor_valid_from: Option<BoundModel>,
    pub data_hash: Option<Seq<char>>,
    pub has_source_coverage: bool,
    pub has_target_coverage: bool,
    pub s_t_relation: Option<AllenRelation>,
}

impl DeepView for CoalescedSegment {
    type V = CoalescedSegmentModel;

    open spec fn deep_view(&self) -> CoalescedSegmentModel {
        CoalescedSegmentModel {
            grouping_key: self.grouping_key@,
            valid_from: self.valid_from.deep_view(),
            valid_until: self.valid_until.deep_view(),
            is_new_entity: self.is_new_entity,
            identity_keys: self.identity_keys.deep_view(),
            causal_id: self.causal_id.deep_view(),
            row_ids: self.row_ids@,
            data_payload: self.data_payload.deep_view(),
            ephemeral_payload: self.ephemeral_payload.deep_view(),
            ancestor_valid_from: self.ancestor_valid_from.deep_view(),
            data_hash: self.data_hash.deep_view(),
            has_source_coverage: self.has_source_coverage,
            has_target_coverage: self.has_target_coverage,
            s_t_relation: self.s_t_relation,
        }
    }
}

/// A coalesced segment beside the target row it comes from, or one of the
/// two alone.
#[derive(Debug, PartialEq, Eq)]
pub struct DiffRow {
    pub grouping_key: String,
    pub is_new_entity: bool,
    pub identity_keys: Fields,
    pub causal_id: Option<String>,
    pub row_ids: Vec<i64>,
    pub final_valid_from: Option<Bound>,
    pub final_valid_until: Option<Bound>,
    pub final_payload: Option<Fields>,
    pub target_valid_from: Option<Bound>,
    pub target_valid_until: Option<Bound>,
    pub target_payload: Option<Fields>,
    pub ephemeral_payload: Option<Fields>,
    pub has_source_coverage: bool,
    pub s_t_relation: Option<AllenRelation>,
    pub target_ephemeral: Option<Fields>,
    pub target_lookup_keys: Option<Fields>,
    pub target_pk_payload: Option<Fields>,
}

pub struct DiffRowModel {
    pub grouping_key: Seq<char>,
    pub is_new_entity: bool,
    pub identity_keys: FieldsModel,
    pub causal_id: Option<Seq<char>>,
    pub row_ids: Seq<i64>,
    pub final_valid_from: Option<BoundModel>,
    pub final_valid_until: Option<BoundModel>,
    pub final_payload: Option<FieldsModel>,
    pub target_valid_from: Option<BoundModel>,
    pub target_valid_until: Option<BoundModel>,
    pub target_payload: Option<FieldsModel>,
    pub ephemeral_payload: Option<FieldsModel>,
    pub has_source_coverage: bool,
    pub s_t_relation: Option<AllenRelation>,
    pub target_ephemeral: Option<FieldsModel>,
    pub target_lookup_keys: Option<FieldsModel>,
    pub target_pk_payload: Option<FieldsModel>,
}

impl DeepView for DiffRow {
    type V = DiffRowModel;

    open spec fn deep_view(&self) -> DiffRowModel {
        DiffRowModel {
            grouping_key: self.grouping_key@,
            is_new_entity: self.is_new_entity,
            identity_keys: self.identity_keys.deep_view(),
            causal_id: self.causal_id.deep_view(),
            row_ids: self.row_ids@,
            final_valid_from: self.final_valid_from.deep_view(),
            final_valid_until: self.final_valid_until.deep_view(),
            final_payload: self.final_payload.deep_view(),
            target_valid_from: self.target_valid_from.deep_view(),
            target_valid_until: self.target_valid_until.deep_view(),
            target_payload: self.target_payload.deep_view(),
            ephemeral_payload: self.ephemeral_payload.deep_view(),
            has_source_coverage: self.has_source_coverage,
            s_t_relation: self.s_t_relation,
            target_ephemeral: self.target_ephemeral.deep_view(),
            target_lookup_keys: self.target_lookup_keys.deep_view(),
            target_pk_payload: self.target_pk_payload.deep_view(),
        }
    }
}

/// What a row of the plan tells whoever sent the source row.
#[derive(Debug, PartialEq, Eq)]
pub enum Feedback {
    /// The row could not be planned; the text says why.
    Error(String),
    /// The row was left out on purpose; the text says so.
    Info(String),
}

pub enum FeedbackModel {
    Error(Seq<char>),
    Info(Seq<char>),
}

impl DeepView for Feedback {
    type V = FeedbackModel;

    open spec fn deep_view(&self) -> FeedbackModel {
        match self {
            Feedback::Error(t) => FeedbackModel::Error(t@),
            Feedback::Info(t) => FeedbackModel::Info(t@),
        }
    }
}

/// One row of the plan.
#[derive(Debug, PartialEq, Eq)]
pub struct PlanRow {
    pub plan_op_seq: i64,
    pub statement_seq: i32,
    pub row_ids: Vec<i64>,
    pub operation: PlanAction,
    pub update_effect: Option<UpdateEffect>,
    pub causal_id: Option<String>,
    pub is_new_entity: bool,
    pub entity_keys: Option<Fields>,
    pub identity_keys: Option<Fields>,
    pub lookup_keys: Option<Fields>,
    pub s_t_relation: Option<AllenRelation>,
    pub b_a_relation: Option<AllenRelation>,
    pub old_valid_from: Option<Bound>,
    pub old_valid_until: Option<Bound>,
    pub new_valid_from: Option<Bound>,
    pub new_valid_until: Option<Bound>,
    pub old_valid_range: Option<String>,
    pub new_valid_range: Option<String>,
    pub data: Option<Fields>,
    pub feedback: Option<Feedback>,
    pub trace: Option<Fields>,
    pub grouping_key: String,
}

pub struct PlanRowModel {
    pub plan_op_seq: i64,
    pub statement_seq: i32,
    pub row_ids: Seq<i64>,
    pub operation: PlanAction,
    pub update_effect: Option<UpdateEffect>,
    pub causal_id: Option<Seq<char>>,
    pub is_new_entity: bool,
    pub entity_keys: Option<FieldsModel>,
    pub identity_keys: Option<FieldsModel>,
    pub lookup_keys: Option<FieldsModel>,
    pub s_t_relation: Option<AllenRelation>,
    pub b_a_relation: Option<AllenRelation>,
    pub old_valid_from: Option<BoundModel>,
    pub old_valid_until: Option<BoundModel>,
    pub new_valid_from: Option<BoundModel>,
    pub new_valid_until: Option<BoundModel>,
    pub old_valid_range: Option<Seq<char>>,
    pub new_valid_range: Option<Seq<char>>,
    pub data: Option<FieldsModel>,
    pub feedback: Option<FeedbackModel>,
    pub trace: Option<FieldsModel>,
    pub grouping_key: Seq<char>,
}

impl DeepView for PlanRow {
    type V = PlanRowModel;

    open spec fn deep_view(&self) -> PlanRowModel {
        PlanRowModel {
            plan_op_seq: self.plan_op_seq,
            statement_seq: self.statement_seq,
            row_ids: self.row_ids@,
            operation: self.operation,
            update_effect: self.update_effect,
            causal_id: self.causal_id.deep_view(),
            is_new_entity: self.is_new_entity,
            entity_keys: self.entity_keys.deep_view(),
            identity_keys: self.identity_keys.deep_view(),
            lookup_keys: self.lookup_keys.deep_view(),
            s_t_relation: self.s_t_relation,
            b_a_relation: self.b_a_relation,
            old_valid_from: self.old_valid_from.deep_view(),
            old_valid_until: self.old_valid_until.deep_view(),
            new_valid_from: self.new_valid_from.deep_view(),
            new_valid_until: self.new_valid_until.deep_view(),
            old_valid_range: self.old_valid_range.deep_view(),
            new_valid_range: self.new_valid_range.deep_view(),
            data: self.data.deep_view(),
            feedback: self.feedback.deep_view(),
            trace: self.trace.deep_view(),
            grouping_key: self.grouping_key@,
        }
    }
}

/// The role of a column in the rows that are read.
#[derive(Debug, Clone, Copy, PartialEq, Eq, Structural)]
pub enum ColCategory {
    Identity,
    Lookup,
    Data,
    Ephemeral,
    /// A column of the primary key that is neither identity, lookup,
    /// temporal nor ephemeral.
    StablePk,
}

/// One column of the list that a read selects.
#[derive(Debug, Clone)]
pub struct ColMapping {
    pub col_name: String,
    pub category: ColCategory,
    pub pg_type: String,
}

/// One parameter of the filter by which the target is read.
#[derive(Debug, Clone)]
pub struct FilterParam {
    pub col_name: String,
    pub pg_type: String,
    /// Index of the parameter, counted from 1.
    pub param_index: usize,
    pub is_identity: bool,
    /// Columns of one key set share this number.
    pub key_set_id: usize,
}

/// What is kept of one configuration between calls.
#[derive(Debug, Clone)]
pub struct CachedState {
    pub cache_key: u64,
    pub ctx: PlannerContext,
    pub target_ident: String,
    pub source_sql_template: String,
    pub target_sql_template: String,
    pub source_col_layout: Vec<ColMapping>,
    pub target_col_layout: Vec<ColMapping>,
    pub target_filter_params: Option<Vec<FilterParam>>,
    pub source_cols_hash: u64,
    pub source_oid: u32,
}

} // verus!
