//! The operations of the write-ahead log.
//!
//! Real-valued quantities (weights, strengths, embeddings) are carried as the bit patterns of
//! their single-precision encodings.
use vstd::prelude::*;

verus! {

pub type MemoryId = u64;

pub type InstanceId = u32;

pub type ArtifactId = u64;

/// Fingerprint of a memory's content chunk.
pub type ChunkHash = u128;

/// The kind of an association edge.
#[derive(Clone, Copy, Debug, PartialEq, Eq, Structural)]
pub enum EdgeType {
    DerivedFrom,
    SameSession,
    SameArtifact,
    CoRetrieved,
    Supports,
    Contradicts,
    SemanticNeighbor,
}

pub struct ArtifactRef {
    pub artifact_id: ArtifactId,
}

pub struct PutPayloadOp {
    pub memory_id: MemoryId,
    pub version: u64,
    pub chunk_hash: ChunkHash,
    pub kind: String,
    pub realm: String,
    pub content: Vec<u8>,
    pub embedding: Vec<u32>,
    pub artifact_refs: Vec<ArtifactRef>,
    pub created_at_ms: i64,
    /// Zero when the author's clock was not recorded.
    pub authored_at_ms: i64,
}

/// A change to a memory's state.
pub struct StateDeltaOp {
    pub memory_id: MemoryId,
    pub op_ts_ms: i64,
    pub strength_delta: Option<u32>,
    pub confidence: Option<u32>,
    pub decay_rate: Option<u32>,
    pub pinned: Option<bool>,
}

pub struct DeleteMemoryOp {
    pub memory_id: MemoryId,
}

pub struct AddAssocEdgeOp {
    pub src: MemoryId,
    pub dst: MemoryId,
    pub edge_type: EdgeType,
    pub weight: u32,
}

pub struct StrengthenAssocEdgeOp {
    pub src: MemoryId,
    pub dst: MemoryId,
    pub edge_type: EdgeType,
    pub delta: u32,
}

pub struct UpsertArtifactOp {
    pub artifact_id: ArtifactId,
    pub normalized_path: String,
}

pub struct AddTripletOp {
    pub triplet_id: u64,
    pub subject: String,
    pub predicate: String,
    pub object: String,
    pub weight: u32,
    pub valid_from_ms: i64,
    pub source_memory_id: Option<MemoryId>,
    pub source_file: Option<String>,
}

pub struct InvalidateTripletOp {
    pub triplet_id: u64,
    pub invalidated_at_ms: i64,
}

pub struct SupersedeTripletOp {
    pub old_id: u64,
    pub new_id: u64,
    pub superseded_at_ms: i64,
}

pub struct InvalidateTripletsBySourceFileOp {
    pub source_file: String,
    pub invalidated_at_ms: i64,
}

pub struct UpsertSymbolOp {
    pub symbol_id: u64,
    pub kind: String,
    pub name: String,
    pub signature: String,
    pub file_path: String,
    pub line_start: u32,
    pub line_end: u32,
    pub repo_id: u64,
    pub embedding: Vec<u32>,
    pub description: Option<String>,
    pub memory_id: Option<MemoryId>,
}

pub struct RemoveSymbolOp {
    pub symbol_id: u64,
}

pub struct SymCallEdgeOp {
    pub caller_id: u64,
    pub callee_id: u64,
}

pub struct UpsertCodeFileOp {
    pub file_id: u64,
    pub path: String,
    pub project: String,
    pub mtime: i64,
    pub content_hash: Option<String>,
    pub git_commit: Option<String>,
    pub git_author: Option<String>,
    pub git_timestamp_ms: Option<i64>,
}

pub struct UpdateSparseCodeOp {
    pub memory_id: MemoryId,
    pub feature_ids: Vec<u32>,
    pub activations: Vec<u32>,
    pub ts_ms: i64,
}

pub struct DemoteMemoryOp {
    pub memory_id: MemoryId,
    pub new_tier: u8,
}

pub struct RecordOutcomeOp {
    pub memory_id: MemoryId,
    pub success: bool,
    pub weight: u32,
}

pub struct TrainPqOp {
    pub codebook_bytes: Vec<u8>,
}

pub struct UpdateResidualPqOp {
    pub memory_id: MemoryId,
    pub pq_bytes: Vec<u8>,
}

pub struct ClearProjectOp {
    pub project: String,
}

pub struct UpdateSymbolDescriptionOp {
    pub symbol_id: u64,
    pub description: String,
    pub op_ts_ms: i64,
}

pub struct UpdateMemoryContentOp {
    pub memory_id: MemoryId,
    pub content: Vec<u8>,
    pub embedding: Vec<u32>,
    pub op_ts_ms: i64,
}

pub struct UpdateMemoryKindOp {
    pub memory_id: MemoryId,
    pub new_kind: String,
    pub op_ts_ms: i64,
}

pub struct RecordRecallBatchOp {
    pub memory_ids: Vec<MemoryId>,
    pub context_hash: u64,
    pub centroid_q: Vec<i8>,
    pub centroid_scale: u32,
    pub base_assoc_delta: u32,
    pub ts_ms: i64,
}

pub struct SessionEventOp {
    pub event_id: u64,
    pub session_id: String,
    pub kind: String,
    pub payload_json: Vec<u8>,
    pub realm: String,
    pub ts_ms: i64,
}

pub struct TranscriptEventOp {
    pub event_id: u64,
    pub session_id: String,
    pub kind: String,
    pub payload_json: Vec<u8>,
    pub realm: String,
    pub ts_ms: i64,
}

pub struct TaskEventOp {
    pub event_id: u64,
    pub task_type: String,
    pub task_id: String,
    pub kind: String,
    pub payload_json: Vec<u8>,
    pub realm: String,
    pub ts_ms: i64,
    pub fencing_token: u64,
}

pub struct ThemeEventOp {
    pub event_id: u64,
    pub kind: String,
    pub theme_id: u64,
    pub payload_json: Vec<u8>,
    pub ts_ms: i64,
}

pub struct AnalyticsEventOp {
    pub event_id: u64,
    pub kind: String,
    pub session_id: String,
    pub payload_json: Vec<u8>,
    pub ts_ms: i64,
}

pub struct MsgEventOp {
    pub event_id: u64,
    pub domain: String,
    pub kind: String,
    pub target: String,
    pub payload_json: Vec<u8>,
    pub realm: String,
    pub ts_ms: i64,
}

pub struct UserModelEventOp {
    pub event_id: u64,
    pub entity_type: String,
    pub entity_id: String,
    pub kind: String,
    pub payload_json: Vec<u8>,
    pub ts_ms: i64,
}

/// A new version of a skill.
pub struct SkillUploadOp {
    pub skill_id: String,
    pub content: String,
    pub uploaded_by: String,
    pub tags: Vec<String>,
    pub ts_ms: i64,
}

/// An operation that a single organ reads and the rest of the field carries unread.
pub struct OrganRecord {
    pub body: Vec<u8>,
}

pub enum Op {
    PutPayload(PutPayloadOp),
    UpdateStateBatch(Vec<StateDeltaOp>),
    UpdateState(StateDeltaOp),
    DeleteMemory(DeleteMemoryOp),
    AddAssocEdge(AddAssocEdgeOp),
    StrengthenAssocEdge(StrengthenAssocEdgeOp),
    UpsertArtifact(UpsertArtifactOp),
    AddTriplet(AddTripletOp),
    InvalidateTriplet(InvalidateTripletOp),
    SupersedeTriplet(SupersedeTripletOp),
    InvalidateTripletsBySourceFile(InvalidateTripletsBySourceFileOp),
    UpsertSymbol(UpsertSymbolOp),
    RemoveSymbol(RemoveSymbolOp),
    AddSymCallEdge(SymCallEdgeOp),
    RemoveSymCallEdge(SymCallEdgeOp),
    UpsertCodeFile(UpsertCodeFileOp),
    ClearProject(ClearProjectOp),
    UpdateSymbolDescription(UpdateSymbolDescriptionOp),
    UpdateSparseCode(UpdateSparseCodeOp),
    TrainPQ(TrainPqOp),
    UpdateResidualPQ(UpdateResidualPqOp),
    DemoteMemory(DemoteMemoryOp),
    RecordOutcome(RecordOutcomeOp),
    UpdateMemoryContent(UpdateMemoryContentOp),
    UpdateMemoryKind(UpdateMemoryKindOp),
    RecordRecallBatch(RecordRecallBatchOp),
    SessionEvent(SessionEventOp),
    TranscriptEvent(TranscriptEventOp),
    TaskEvent(TaskEventOp),
    UserModelEvent(UserModelEventOp),
    ThemeEvent(ThemeEventOp),
    AnalyticsEvent(AnalyticsEventOp),
    MsgEvent(MsgEventOp),
    SkillUpload(SkillUploadOp),
    SkillDeprecate(OrganRecord),
    AgentUpsert(OrganRecord),
    AgentDisable(OrganRecord),
    AssertConstraint(OrganRecord),
    RetractConstraint(OrganRecord),
    CreateBranch(OrganRecord),
    ResolveBranch(OrganRecord),
    AddTrigger(OrganRecord),
    UpdateTrigger(OrganRecord),
    FireTrigger(OrganRecord),
    RecordSurprise(OrganRecord),
    RegisterDebt(OrganRecord),
    UpdateDebt(OrganRecord),
    AttachDebtEvidence(OrganRecord),
    UpdateSourceWeight(OrganRecord),
    RecordFeedback(OrganRecord),
    UpdateSurpriseCredit(OrganRecord),
    UpsertWisdomCandidate(OrganRecord),
    UpdateWisdomLifecycle(OrganRecord),
    UpdateScorerModel(OrganRecord),
    StartIntervention(OrganRecord),
    AddObservation(OrganRecord),
    CloseIntervention(OrganRecord),
    RecordAttribution(OrganRecord),
    RegisterTask(OrganRecord),
    UpdateTask(OrganRecord),
    AddDelegation(OrganRecord),
    LinkEvidence(OrganRecord),
    AddProbe(OrganRecord),
    ResolveProbe(OrganRecord),
    SetCriterion(OrganRecord),
    UpsertWisdomLineage(OrganRecord),
    AdjudicateLineage(OrganRecord),
    TransitionLineage(OrganRecord),
    RecordChallenger(OrganRecord),
    CloseRederive(OrganRecord),
    SymbolEvent(OrganRecord),
}

impl Op {
    /// The operations on the cortical index, which its own snapshot covers.
    pub open spec fn cortical(&self) -> bool {
        self is UpdateSparseCode || self is TrainPQ || self is UpdateResidualPQ
    }

    pub fn is_cortical(&self) -> (r: bool)
        ensures
            r == self.cortical(),
    {
        match self {
            Op::UpdateSparseCode(_) | Op::TrainPQ(_) | Op::UpdateResidualPQ(_) => true,
            _ => false,
        }
    }
}

} // verus!
