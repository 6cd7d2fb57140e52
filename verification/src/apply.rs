//! Applying logged operations to the in-memory projections of the store.
//!
//! Memories, associations, artifacts, triplets and co-activation are kept here and change as an
//! operation says. What an operation asks of the search indexes, of the code graph and of the
//! organs is handed out as a list of effects, in the order in which they are to be performed.
use crate::ablation::{known_organ, owner, owners_are_organs, owning_organ};
use crate::assoc::{detached, outgoing, AssocEdge, AssocEdges};
use crate::coactivation::{multiplier_of, pair_recorded, CoActivation, CoActivationStats};
use crate::json::{json_text_member, text_member};
use crate::members::{dropped, joined, Members};
use crate::memory::{
    accessed, apply_access_delta, stored_payload, MemoryPayload, MemoryState, RetrievalContext,
    StateDefaults,
};
use crate::ops::{
    AddTripletOp, ArtifactId, ArtifactRef, EdgeType, MemoryId, Op, PutPayloadOp,
    RecordRecallBatchOp, SessionEventOp, StateDeltaOp, UpdateMemoryContentOp, UpdateSparseCodeOp,
    UpsertCodeFileOp, UpsertSymbolOp,
};
use crate::seqs::{filter_ends, filter_members, filter_step};
use crate::table::Named;
use crate::text::{decode_or_empty, str_eq, text_or_empty};
use crate::triplet::TripletStore;
use std::collections::BTreeMap;
use vstd::prelude::*;

verus! {

/// An event that can be queried by domain, kind and target.
pub struct MsgEvent {
    pub event_id: u64,
    pub domain: String,
    pub kind: String,
    pub target: String,
    pub payload_json: String,
    pub realm: String,
    pub ts_ms: i64,
}

/// A request to something outside the projections.
#[allow(inconsistent_fields)]
pub enum Effect {
    /// The operation belongs to one organ, which applies it.
    Organ(Op),
    SemanticUpsert { memory_id: MemoryId, embedding: Vec<u32>, realm: String },
    SemanticRemove { memory_id: MemoryId },
    KeywordIndex { memory_id: MemoryId, text: String },
    KeywordRemove { memory_id: MemoryId },
    TimeUpsert { memory_id: MemoryId, ts_ms: i64, kind: String, realm: String, strength: u32 },
    TimeRemove { memory_id: MemoryId, ts_ms: i64 },
    ArtifactAssociate { memory_id: MemoryId, artifact_id: ArtifactId, path: String, strength: u32 },
    ArtifactForget { memory_id: MemoryId },
    /// Apply an explicit state change as of `now_ms`.
    StateDelta { delta: StateDeltaOp, now_ms: i64 },
    Outcome { memory_id: MemoryId, success: bool, weight: u32 },
    /// Strengthen both directions of an association by `multiplier` times `delta`.
    Strengthen { src: MemoryId, dst: MemoryId, edge_type: EdgeType, delta: u32, multiplier: u32 },
    SymbolUpsert(UpsertSymbolOp),
    SymbolRemove { symbol_id: u64 },
    SymbolDescribe { symbol_id: u64, description: String },
    CallGraphForget { symbol_id: u64 },
    CallEdgeAdd { caller_id: u64, callee_id: u64 },
    CallEdgeCut { caller_id: u64, callee_id: u64 },
    CodeFileUpsert(UpsertCodeFileOp),
    ProjectClear { project: String },
    /// Index a sparse code. Without a state the strength is the index's own default.
    CorticalIndex {
        memory_id: MemoryId,
        feature_ids: Vec<u32>,
        activations: Vec<u32>,
        strength: Option<u32>,
        ts_ms: i64,
        kind: String,
    },
    CorticalCodebook { bytes: Vec<u8> },
    CorticalResidual { memory_id: MemoryId, codes: Vec<u8> },
    SessionRegister { session_id: String, kind: String, realm: String, ts_ms: i64 },
    SessionHeartbeat { session_id: String, ts_ms: i64 },
    SessionDeregister { session_id: String },
    Message(MsgEvent),
}

/// The organ that performs an effect, for the effects that an organ performs.
pub open spec fn performer(fx: Effect) -> Option<Seq<char>> {
    match fx {
        Effect::Organ(op) => owner(op),
        Effect::SessionRegister { .. } => Some("session_registry"@),
        Effect::SessionHeartbeat { .. } => Some("session_registry"@),
        Effect::SessionDeregister { .. } => Some("session_registry"@),
        Effect::Message(_) => Some("msg_registry"@),
        Effect::CorticalIndex { .. } => Some("cortical_idx"@),
        Effect::CorticalCodebook { .. } => Some("cortical_idx"@),
        Effect::CorticalResidual { .. } => Some("cortical_idx"@),
        _ => None,
    }
}

pub fn performing_organ(fx: &Effect) -> (r: Option<&'static str>)
    ensures
        r is Some <==> performer(*fx) is Some,
        r matches Some(name) ==> name@ == performer(*fx)->0,
{
    match fx {
        Effect::Organ(op) => owning_organ(op),
        Effect::SessionRegister { .. } | Effect::SessionHeartbeat { .. }
        | Effect::SessionDeregister { .. } => Some("session_registry"),
        Effect::Message(_) => Some("msg_registry"),
        Effect::CorticalIndex { .. } | Effect::CorticalCodebook { .. }
        | Effect::CorticalResidual { .. } => Some("cortical_idx"),
        _ => None,
    }
}

/// Whatever performs an effect can be ablated.
pub proof fn performers_are_organs(fx: Effect)
    ensures
        performer(fx) is Some ==> known_organ(performer(fx)->0),
{
    if fx is Organ {
        owners_are_organs(fx->Organ_0);
    }
}

/// The in-memory projections of the store.
pub struct Projections {
    pub payloads: BTreeMap<u64, MemoryPayload>,
    pub states: BTreeMap<u64, MemoryState>,
    pub edges: AssocEdges,
    /// Artifact ids by normalized path.
    pub artifacts: Named<u64>,
    pub artifact_paths: BTreeMap<u64, String>,
    pub triplets: TripletStore,
    /// The first memory written with a chunk.
    pub chunk_ids: BTreeMap<u128, u64>,
    pub realms: Members,
    pub kinds: Members,
    pub pairs: CoActivation,
    pub defaults: StateDefaults,
}

/// What the projections hold.
#[verifier::ext_equal]
pub struct Model {
    pub payloads: Map<u64, MemoryPayload>,
    pub states: Map<u64, MemoryState>,
    pub edges: Map<u64, Seq<AssocEdge>>,
    pub artifacts: Map<Seq<char>, u64>,
    pub artifact_paths: Map<u64, String>,
    pub triplets: TripletStore,
    pub chunk_ids: Map<u128, u64>,
    pub realms: Map<Seq<char>, Set<u64>>,
    pub kinds: Map<Seq<char>, Set<u64>>,
    pub pairs: Map<(u64, u64), CoActivationStats>,
    pub defaults: StateDefaults,
}

impl View for Projections {
    type V = Model;

    open spec fn view(&self) -> Model {
        Model {
            payloads: self.payloads@,
            states: self.states@,
            edges: self.edges@,
            artifacts: self.artifacts@,
            artifact_paths: self.artifact_paths@,
            triplets: self.triplets,
            chunk_ids: self.chunk_ids@,
            realms: self.realms@,
            kinds: self.kinds@,
            pairs: self.pairs@,
            defaults: self.defaults,
        }
    }
}

/// `steps` leads from its first state to its last, one item of `items` at a time.
pub open spec fn chain<S, A>(steps: Seq<S>, items: Seq<A>, step: spec_fn(S, S, A) -> bool) -> bool {
    &&& steps.len() == items.len() + 1
    &&& forall|k: int| 0 <= k < items.len() ==> step(#[trigger] steps[k], steps[k + 1], items[k])
}

/// `after` is what the items make of `before`, one after the other.
pub open spec fn folded<S, A>(before: S, after: S, items: Seq<A>, step: spec_fn(S, S, A) -> bool) -> bool {
    exists|steps: Seq<S>| #[trigger]
        chain(steps, items, step) && steps.first() == before && steps.last() == after
}

pub proof fn folded_nothing<S, A>(s: S, step: spec_fn(S, S, A) -> bool)
    ensures
        folded(s, s, Seq::<A>::empty(), step),
{
    assert(chain(seq![s], Seq::<A>::empty(), step));
}

pub proof fn folded_one_more<S, A>(
    before: S,
    mid: S,
    after: S,
    items: Seq<A>,
    item: A,
    step: spec_fn(S, S, A) -> bool,
)
    requires
        folded(before, mid, items, step),
        step(mid, after, item),
    ensures
        folded(before, after, items.push(item), step),
{
    let steps = choose|steps: Seq<S>| #[trigger]
        chain(steps, items, step) && steps.first() == before && steps.last() == mid;
    let more = steps.push(after);
    let all = items.push(item);
    assert forall|k: int| 0 <= k < all.len() implies step(#[trigger] more[k], more[k + 1], all[k]) by {
        if k < items.len() {
            assert(step(steps[k], steps[k + 1], items[k]));
        }
    }
    assert(chain(more, all, step));
}

/// Doing some items and then others is doing them all.
pub proof fn folded_append<S, A>(
    before: S,
    mid: S,
    after: S,
    first: Seq<A>,
    second: Seq<A>,
    step: spec_fn(S, S, A) -> bool,
)
    requires
        folded(before, mid, first, step),
        folded(mid, after, second, step),
    ensures
        folded(before, after, first + second, step),
{
    let a = choose|steps: Seq<S>| #[trigger]
        chain(steps, first, step) && steps.first() == before && steps.last() == mid;
    let b = choose|steps: Seq<S>| #[trigger]
        chain(steps, second, step) && steps.first() == mid && steps.last() == after;
    let steps = a + b.subrange(1, b.len() as int);
    let items = first + second;
    assert forall|k: int| 0 <= k < items.len() implies step(#[trigger] steps[k], steps[k + 1], items[k]) by {
        if k < first.len() {
            assert(step(a[k], a[k + 1], first[k]));
        } else {
            assert(step(b[k - first.len()], b[k - first.len() + 1], second[k - first.len()]));
        }
    }
    assert(chain(steps, items, step));
}

/// When the memory was authored: at its creation unless something else was recorded.
pub open spec fn authored_at(put: PutPayloadOp) -> i64 {
    if put.authored_at_ms == 0 {
        put.created_at_ms
    } else {
        put.authored_at_ms
    }
}

/// The references whose artifacts have known paths.
pub open spec fn known_refs(refs: Seq<ArtifactRef>, paths: Map<u64, String>) -> Seq<ArtifactRef> {
    refs.filter(|r: ArtifactRef| paths.contains_key(r.artifact_id))
}

/// The state that a written memory has: its former state at the new version, or a new one.
pub open spec fn put_state(before: Model, after: MemoryState, put: PutPayloadOp) -> bool {
    if before.states.contains_key(put.memory_id) {
        after == (MemoryState {
            current_version: put.version,
            current_chunk_hash: put.chunk_hash,
            ..before.states[put.memory_id]
        })
    } else {
        &&& after.fresh(before.defaults)
        &&& after.current_version == put.version
        &&& after.current_chunk_hash == put.chunk_hash
        &&& after.created_at_ms == put.created_at_ms
    }
}

/// Writing a memory.
pub open spec fn put_done(before: Model, after: Model, put: PutPayloadOp, fx: Seq<Effect>) -> bool {
    let id = put.memory_id;
    let refs = known_refs(put.artifact_refs@, before.artifact_paths);
    &&& after == (Model {
        payloads: after.payloads,
        states: after.states,
        chunk_ids: if before.chunk_ids.contains_key(put.chunk_hash) {
            before.chunk_ids
        } else {
            before.chunk_ids.insert(put.chunk_hash, id)
        },
        realms: joined(before.realms, put.realm@, id),
        kinds: joined(before.kinds, put.kind@, id),
        ..before
    })
    &&& after.payloads.contains_key(id) && stored_payload(after.payloads[id], put)
    &&& after.payloads.remove(id) == before.payloads.remove(id)
    &&& after.states.contains_key(id) && put_state(before, after.states[id], put)
    &&& after.states.remove(id) == before.states.remove(id)
    &&& fx.len() == 3 + refs.len()
    &&& fx[0] == (Effect::SemanticUpsert { memory_id: id, embedding: put.embedding, realm: put.realm })
    &&& fx[1] matches Effect::KeywordIndex { memory_id, text } && memory_id == id && text@
        == text_or_empty(put.content@)
    &&& fx[2] == (Effect::TimeUpsert {
        memory_id: id,
        ts_ms: authored_at(put),
        kind: put.kind,
        realm: put.realm,
        strength: after.states[id].strength,
    })
    &&& forall|i: int|
        0 <= i < refs.len() ==> #[trigger] fx[3 + i] == (Effect::ArtifactAssociate {
            memory_id: id,
            artifact_id: refs[i].artifact_id,
            path: before.artifact_paths[refs[i].artifact_id],
            strength: after.states[id].strength,
        })
}

/// Deleting a memory: it is marked, its text is cleared, and nothing links to it any more.
pub open spec fn delete_done(before: Model, after: Model, id: u64, fx: Seq<Effect>) -> bool {
    let known = before.payloads.contains_key(id);
    &&& after == (Model {
        payloads: after.payloads,
        states: if before.states.contains_key(id) {
            before.states.insert(id, MemoryState { deleted: true, ..before.states[id] })
        } else {
            before.states
        },
        edges: detached(before.edges, id),
        realms: if known {
            dropped(before.realms, before.payloads[id].realm@, id)
        } else {
            before.realms
        },
        kinds: if known {
            dropped(before.kinds, before.payloads[id].kind@, id)
        } else {
            before.kinds
        },
        pairs: after.pairs,
        ..before
    })
    &&& after.payloads.dom() == before.payloads.dom()
    &&& after.payloads.remove(id) == before.payloads.remove(id)
    &&& known ==> {
        &&& after.payloads[id].content@ == Seq::<u8>::empty()
        &&& after.payloads[id] == (MemoryPayload {
            content: after.payloads[id].content,
            ..before.payloads[id]
        })
    }
    &&& forgets_pairs(before.pairs, after.pairs, id)
    &&& fx.len() == if known {
        4
    } else {
        3nat
    }
    &&& fx[0] == (Effect::SemanticRemove { memory_id: id })
    &&& fx[1] == (Effect::KeywordRemove { memory_id: id })
    &&& known ==> fx[2] == (Effect::TimeRemove {
        memory_id: id,
        ts_ms: before.payloads[id].authored_at_ms,
    })
    &&& fx.last() == (Effect::ArtifactForget { memory_id: id })
}

/// Every pair of the memory is gone, all others are as they were.
pub open spec fn forgets_pairs(
    before: Map<(u64, u64), CoActivationStats>,
    after: Map<(u64, u64), CoActivationStats>,
    id: u64,
) -> bool {
    &&& forall|p: (u64, u64)| #[trigger]
        after.contains_key(p) <==> before.contains_key(p) && p.0 != id && p.1 != id
    &&& forall|p: (u64, u64)| #[trigger] after.contains_key(p) ==> after[p] == before[p]
}

/// One access of a batch: it counts if the memory has a state.
pub open spec fn access_step(
    before: Map<u64, MemoryState>,
    after: Map<u64, MemoryState>,
    delta: StateDeltaOp,
) -> bool {
    if before.contains_key(delta.memory_id) {
        &&& after.contains_key(delta.memory_id)
        &&& after.remove(delta.memory_id) == before.remove(delta.memory_id)
        &&& accessed(after[delta.memory_id], before[delta.memory_id], delta)
    } else {
        after == before
    }
}

/// A batch of accesses.
pub open spec fn accesses_done(before: Model, after: Model, deltas: Seq<StateDeltaOp>) -> bool {
    &&& after == (Model { states: after.states, ..before })
    &&& folded(
        before.states,
        after.states,
        deltas,
        |s: Map<u64, MemoryState>, t: Map<u64, MemoryState>, d: StateDeltaOp| access_step(s, t, d),
    )
}

/// The time as of which an explicit change counts.
pub open spec fn change_time(delta: StateDeltaOp, created_at_ms: i64) -> i64 {
    if delta.op_ts_ms > 0 {
        delta.op_ts_ms
    } else {
        created_at_ms
    }
}

impl Projections {
    pub open spec fn wf(&self) -> bool {
        &&& self.artifacts.wf()
        &&& self.triplets.wf()
        &&& self.realms.wf()
        &&& self.kinds.wf()
    }

    pub fn new(defaults: StateDefaults) -> (r: Self)
        ensures
            r.wf(),
            r@.payloads == Map::<u64, MemoryPayload>::empty(),
            r@.states == Map::<u64, MemoryState>::empty(),
            r@.edges == Map::<u64, Seq<AssocEdge>>::empty(),
            r@.artifacts == Map::<Seq<char>, u64>::empty(),
            r@.artifact_paths == Map::<u64, String>::empty(),
            r@.chunk_ids == Map::<u128, u64>::empty(),
            r@.realms == Map::<Seq<char>, Set<u64>>::empty(),
            r@.kinds == Map::<Seq<char>, Set<u64>>::empty(),
            r@.pairs == Map::<(u64, u64), CoActivationStats>::empty(),
            r@.defaults == defaults,
    {
        Projections {
            payloads: BTreeMap::new(),
            states: BTreeMap::new(),
            edges: AssocEdges::new(),
            artifacts: Named::new(),
            artifact_paths: BTreeMap::new(),
            triplets: TripletStore::new(),
            chunk_ids: BTreeMap::new(),
            realms: Members::new(),
            kinds: Members::new(),
            pairs: CoActivation::new(),
            defaults,
        }
    }

    /// Writes a memory.
    pub fn put(&mut self, put: PutPayloadOp) -> (fx: Vec<Effect>)
        requires
            old(self).wf(),
        ensures
            final(self).wf(),
            put_done(old(self)@, final(self)@, put, fx@),
    {
        broadcast use vstd::std_specs::btree::group_btree_axioms;

        let ghost before = self@;
        let id: u64 = put.memory_id;
        let authored_at_ms: i64 = if put.authored_at_ms == 0 {
            put.created_at_ms
        } else {
            put.authored_at_ms
        };
        let state: MemoryState = match self.states.remove(&id) {
            Some(mut s) => {
                s.current_version = put.version;
                s.current_chunk_hash = put.chunk_hash;
                s
            },
            None => MemoryState::new(&self.defaults, put.chunk_hash, put.version, put.created_at_ms),
        };
        let strength: u32 = state.strength;
        self.states.insert(id, state);
        let text = decode_or_empty(put.content.as_slice());
        let mut fx: Vec<Effect> = Vec::new();
        let ghost whole = put;
        let PutPayloadOp {
            memory_id: _,
            version,
            chunk_hash,
            kind,
            realm,
            content,
            embedding,
            artifact_refs,
            created_at_ms,
            authored_at_ms: recorded_at_ms,
        } = put;
        let embedding_dim: u32 = embedding.len() as u32;
        if !self.chunk_ids.contains_key(&chunk_hash) {
            self.chunk_ids.insert(chunk_hash, id);
        }
        fx.push(Effect::SemanticUpsert { memory_id: id, embedding, realm: realm.clone() });
        fx.push(Effect::KeywordIndex { memory_id: id, text });
        self.realms.join(realm.as_str(), id);
        self.kinds.join(kind.as_str(), id);
        fx.push(
            Effect::TimeUpsert {
                memory_id: id,
                ts_ms: authored_at_ms,
                kind: kind.clone(),
                realm: realm.clone(),
                strength,
            },
        );
        let ghost pred = |r: ArtifactRef| before.artifact_paths.contains_key(r.artifact_id);
        let ghost head = fx@;
        let n: usize = artifact_refs.len();
        let mut i: usize = 0;
        proof {
            filter_ends(artifact_refs@, pred);
        }
        while i < n
            invariant
                n == artifact_refs.len(),
                i <= n,
                id == whole.memory_id,
                head.len() == 3,
                self.artifact_paths@ == before.artifact_paths,
                pred == (|r: ArtifactRef| before.artifact_paths.contains_key(r.artifact_id)),
                fx.len() == 3 + artifact_refs@.take(i as int).filter(pred).len(),
                fx@.take(3) == head,
                forall|k: int|
                    0 <= k < artifact_refs@.take(i as int).filter(pred).len() ==> #[trigger] fx@[3 + k]
                        == (Effect::ArtifactAssociate {
                        memory_id: id,
                        artifact_id: artifact_refs@.take(i as int).filter(pred)[k].artifact_id,
                        path: before.artifact_paths[artifact_refs@.take(i as int).filter(
                            pred,
                        )[k].artifact_id],
                        strength,
                    }),
            decreases n - i,
        {
            proof {
                filter_step(artifact_refs@, pred, i as int);
            }
            let artifact_id: u64 = artifact_refs[i].artifact_id;
            let ghost was = fx@;
            match self.artifact_paths.get(&artifact_id) {
                Some(path) => {
                    fx.push(
                        Effect::ArtifactAssociate {
                            memory_id: id,
                            artifact_id,
                            path: path.clone(),
                            strength,
                        },
                    );
                    assert(fx@.take(3) =~= was.take(3));
                },
                None => {},
            }
            i = i + 1;
        }
        self.payloads.insert(
            id,
            MemoryPayload {
                kind,
                realm,
                content,
                embedding: Vec::new(),
                embedding_dim,
                artifact_refs,
                version,
                chunk_hash,
                created_at_ms,
                authored_at_ms: recorded_at_ms,
            },
        );
        proof {
            assert(fx@[0] == head[0] && fx@[1] == head[1] && fx@[2] == head[2]) by {
                assert(fx@.take(3)[0] == fx@[0]);
                assert(fx@.take(3)[1] == fx@[1]);
                assert(fx@.take(3)[2] == fx@[2]);
            }
            assert(self@.payloads.remove(id) =~= before.payloads.remove(id));
            assert(self@.states.remove(id) =~= before.states.remove(id));
            assert(self@ =~= Model {
                payloads: self@.payloads,
                states: self@.states,
                chunk_ids: if before.chunk_ids.contains_key(whole.chunk_hash) {
                    before.chunk_ids
                } else {
                    before.chunk_ids.insert(whole.chunk_hash, id)
                },
                realms: joined(before.realms, whole.realm@, id),
                kinds: joined(before.kinds, whole.kind@, id),
                ..before
            });
        }
        fx
    }

    /// Deletes a memory.
    pub fn delete(&mut self, id: u64) -> (fx: Vec<Effect>)
        requires
            old(self).wf(),
        ensures
            final(self).wf(),
            delete_done(old(self)@, final(self)@, id, fx@),
    {
        broadcast use vstd::std_specs::btree::group_btree_axioms;

        let ghost before = self@;
        let mut fx: Vec<Effect> = Vec::new();
        if let Some(mut state) = self.states.remove(&id) {
            state.deleted = true;
            self.states.insert(id, state);
        }
        fx.push(Effect::SemanticRemove { memory_id: id });
        fx.push(Effect::KeywordRemove { memory_id: id });
        if let Some(mut payload) = self.payloads.remove(&id) {
            fx.push(Effect::TimeRemove { memory_id: id, ts_ms: payload.authored_at_ms });
            self.realms.leave(payload.realm.as_str(), id);
            self.kinds.leave(payload.kind.as_str(), id);
            payload.content = Vec::new();
            self.payloads.insert(id, payload);
        }
        fx.push(Effect::ArtifactForget { memory_id: id });
        self.edges.detach(id);
        self.pairs.forget(id);
        proof {
            assert(self@.payloads.dom() =~= before.payloads.dom());
            assert(self@.payloads.remove(id) =~= before.payloads.remove(id));
            let states = if before.states.contains_key(id) {
                before.states.insert(id, MemoryState { deleted: true, ..before.states[id] })
            } else {
                before.states
            };
            assert(self@.states =~= states);
            assert(self@.edges =~= detached(before.edges, id));
        }
        fx
    }

    /// Counts a batch of accesses.
    pub fn access_batch(&mut self, deltas: &Vec<StateDeltaOp>)
        requires
            old(self).wf(),
        ensures
            final(self).wf(),
            accesses_done(old(self)@, final(self)@, deltas@),
    {
        let ghost before = self@;
        let ghost step = |s: Map<u64, MemoryState>, t: Map<u64, MemoryState>, d: StateDeltaOp|
            access_step(s, t, d);
        let n: usize = deltas.len();
        let mut i: usize = 0;
        proof {
            folded_nothing::<Map<u64, MemoryState>, StateDeltaOp>(before.states, step);
            assert(deltas@.take(0) =~= Seq::<StateDeltaOp>::empty());
        }
        while i < n
            invariant
                n == deltas.len(),
                i <= n,
                self.wf(),
                step == (|s: Map<u64, MemoryState>, t: Map<u64, MemoryState>, d: StateDeltaOp|
                    access_step(s, t, d)),
                self@ == (Model { states: self@.states, ..before }),
                folded(before.states, self@.states, deltas@.take(i as int), step),
            decreases n - i,
        {
            let ghost mid = self@;
            self.access(&deltas[i]);
            proof {
                folded_one_more(
                    before.states,
                    mid.states,
                    self@.states,
                    deltas@.take(i as int),
                    deltas@[i as int],
                    step,
                );
                assert(deltas@.take(i + 1) =~= deltas@.take(i as int).push(deltas@[i as int]));
            }
            i = i + 1;
        }
        assert(deltas@.take(n as int) =~= deltas@);
    }

    /// Counts an access of a memory that has a state. Returns whether it has.
    pub fn access(&mut self, delta: &StateDeltaOp) -> (counted: bool)
        requires
            old(self).wf(),
        ensures
            final(self).wf(),
            counted == old(self)@.states.contains_key(delta.memory_id),
            final(self)@ == (Model { states: final(self)@.states, ..old(self)@ }),
            access_step(old(self)@.states, final(self)@.states, *delta),
    {
        broadcast use vstd::std_specs::btree::group_btree_axioms;

        let ghost before = self@;
        let id: u64 = delta.memory_id;
        if let Some(mut state) = self.states.remove(&id) {
            apply_access_delta(&mut state, delta);
            self.states.insert(id, state);
            assert(self@.states.remove(id) =~= before.states.remove(id));
            true
        } else {
            assert(self@.states =~= before.states);
            false
        }
    }
}

/// A memory was recalled: one access more, at the time of the recall, in its circumstances.
pub open spec fn touch_step(
    before: Map<u64, MemoryState>,
    after: Map<u64, MemoryState>,
    id: u64,
    op: RecordRecallBatchOp,
) -> bool {
    if before.contains_key(id) {
        let old_history = before[id].retrieval_history@;
        let history = after[id].retrieval_history@;
        &&& after.contains_key(id)
        &&& after.remove(id) == before.remove(id)
        &&& after[id] == (MemoryState {
            access_count: crate::coactivation::bumped(before[id].access_count),
            last_accessed_ms: op.ts_ms,
            retrieval_history: after[id].retrieval_history,
            ..before[id]
        })
        &&& history.len() == old_history.len() + 1
        &&& history.drop_last() == old_history
        &&& history.last().centroid_q@ == op.centroid_q@
        &&& history.last().scale == op.centroid_scale
        &&& history.last().context_hash == op.context_hash
        &&& history.last().ts_ms == op.ts_ms
    } else {
        after == before
    }
}

/// The index pairs `(a, b)` with `a < b < n` that come before `(i, j)` when `b` runs fastest.
pub open spec fn pair_order(n: int, i: int, j: int) -> Seq<(int, int)>
    decreases i, j,
{
    if i < 0 || j < 0 {
        Seq::empty()
    } else if j > i + 1 {
        pair_order(n, i, j - 1).push((i, j - 1))
    } else if i > 0 {
        pair_order(n, i - 1, n)
    } else {
        Seq::empty()
    }
}

/// The pair of two memories, the smaller id first.
pub open spec fn pair_of(a: u64, b: u64) -> (u64, u64) {
    if a <= b {
        (a, b)
    } else {
        (b, a)
    }
}

/// `steps` records the co-retrieval of the pairs `list` of the recalled memories one by one, and
/// `fx` strengthens each pair by what its statistics then say.
pub open spec fn records_pairs(
    steps: Seq<Map<(u64, u64), CoActivationStats>>,
    list: Seq<(int, int)>,
    op: RecordRecallBatchOp,
    fx: Seq<Effect>,
) -> bool {
    &&& steps.len() == list.len() + 1
    &&& fx.len() == list.len()
    &&& forall|k: int| 0 <= k < list.len() ==> pair_step(steps, list, op, fx, k)
}

#[verifier::opaque]
pub open spec fn pair_step(
    steps: Seq<Map<(u64, u64), CoActivationStats>>,
    list: Seq<(int, int)>,
    op: RecordRecallBatchOp,
    fx: Seq<Effect>,
    k: int,
) -> bool {
    let a = op.memory_ids@[list[k].0];
    let b = op.memory_ids@[list[k].1];
    &&& pair_recorded(steps[k], steps[k + 1], pair_of(a, b), op.context_hash, op.ts_ms)
    &&& fx[k] == (Effect::Strengthen {
        src: a,
        dst: b,
        edge_type: EdgeType::CoRetrieved,
        delta: op.base_assoc_delta,
        multiplier: multiplier_of(steps[k + 1][pair_of(a, b)]) as u32,
    })
}

proof fn records_one_more(
    steps: Seq<Map<(u64, u64), CoActivationStats>>,
    list: Seq<(int, int)>,
    op: RecordRecallBatchOp,
    fx: Seq<Effect>,
    after: Map<(u64, u64), CoActivationStats>,
    at: (int, int),
    e: Effect,
)
    requires
        records_pairs(steps, list, op, fx),
        ({
            let a = op.memory_ids@[at.0];
            let b = op.memory_ids@[at.1];
            &&& pair_recorded(steps.last(), after, pair_of(a, b), op.context_hash, op.ts_ms)
            &&& e == (Effect::Strengthen {
                src: a,
                dst: b,
                edge_type: EdgeType::CoRetrieved,
                delta: op.base_assoc_delta,
                multiplier: multiplier_of(after[pair_of(a, b)]) as u32,
            })
        }),
    ensures
        records_pairs(steps.push(after), list.push(at), op, fx.push(e)),
{
    let s2 = steps.push(after);
    let l2 = list.push(at);
    let f2 = fx.push(e);
    assert forall|k: int| 0 <= k < l2.len() implies pair_step(s2, l2, op, f2, k) by {
        reveal(pair_step);
        if k < list.len() {
            assert(pair_step(steps, list, op, fx, k));
        }
    }
}

/// A batch of memories was recalled together.
pub open spec fn recall_done(before: Model, after: Model, op: RecordRecallBatchOp, fx: Seq<Effect>) -> bool {
    let n = op.memory_ids@.len() as int;
    &&& after == (Model { states: after.states, pairs: after.pairs, ..before })
    &&& folded(
        before.states,
        after.states,
        op.memory_ids@,
        |s: Map<u64, MemoryState>, t: Map<u64, MemoryState>, id: u64| touch_step(s, t, id, op),
    )
    &&& exists|steps: Seq<Map<(u64, u64), CoActivationStats>>| #[trigger]
        records_pairs(steps, pair_order(n, n, n), op, fx) && steps.first() == before.pairs
            && steps.last() == after.pairs
}

/// The content of a memory was replaced, and its embedding too if one came with it.
pub open spec fn content_done(before: Model, after: Model, op: UpdateMemoryContentOp, fx: Seq<Effect>) -> bool {
    let id = op.memory_id;
    let embedded = op.embedding@.len() > 0;
    &&& after == (Model {
        payloads: after.payloads,
        states: if embedded && before.states.contains_key(id) {
            before.states.insert(id, MemoryState { embed_pending: false, ..before.states[id] })
        } else {
            before.states
        },
        ..before
    })
    &&& after.payloads.dom() == before.payloads.dom()
    &&& after.payloads.remove(id) == before.payloads.remove(id)
    &&& before.payloads.contains_key(id) ==> {
        &&& after.payloads[id] == (MemoryPayload {
            content: op.content,
            embedding: after.payloads[id].embedding,
            ..before.payloads[id]
        })
        &&& after.payloads[id].embedding@ == if embedded {
            Seq::<u32>::empty()
        } else {
            before.payloads[id].embedding@
        }
    }
    &&& fx.len() == if embedded {
        2
    } else {
        1nat
    }
    &&& embedded ==> (fx[0] matches Effect::SemanticUpsert { memory_id, embedding, realm } && memory_id
        == id && embedding == op.embedding && realm@ == if before.payloads.contains_key(id) {
        before.payloads[id].realm@
    } else {
        Seq::<char>::empty()
    })
    &&& fx.last() matches Effect::KeywordIndex { memory_id, text } && memory_id == id && text@
        == text_or_empty(op.content@)
}

/// A sparse code is indexed with what is known of its memory.
pub open spec fn sparse_done(before: Model, op: UpdateSparseCodeOp, fx: Seq<Effect>) -> bool {
    let id = op.memory_id;
    &&& fx.len() == 1
    &&& fx[0] matches Effect::CorticalIndex { memory_id, feature_ids, activations, strength, ts_ms, kind }
        && {
        &&& memory_id == id
        &&& feature_ids == op.feature_ids
        &&& activations == op.activations
        &&& strength == if before.states.contains_key(id) {
            Some(before.states[id].strength)
        } else {
            None
        }
        &&& ts_ms == if before.payloads.contains_key(id) {
            before.payloads[id].authored_at_ms
        } else {
            op.ts_ms
        }
        &&& kind@ == if before.payloads.contains_key(id) {
            before.payloads[id].kind@
        } else {
            "unknown"@
        }
    }
}

/// The effects of a session event whose payload names the session kind `kind`: the registry
/// follows the event, and the event can be queried like a message.
pub open spec fn session_done(ev: SessionEventOp, kind: Option<Seq<char>>, fx: Seq<Effect>) -> bool {
    let listed = ev.kind@ == "register"@ || ev.kind@ == "heartbeat"@ || ev.kind@ == "deregister"@;
    &&& fx.len() == if listed {
        2
    } else {
        1nat
    }
    &&& ev.kind@ == "register"@ ==> (fx[0] matches Effect::SessionRegister {
        session_id,
        kind: k,
        realm,
        ts_ms,
    } && session_id == ev.session_id && realm == ev.realm && ts_ms == ev.ts_ms && k@ == match kind {
        Some(text) => text,
        None => Seq::<char>::empty(),
    })
    &&& ev.kind@ != "register"@ && ev.kind@ == "heartbeat"@ ==> fx[0] == (Effect::SessionHeartbeat {
        session_id: ev.session_id,
        ts_ms: ev.ts_ms,
    })
    &&& ev.kind@ != "register"@ && ev.kind@ != "heartbeat"@ && ev.kind@ == "deregister"@ ==> fx[0] == (
    Effect::SessionDeregister { session_id: ev.session_id })
    &&& fx.last() matches Effect::Message(m) && {
        &&& m.event_id == ev.event_id
        &&& m.domain@ == "session"@
        &&& m.kind == ev.kind
        &&& m.target == ev.session_id
        &&& m.payload_json@ == text_or_empty(ev.payload_json@)
        &&& m.realm == ev.realm
        &&& m.ts_ms == ev.ts_ms
    }
}

/// The effects of a session event, given the session kind that its payload names.
pub fn session_effects(ev: &SessionEventOp, kind: Option<String>) -> (fx: Vec<Effect>)
    ensures
        session_done(
            *ev,
            match kind {
                Some(s) => Some(s@),
                None => None,
            },
            fx@,
        ),
{
    let mut fx: Vec<Effect> = Vec::new();
    if str_eq(ev.kind.as_str(), "register") {
        let session_kind = match kind {
            Some(s) => s,
            None => String::new(),
        };
        fx.push(
            Effect::SessionRegister {
                session_id: ev.session_id.clone(),
                kind: session_kind,
                realm: ev.realm.clone(),
                ts_ms: ev.ts_ms,
            },
        );
    } else if str_eq(ev.kind.as_str(), "heartbeat") {
        fx.push(Effect::SessionHeartbeat { session_id: ev.session_id.clone(), ts_ms: ev.ts_ms });
    } else if str_eq(ev.kind.as_str(), "deregister") {
        fx.push(Effect::SessionDeregister { session_id: ev.session_id.clone() });
    }
    fx.push(
        Effect::Message(
            MsgEvent {
                event_id: ev.event_id,
                domain: "session".to_owned(),
                kind: ev.kind.clone(),
                target: ev.session_id.clone(),
                payload_json: decode_or_empty(ev.payload_json.as_slice()),
                realm: ev.realm.clone(),
                ts_ms: ev.ts_ms,
            },
        ),
    );
    fx
}

/// How to cut a call edge out of a call graph that can only forget whole symbols: when the edge is
/// there, forget the caller and put its other callees back.
pub fn plan_call_edge_cut(callees: &Vec<u64>, caller_id: u64, callee_id: u64) -> (fx: Vec<Effect>)
    ensures
        !callees@.contains(callee_id) ==> fx@ == Seq::<Effect>::empty(),
        callees@.contains(callee_id) ==> fx@ == seq![Effect::CallGraphForget { symbol_id: caller_id }]
            + callees@.filter(|c: u64| c != callee_id).map_values(
            |c: u64| Effect::CallEdgeAdd { caller_id, callee_id: c },
        ),
{
    let ghost pred = |c: u64| c != callee_id;
    let ghost edge = |c: u64| Effect::CallEdgeAdd { caller_id, callee_id: c };
    let n: usize = callees.len();
    let mut found: bool = false;
    let mut k: usize = 0;
    while k < n
        invariant
            n == callees.len(),
            k <= n,
            found <==> exists|j: int| 0 <= j < k && #[trigger] callees@[j] == callee_id,
        decreases n - k,
    {
        if callees[k] == callee_id {
            found = true;
            assert(callees@[k as int] == callee_id);
        }
        k = k + 1;
    }
    let mut fx: Vec<Effect> = Vec::new();
    if !found {
        return fx;
    }
    fx.push(Effect::CallGraphForget { symbol_id: caller_id });
    let ghost head = seq![Effect::CallGraphForget { symbol_id: caller_id }];
    let mut i: usize = 0;
    proof {
        filter_ends(callees@, pred);
        assert(fx@ =~= head + callees@.take(0).filter(pred).map_values(edge));
    }
    while i < n
        invariant
            n == callees.len(),
            i <= n,
            pred == (|c: u64| c != callee_id),
            edge == (|c: u64| Effect::CallEdgeAdd { caller_id, callee_id: c }),
            fx@ == head + callees@.take(i as int).filter(pred).map_values(edge),
        decreases n - i,
    {
        proof {
            filter_step(callees@, pred, i as int);
        }
        let ghost kept = callees@.take(i as int).filter(pred);
        let c: u64 = callees[i];
        if c != callee_id {
            fx.push(Effect::CallEdgeAdd { caller_id, callee_id: c });
            assert(kept.push(c).map_values(edge) =~= kept.map_values(edge).push(edge(c)));
            assert(fx@ =~= head + kept.push(c).map_values(edge));
        }
        i = i + 1;
    }
    fx
}

/// The call graph forgets the symbols that went with a cleared project.
pub fn after_project_clear(removed: &Vec<u64>) -> (fx: Vec<Effect>)
    ensures
        fx@ == removed@.map_values(|id: u64| Effect::CallGraphForget { symbol_id: id }),
{
    let ghost forget = |id: u64| Effect::CallGraphForget { symbol_id: id };
    let mut fx: Vec<Effect> = Vec::new();
    let n: usize = removed.len();
    let mut i: usize = 0;
    while i < n
        invariant
            n == removed.len(),
            i <= n,
            forget == (|id: u64| Effect::CallGraphForget { symbol_id: id }),
            fx@ == removed@.take(i as int).map_values(forget),
        decreases n - i,
    {
        fx.push(Effect::CallGraphForget { symbol_id: removed[i] });
        assert(fx@ =~= removed@.take(i + 1).map_values(forget));
        i = i + 1;
    }
    assert(removed@.take(n as int) =~= removed@);
    fx
}

impl Projections {
    /// Records that a batch of memories was recalled together.
    pub fn recall(&mut self, op: &RecordRecallBatchOp) -> (fx: Vec<Effect>)
        requires
            old(self).wf(),
        ensures
            final(self).wf(),
            recall_done(old(self)@, final(self)@, *op, fx@),
    {
        let ghost before = self@;
        let ghost touch = |s: Map<u64, MemoryState>, t: Map<u64, MemoryState>, id: u64|
            touch_step(s, t, id, *op);
        let n: usize = op.memory_ids.len();
        let mut k: usize = 0;
        proof {
            folded_nothing::<Map<u64, MemoryState>, u64>(before.states, touch);
            assert(op.memory_ids@.take(0) =~= Seq::<u64>::empty());
        }
        while k < n
            invariant
                n == op.memory_ids.len(),
                k <= n,
                self.wf(),
                touch == (|s: Map<u64, MemoryState>, t: Map<u64, MemoryState>, id: u64|
                    touch_step(s, t, id, *op)),
                self@ == (Model { states: self@.states, ..before }),
                folded(before.states, self@.states, op.memory_ids@.take(k as int), touch),
            decreases n - k,
        {
            let ghost mid = self@;
            self.touch(op.memory_ids[k], op);
            proof {
                folded_one_more(
                    before.states,
                    mid.states,
                    self@.states,
                    op.memory_ids@.take(k as int),
                    op.memory_ids@[k as int],
                    touch,
                );
                assert(op.memory_ids@.take(k + 1) =~= op.memory_ids@.take(k as int).push(
                    op.memory_ids@[k as int],
                ));
            }
            k = k + 1;
        }
        assert(op.memory_ids@.take(n as int) =~= op.memory_ids@);
        let ghost touched = self@;
        let mut fx: Vec<Effect> = Vec::new();
        let ghost mut steps = seq![before.pairs];
        let mut i: usize = 0;
        while i < n
            invariant
                n == op.memory_ids.len(),
                i <= n,
                self.wf(),
                touched.pairs == before.pairs,
                self@ == (Model { pairs: self@.pairs, ..touched }),
                steps.first() == before.pairs,
                steps.last() == self@.pairs,
                records_pairs(steps, pair_order(n as int, i as int, i as int), *op, fx@),
            decreases n - i,
        {
            let mut j: usize = i + 1;
            proof {
                assert(pair_order(n as int, i as int, i + 1) == pair_order(n as int, i as int, i as int));
            }
            while j < n
                invariant
                    n == op.memory_ids.len(),
                    i < j <= n,
                    self.wf(),
                    touched.pairs == before.pairs,
                    self@ == (Model { pairs: self@.pairs, ..touched }),
                    steps.first() == before.pairs,
                    steps.last() == self@.pairs,
                    records_pairs(steps, pair_order(n as int, i as int, j as int), *op, fx@),
                decreases n - j,
            {
                let a: u64 = op.memory_ids[i];
                let b: u64 = op.memory_ids[j];
                let (lo, hi): (u64, u64) = if a <= b {
                    (a, b)
                } else {
                    (b, a)
                };
                let multiplier: u32 = self.pairs.record(lo, hi, op.context_hash, op.ts_ms);
                let ghost was = fx@;
                fx.push(
                    Effect::Strengthen {
                        src: a,
                        dst: b,
                        edge_type: EdgeType::CoRetrieved,
                        delta: op.base_assoc_delta,
                        multiplier,
                    },
                );
                proof {
                    records_one_more(
                        steps,
                        pair_order(n as int, i as int, j as int),
                        *op,
                        was,
                        self@.pairs,
                        (i as int, j as int),
                        fx@.last(),
                    );
                    assert(fx@ =~= was.push(fx@.last()));
                    steps = steps.push(self@.pairs);
                    assert(pair_order(n as int, i as int, j + 1) == pair_order(
                        n as int,
                        i as int,
                        j as int,
                    ).push((i as int, j as int)));
                }
                j = j + 1;
            }
            proof {
                assert(pair_order(n as int, i + 1, i + 1) == pair_order(n as int, i as int, n as int));
            }
            i = i + 1;
        }
        fx
    }

    fn touch(&mut self, id: u64, op: &RecordRecallBatchOp)
        requires
            old(self).wf(),
        ensures
            final(self).wf(),
            final(self)@ == (Model { states: final(self)@.states, ..old(self)@ }),
            touch_step(old(self)@.states, final(self)@.states, id, *op),
    {
        broadcast use vstd::std_specs::btree::group_btree_axioms;

        let ghost before = self@;
        if let Some(mut state) = self.states.remove(&id) {
            let ghost old_state = state;
            state.access_count = state.access_count.wrapping_add(1);
            state.last_accessed_ms = op.ts_ms;
            let centroid_q = op.centroid_q.clone();
            assert(centroid_q@ =~= op.centroid_q@);
            state.retrieval_history.push(
                RetrievalContext {
                    centroid_q,
                    scale: op.centroid_scale,
                    context_hash: op.context_hash,
                    ts_ms: op.ts_ms,
                },
            );
            assert(state.retrieval_history@.drop_last() =~= old_state.retrieval_history@);
            self.states.insert(id, state);
            assert(self@.states.remove(id) =~= before.states.remove(id));
        } else {
            assert(self@.states =~= before.states);
        }
    }

    /// Replaces the content of a memory.
    pub fn set_content(&mut self, op: UpdateMemoryContentOp) -> (fx: Vec<Effect>)
        requires
            old(self).wf(),
        ensures
            final(self).wf(),
            content_done(old(self)@, final(self)@, op, fx@),
    {
        broadcast use vstd::std_specs::btree::group_btree_axioms;

        let ghost before = self@;
        let UpdateMemoryContentOp { memory_id: id, content, embedding, op_ts_ms: _ } = op;
        let text = decode_or_empty(content.as_slice());
        let embedded: bool = embedding.len() > 0;
        let mut realm: String = String::new();
        let mut fx: Vec<Effect> = Vec::new();
        if let Some(mut payload) = self.payloads.remove(&id) {
            payload.content = content;
            if embedded {
                payload.embedding = Vec::new();
            }
            realm = payload.realm.clone();
            self.payloads.insert(id, payload);
        }
        if embedded {
            fx.push(Effect::SemanticUpsert { memory_id: id, embedding, realm });
            if let Some(mut state) = self.states.remove(&id) {
                state.embed_pending = false;
                self.states.insert(id, state);
            }
        }
        fx.push(Effect::KeywordIndex { memory_id: id, text });
        proof {
            assert(self@.payloads.dom() =~= before.payloads.dom());
            assert(self@.payloads.remove(id) =~= before.payloads.remove(id));
            let states = if embedded && before.states.contains_key(id) {
                before.states.insert(id, MemoryState { embed_pending: false, ..before.states[id] })
            } else {
                before.states
            };
            assert(self@.states =~= states);
        }
        fx
    }

    /// Indexes a sparse code.
    pub fn sparse_code(&self, op: UpdateSparseCodeOp) -> (fx: Vec<Effect>)
        ensures
            sparse_done(self@, op, fx@),
    {
        broadcast use vstd::std_specs::btree::group_btree_axioms;

        let strength: Option<u32> = match self.states.get(&op.memory_id) {
            Some(s) => Some(s.strength),
            None => None,
        };
        let (kind, ts_ms): (String, i64) = match self.payloads.get(&op.memory_id) {
            Some(p) => (p.kind.clone(), p.authored_at_ms),
            None => ("unknown".to_owned(), op.ts_ms),
        };
        let mut fx: Vec<Effect> = Vec::new();
        fx.push(
            Effect::CorticalIndex {
                memory_id: op.memory_id,
                feature_ids: op.feature_ids,
                activations: op.activations,
                strength,
                ts_ms,
                kind,
            },
        );
        fx
    }
}

/// The operation changes nothing here and has the one effect `e`.
pub open spec fn hands_out(before: Model, after: Model, fx: Seq<Effect>, e: Effect) -> bool {
    after == before && fx == seq![e]
}

/// What an operation does to the projections, and what it asks of everything else.
pub open spec fn op_done(before: Model, after: Model, op: Op, fx: Seq<Effect>) -> bool {
    let none = Seq::<Effect>::empty();
    match op {
        Op::PutPayload(put) => put_done(before, after, put, fx),
        Op::UpdateStateBatch(deltas) => accesses_done(before, after, deltas@) && fx == none,
        Op::UpdateState(delta) => {
            &&& after == before
            &&& fx == if before.states.contains_key(delta.memory_id) {
                seq![
                    Effect::StateDelta {
                        delta,
                        now_ms: change_time(delta, before.states[delta.memory_id].created_at_ms),
                    },
                ]
            } else {
                none
            }
        },
        Op::DeleteMemory(del) => delete_done(before, after, del.memory_id, fx),
        Op::AddAssocEdge(e) => {
            &&& after == (Model {
                edges: before.edges.insert(
                    e.src,
                    outgoing(before.edges, e.src).push(
                        AssocEdge { dst: e.dst, edge_type: e.edge_type, weight: e.weight },
                    ),
                ),
                ..before
            })
            &&& fx == none
        },
        Op::StrengthenAssocEdge(e) => hands_out(
            before,
            after,
            fx,
            Effect::Strengthen {
                src: e.src,
                dst: e.dst,
                edge_type: e.edge_type,
                delta: e.delta,
                multiplier: 1,
            },
        ),
        Op::UpsertArtifact(a) => {
            &&& after == (Model {
                artifacts: if before.artifacts.contains_key(a.normalized_path@) {
                    before.artifacts
                } else {
                    before.artifacts.insert(a.normalized_path@, a.artifact_id)
                },
                artifact_paths: if before.artifact_paths.contains_key(a.artifact_id) {
                    before.artifact_paths
                } else {
                    before.artifact_paths.insert(a.artifact_id, a.normalized_path)
                },
                ..before
            })
            &&& fx == none
        },
        Op::AddTriplet(t) => triplet_added(before, after, t) && fx == none,
        Op::InvalidateTriplet(t) => {
            &&& after == (Model { triplets: after.triplets, ..before })
            &&& after.triplets.facts() == if before.triplets.facts().contains_key(t.triplet_id) {
                before.triplets.facts().insert(
                    t.triplet_id,
                    crate::triplet::TripletEntry {
                        invalidated_at_ms: Some(t.invalidated_at_ms),
                        ..before.triplets.facts()[t.triplet_id]
                    },
                )
            } else {
                before.triplets.facts()
            }
            &&& same_listing(before.triplets, after.triplets)
            &&& fx == none
        },
        Op::SupersedeTriplet(t) => {
            &&& after == (Model { triplets: after.triplets, ..before })
            &&& after.triplets.facts() == if before.triplets.facts().contains_key(t.old_id) {
                before.triplets.facts().insert(
                    t.old_id,
                    crate::triplet::TripletEntry {
                        superseded_by: Some(t.new_id),
                        superseded_at_ms: Some(t.superseded_at_ms),
                        ..before.triplets.facts()[t.old_id]
                    },
                )
            } else {
                before.triplets.facts()
            }
            &&& same_listing(before.triplets, after.triplets)
            &&& fx == none
        },
        Op::InvalidateTripletsBySourceFile(t) => {
            &&& after == (Model { triplets: after.triplets, ..before })
            &&& after.triplets.facts().dom() == before.triplets.facts().dom()
            &&& forall|id: u64| #[trigger]
                before.triplets.facts().contains_key(id) ==> after.triplets.facts()[id]
                    == if TripletStore::active_from(before.triplets.facts()[id], t.source_file@) {
                    crate::triplet::TripletEntry {
                        invalidated_at_ms: Some(t.invalidated_at_ms),
                        ..before.triplets.facts()[id]
                    }
                } else {
                    before.triplets.facts()[id]
                }
            &&& same_listing(before.triplets, after.triplets)
            &&& fx == none
        },
        Op::UpsertSymbol(x) => hands_out(before, after, fx, Effect::SymbolUpsert(x)),
        Op::RemoveSymbol(x) => {
            &&& after == before
            &&& fx == seq![
                Effect::SymbolRemove { symbol_id: x.symbol_id },
                Effect::CallGraphForget { symbol_id: x.symbol_id },
            ]
        },
        Op::AddSymCallEdge(e) => hands_out(
            before,
            after,
            fx,
            Effect::CallEdgeAdd { caller_id: e.caller_id, callee_id: e.callee_id },
        ),
        Op::RemoveSymCallEdge(e) => hands_out(
            before,
            after,
            fx,
            Effect::CallEdgeCut { caller_id: e.caller_id, callee_id: e.callee_id },
        ),
        Op::UpsertCodeFile(f) => hands_out(before, after, fx, Effect::CodeFileUpsert(f)),
        Op::ClearProject(c) => hands_out(
            before,
            after,
            fx,
            Effect::ProjectClear { project: c.project },
        ),
        Op::UpdateSymbolDescription(d) => hands_out(
            before,
            after,
            fx,
            Effect::SymbolDescribe { symbol_id: d.symbol_id, description: d.description },
        ),
        Op::UpdateSparseCode(x) => after == before && sparse_done(before, x, fx),
        Op::TrainPQ(x) => hands_out(
            before,
            after,
            fx,
            Effect::CorticalCodebook { bytes: x.codebook_bytes },
        ),
        Op::UpdateResidualPQ(x) => {
            &&& after == before
            &&& fx == if x.pq_bytes@.len() == RESIDUAL_CODES {
                seq![Effect::CorticalResidual { memory_id: x.memory_id, codes: x.pq_bytes }]
            } else {
                none
            }
        },
        Op::DemoteMemory(d) => {
            &&& after == (Model {
                states: if before.states.contains_key(d.memory_id) {
                    before.states.insert(
                        d.memory_id,
                        MemoryState { tier: d.new_tier, ..before.states[d.memory_id] },
                    )
                } else {
                    before.states
                },
                ..before
            })
            &&& fx == none
        },
        Op::RecordOutcome(r) => {
            &&& after == before
            &&& fx == if before.states.contains_key(r.memory_id) {
                seq![
                    Effect::Outcome { memory_id: r.memory_id, success: r.success, weight: r.weight },
                ]
            } else {
                none
            }
        },
        Op::UpdateMemoryContent(x) => content_done(before, after, x, fx),
        Op::UpdateMemoryKind(x) => {
            &&& after == (Model {
                payloads: if before.payloads.contains_key(x.memory_id) {
                    before.payloads.insert(
                        x.memory_id,
                        MemoryPayload { kind: x.new_kind, ..before.payloads[x.memory_id] },
                    )
                } else {
                    before.payloads
                },
                ..before
            })
            &&& fx == none
        },
        Op::RecordRecallBatch(x) => recall_done(before, after, x, fx),
        Op::SessionEvent(ev) => after == before && session_done(
            ev,
            json_text_member(ev.payload_json@, "kind"@),
            fx,
        ),
        _ => hands_out(before, after, fx, Effect::Organ(op)),
    }
}

/// How many residual codes a memory has.
pub const RESIDUAL_CODES: usize = 32;

/// The ids under each subject, and the next id, are as they were.
pub open spec fn same_listing(before: TripletStore, after: TripletStore) -> bool {
    &&& after.next() == before.next()
    &&& forall|s: Seq<char>| #[trigger] after.listed(s) == before.listed(s)
}

/// A fact was stored under its id.
pub open spec fn triplet_added(before: Model, after: Model, t: AddTripletOp) -> bool {
    let id = t.triplet_id;
    &&& after == (Model { triplets: after.triplets, ..before })
    &&& after.triplets.facts() == before.triplets.facts().insert(
        id,
        crate::triplet::TripletEntry {
            id,
            subject: t.subject,
            predicate: t.predicate,
            object: t.object,
            weight: t.weight,
            valid_from_ms: t.valid_from_ms,
            invalidated_at_ms: None,
            superseded_by: None,
            superseded_at_ms: None,
            source_memory_id: t.source_memory_id,
            source_file: t.source_file,
        },
    )
    &&& after.triplets.listed(t.subject@) == if before.triplets.listed(t.subject@).contains(id) {
        before.triplets.listed(t.subject@)
    } else {
        before.triplets.listed(t.subject@).push(id)
    }
    &&& forall|s: Seq<char>|
        s != t.subject@ ==> #[trigger] after.triplets.listed(s) == before.triplets.listed(s)
    &&& after.triplets.next() == if id < before.triplets.next() {
        before.triplets.next()
    } else if id < u64::MAX {
        (id + 1) as u64
    } else {
        u64::MAX
    }
}

fn one(e: Effect) -> (fx: Vec<Effect>)
    ensures
        fx@ == seq![e],
{
    let mut fx: Vec<Effect> = Vec::new();
    fx.push(e);
    assert(fx@ =~= seq![e]);
    fx
}

/// Applies one logged operation and returns what it asks of everything else.
pub fn apply_op(op: Op, ctx: &mut Projections) -> (fx: Vec<Effect>)
    requires
        old(ctx).wf(),
    ensures
        final(ctx).wf(),
        op_done(old(ctx)@, final(ctx)@, op, fx@),
{
    broadcast use vstd::std_specs::btree::group_btree_axioms;

    let ghost before = ctx@;
    match op {
        Op::PutPayload(put) => ctx.put(put),
        Op::UpdateStateBatch(deltas) => {
            ctx.access_batch(&deltas);
            Vec::new()
        },
        Op::UpdateState(delta) => {
            let now: Option<i64> = match ctx.states.get(&delta.memory_id) {
                Some(state) => Some(
                    if delta.op_ts_ms > 0 {
                        delta.op_ts_ms
                    } else {
                        state.created_at_ms
                    },
                ),
                None => None,
            };
            match now {
                Some(now_ms) => one(Effect::StateDelta { delta, now_ms }),
                None => Vec::new(),
            }
        },
        Op::DeleteMemory(del) => ctx.delete(del.memory_id),
        Op::AddAssocEdge(e) => {
            ctx.edges.append(
                e.src,
                AssocEdge { dst: e.dst, edge_type: e.edge_type, weight: e.weight },
            );
            Vec::new()
        },
        Op::StrengthenAssocEdge(e) => one(
            Effect::Strengthen {
                src: e.src,
                dst: e.dst,
                edge_type: e.edge_type,
                delta: e.delta,
                multiplier: 1,
            },
        ),
        Op::UpsertArtifact(a) => {
            if ctx.artifacts.get(a.normalized_path.as_str()).is_none() {
                ctx.artifacts.insert(a.normalized_path.clone(), a.artifact_id);
            }
            if !ctx.artifact_paths.contains_key(&a.artifact_id) {
                ctx.artifact_paths.insert(a.artifact_id, a.normalized_path);
            }
            Vec::new()
        },
        Op::AddTriplet(t) => {
            ctx.triplets.replay_add(
                t.triplet_id,
                t.subject,
                t.predicate,
                t.object,
                t.weight,
                t.valid_from_ms,
                t.source_memory_id,
                t.source_file,
            );
            Vec::new()
        },
        Op::InvalidateTriplet(t) => {
            ctx.triplets.invalidate(t.triplet_id, t.invalidated_at_ms);
            Vec::new()
        },
        Op::SupersedeTriplet(t) => {
            ctx.triplets.supersede(t.old_id, t.new_id, t.superseded_at_ms);
            Vec::new()
        },
        Op::InvalidateTripletsBySourceFile(t) => {
            ctx.triplets.invalidate_by_source_file(t.source_file.as_str(), t.invalidated_at_ms);
            Vec::new()
        },
        Op::UpsertSymbol(x) => one(Effect::SymbolUpsert(x)),
        Op::RemoveSymbol(x) => {
            let mut fx = one(Effect::SymbolRemove { symbol_id: x.symbol_id });
            fx.push(Effect::CallGraphForget { symbol_id: x.symbol_id });
            assert(fx@ =~= seq![
                Effect::SymbolRemove { symbol_id: x.symbol_id },
                Effect::CallGraphForget { symbol_id: x.symbol_id },
            ]);
            fx
        },
        Op::AddSymCallEdge(e) => one(
            Effect::CallEdgeAdd { caller_id: e.caller_id, callee_id: e.callee_id },
        ),
        Op::RemoveSymCallEdge(e) => one(
            Effect::CallEdgeCut { caller_id: e.caller_id, callee_id: e.callee_id },
        ),
        Op::UpsertCodeFile(f) => one(Effect::CodeFileUpsert(f)),
        Op::ClearProject(c) => one(Effect::ProjectClear { project: c.project }),
        Op::UpdateSymbolDescription(d) => one(
            Effect::SymbolDescribe { symbol_id: d.symbol_id, description: d.description },
        ),
        Op::UpdateSparseCode(x) => ctx.sparse_code(x),
        Op::TrainPQ(x) => one(Effect::CorticalCodebook { bytes: x.codebook_bytes }),
        Op::UpdateResidualPQ(x) => {
            if x.pq_bytes.len() == RESIDUAL_CODES {
                one(Effect::CorticalResidual { memory_id: x.memory_id, codes: x.pq_bytes })
            } else {
                Vec::new()
            }
        },
        Op::DemoteMemory(d) => {
            if let Some(mut state) = ctx.states.remove(&d.memory_id) {
                state.tier = d.new_tier;
                ctx.states.insert(d.memory_id, state);
            }
            proof {
                let states = if before.states.contains_key(d.memory_id) {
                    before.states.insert(
                        d.memory_id,
                        MemoryState { tier: d.new_tier, ..before.states[d.memory_id] },
                    )
                } else {
                    before.states
                };
                assert(ctx@.states =~= states);
            }
            Vec::new()
        },
        Op::RecordOutcome(r) => {
            if ctx.states.contains_key(&r.memory_id) {
                one(
                    Effect::Outcome { memory_id: r.memory_id, success: r.success, weight: r.weight },
                )
            } else {
                Vec::new()
            }
        },
        Op::UpdateMemoryContent(x) => ctx.set_content(x),
        Op::UpdateMemoryKind(x) => {
            let ghost new_kind = x.new_kind;
            if let Some(mut payload) = ctx.payloads.remove(&x.memory_id) {
                payload.kind = x.new_kind;
                ctx.payloads.insert(x.memory_id, payload);
            }
            proof {
                let payloads = if before.payloads.contains_key(x.memory_id) {
                    before.payloads.insert(
                        x.memory_id,
                        MemoryPayload { kind: new_kind, ..before.payloads[x.memory_id] },
                    )
                } else {
                    before.payloads
                };
                assert(ctx@.payloads =~= payloads);
            }
            Vec::new()
        },
        Op::RecordRecallBatch(x) => ctx.recall(&x),
        Op::SessionEvent(ev) => {
            let kind = text_member(ev.payload_json.as_slice(), "kind");
            session_effects(&ev, kind)
        },
        organ_owned => one(Effect::Organ(organ_owned)),
    }
}

/// A deleted memory has no associations, no co-activation and no text, and is marked deleted.
pub proof fn deletion_leaves_no_trace(before: Model, after: Model, id: u64, fx: Seq<Effect>)
    requires
        delete_done(before, after, id, fx),
    ensures
        !after.edges.contains_key(id),
        forall|src: u64, i: int|
            #![trigger after.edges[src][i]]
            after.edges.contains_key(src) && 0 <= i < after.edges[src].len() ==> after.edges[src][i].dst
                != id,
        forall|p: (u64, u64)| #[trigger] after.pairs.contains_key(p) ==> p.0 != id && p.1 != id,
        after.states.contains_key(id) ==> after.states[id].deleted,
        after.payloads.contains_key(id) ==> after.payloads[id].content@ == Seq::<u8>::empty(),
        before.payloads.contains_key(id) ==> !crate::members::members_of(
            after.realms,
            before.payloads[id].realm@,
        ).contains(id),
        before.payloads.contains_key(id) ==> !crate::members::members_of(
            after.kinds,
            before.payloads[id].kind@,
        ).contains(id),
{
    crate::assoc::detached_has_no_edges(before.edges, id);
}

/// An operation on one memory leaves the payloads and states of all others alone.
pub proof fn writes_are_local(before: Model, after: Model, op: Op, fx: Seq<Effect>, other: u64)
    requires
        op_done(before, after, op, fx),
        op matches Op::PutPayload(put) ==> put.memory_id != other,
        op matches Op::DeleteMemory(del) ==> del.memory_id != other,
        op matches Op::UpdateMemoryContent(x) ==> x.memory_id != other,
        op matches Op::UpdateMemoryKind(x) ==> x.memory_id != other,
        op matches Op::DemoteMemory(x) ==> x.memory_id != other,
        !(op is UpdateStateBatch) && !(op is RecordRecallBatch),
    ensures
        after.payloads.contains_key(other) <==> before.payloads.contains_key(other),
        after.payloads.contains_key(other) ==> after.payloads[other] == before.payloads[other],
        after.states.contains_key(other) <==> before.states.contains_key(other),
        after.states.contains_key(other) ==> after.states[other] == before.states[other],
{
    match op {
        Op::PutPayload(put) => {
            assert(after.payloads.remove(put.memory_id).contains_key(other)
                <==> before.payloads.remove(put.memory_id).contains_key(other));
            assert(after.payloads.remove(put.memory_id)[other] == before.payloads.remove(
                put.memory_id,
            )[other]);
            assert(after.states.remove(put.memory_id).contains_key(other) <==> before.states.remove(
                put.memory_id,
            ).contains_key(other));
            assert(after.states.remove(put.memory_id)[other] == before.states.remove(
                put.memory_id,
            )[other]);
        },
        Op::DeleteMemory(del) => {
            assert(after.payloads.remove(del.memory_id)[other] == before.payloads.remove(
                del.memory_id,
            )[other]);
            assert(after.payloads.dom().contains(other) <==> before.payloads.dom().contains(other));
        },
        Op::UpdateMemoryContent(x) => {
            assert(after.payloads.remove(x.memory_id)[other] == before.payloads.remove(
                x.memory_id,
            )[other]);
            assert(after.payloads.dom().contains(other) <==> before.payloads.dom().contains(other));
        },
        _ => {},
    }
}

/// Organ-owned operations never change the projections; they reach their organ as they are.
pub proof fn organ_operations_pass_through(before: Model, after: Model, op: Op, fx: Seq<Effect>)
    requires
        op_done(before, after, op, fx),
        crate::ablation::owner(op) is Some,
        !(op is SessionEvent),
        !op.cortical(),
    ensures
        after == before,
        fx == seq![Effect::Organ(op)],
{
}

/// Doing items one after the other is doing all but the last, and then the last.
pub proof fn folded_last<S, A>(before: S, after: S, items: Seq<A>, step: spec_fn(S, S, A) -> bool) -> (mid: S)
    requires
        folded(before, after, items, step),
        items.len() > 0,
    ensures
        folded(before, mid, items.drop_last(), step),
        step(mid, after, items.last()),
{
    let steps = choose|steps: Seq<S>| #[trigger]
        chain(steps, items, step) && steps.first() == before && steps.last() == after;
    let n = items.len() - 1;
    let front = steps.drop_last();
    assert forall|k: int| 0 <= k < items.drop_last().len() implies step(
        #[trigger] front[k],
        front[k + 1],
        items.drop_last()[k],
    ) by {
        assert(step(steps[k], steps[k + 1], items[k]));
    }
    assert(chain(front, items.drop_last(), step));
    assert(step(steps[n], steps[n + 1], items[n]));
    steps[n]
}

/// Doing nothing changes nothing.
pub proof fn folded_none<S, A>(before: S, after: S, items: Seq<A>, step: spec_fn(S, S, A) -> bool)
    requires
        folded(before, after, items, step),
        items.len() == 0,
    ensures
        before == after,
{
}

/// Which pairs of positions are listed before `(i, j)`, and how many they are.
proof fn pairs_listed(n: int, i: int, j: int)
    requires
        0 <= i <= n,
        0 <= j <= n,
    ensures
        pair_order(n, i, j).no_duplicates(),
        forall|a: int, b: int| #[trigger]
            pair_order(n, i, j).contains((a, b)) <==> 0 <= a < b && ((a < i && b < n) || (a == i && b < j)),
        2 * pair_order(n, i, j).len() == i * (2 * n - 1 - i) + if j > i + 1 {
            2 * (j - i - 1)
        } else {
            0
        },
    decreases i, j,
{
    let list = pair_order(n, i, j);
    if j > i + 1 {
        let front = pair_order(n, i, j - 1);
        pairs_listed(n, i, j - 1);
        assert(!front.contains((i, j - 1)));
        assert forall|a: int, b: int| #[trigger] list.contains((a, b)) <==> 0 <= a < b && ((a < i && b
            < n) || (a == i && b < j)) by {
            if list.contains((a, b)) && (a, b) != (i, j - 1) {
                let k = choose|k: int| 0 <= k < list.len() && list[k] == (a, b);
                assert(front[k] == (a, b));
                assert(front.contains((a, b)));
            }
            if front.contains((a, b)) {
                let k = choose|k: int| 0 <= k < front.len() && front[k] == (a, b);
                assert(list[k] == (a, b));
            }
            assert(list[list.len() - 1] == (i, j - 1));
        }
    } else if i > 0 {
        pairs_listed(n, i - 1, n);
        assert(i * (2 * n - 1 - i) == (i - 1) * (2 * n - 1 - (i - 1)) + 2 * (n - i)) by (nonlinear_arith);
    } else {
        assert(0 * (2 * n - 1 - 0) == 0) by (nonlinear_arith);
    }
}

/// What recording pairs one by one leaves of the statistics of the pair `p`.
proof fn recorded_so_far(
    steps: Seq<Map<(u64, u64), CoActivationStats>>,
    list: Seq<(int, int)>,
    op: RecordRecallBatchOp,
    fx: Seq<Effect>,
    n: int,
    p: (u64, u64),
)
    requires
        records_pairs(steps, list, op, fx),
        0 <= n <= list.len(),
    ensures
        ({
            let met = |k: int| 0 <= k < n && pair_of(
                op.memory_ids@[list[k].0],
                op.memory_ids@[list[k].1],
            ) == p;
            &&& (forall|k: int| !#[trigger] met(k)) ==> (steps[n].contains_key(p)
                <==> steps[0].contains_key(p)) && (steps[0].contains_key(p) ==> steps[n][p] == steps[0][p])
            &&& (exists|k: int| #[trigger] met(k)) ==> {
                &&& steps[n].contains_key(p)
                &&& steps[n][p].last_seen_ms == op.ts_ms
                &&& steps[n][p].recent_context_hashes@.contains(op.context_hash)
            }
            &&& forall|k: int| #[trigger] met(k) && (forall|l: int| #[trigger] met(l) ==> l == k) ==> {
                &&& steps[n][p].sim_count == if steps[0].contains_key(p) {
                    crate::coactivation::bumped(steps[0][p].sim_count)
                } else {
                    1
                }
                &&& steps[k + 1].contains_key(p) && steps[n][p] == steps[k + 1][p]
            }
        }),
    decreases n,
{
    let met = |k: int| 0 <= k < n && pair_of(op.memory_ids@[list[k].0], op.memory_ids@[list[k].1]) == p;
    if n > 0 {
        let m = n - 1;
        let was = |k: int| 0 <= k < m && pair_of(op.memory_ids@[list[k].0], op.memory_ids@[list[k].1])
            == p;
        recorded_so_far(steps, list, op, fx, m, p);
        assert(pair_step(steps, list, op, fx, m));
        reveal(pair_step);
        let q = pair_of(op.memory_ids@[list[m].0], op.memory_ids@[list[m].1]);
        assert(pair_recorded(steps[m], steps[m + 1], q, op.context_hash, op.ts_ms));
        assert forall|k: int| #[trigger] met(k) <==> was(k) || (k == m && q == p) by {}
        if q != p {
            assert(steps[m + 1].remove(q).contains_key(p) <==> steps[m].remove(q).contains_key(p));
            assert(steps[m].contains_key(p) ==> steps[m + 1].remove(q)[p] == steps[m].remove(q)[p]);
            if exists|k: int| #[trigger] met(k) {
                let k = choose|k: int| #[trigger] met(k);
                assert(was(k));
            }
            assert forall|k: int| #[trigger] met(k) && (forall|l: int| #[trigger] met(l) ==> l == k) implies {
                &&& steps[n][p].sim_count == if steps[0].contains_key(p) {
                    crate::coactivation::bumped(steps[0][p].sim_count)
                } else {
                    1
                }
                &&& steps[k + 1].contains_key(p) && steps[n][p] == steps[k + 1][p]
            } by {
                assert(was(k));
                assert forall|l: int| #[trigger] was(l) implies l == k by {
                    assert(met(l));
                }
            }
            if forall|k: int| !#[trigger] met(k) {
                assert forall|k: int| !#[trigger] was(k) by {
                    assert(!met(k));
                }
            }
        } else {
            assert(met(m));
            let seen = if steps[m].contains_key(p) {
                steps[m][p].recent_context_hashes@
            } else {
                Seq::<u64>::empty()
            };
            let now = steps[n][p].recent_context_hashes@;
            assert(now == crate::coactivation::contexts_after(seen, op.context_hash));
            if !seen.contains(op.context_hash) {
                assert(now[now.len() - 1] == op.context_hash);
            }
            assert(now.contains(op.context_hash));
            assert forall|k: int| #[trigger] met(k) && (forall|l: int| #[trigger] met(l) ==> l == k) implies {
                &&& steps[n][p].sim_count == if steps[0].contains_key(p) {
                    crate::coactivation::bumped(steps[0][p].sim_count)
                } else {
                    1
                }
                &&& steps[k + 1].contains_key(p) && steps[n][p] == steps[k + 1][p]
            } by {
                assert(k == m);
                assert forall|l: int| !#[trigger] was(l) by {
                    if was(l) {
                        assert(met(l));
                    }
                }
            }
        }
    }
}

/// Effect `k` strengthens the association from `src` to `dst` by being retrieved together.
pub open spec fn ties(fx: Seq<Effect>, k: int, src: u64, dst: u64, delta: u32) -> bool {
    0 <= k < fx.len() && (fx[k] matches Effect::Strengthen { src: s, dst: d, edge_type, delta: by, multiplier }
        && s == src && d == dst && edge_type is CoRetrieved && by == delta)
}

/// Some effect strengthens the association from `src` to `dst`.
pub open spec fn tied(fx: Seq<Effect>, src: u64, dst: u64, delta: u32) -> bool {
    exists|k: int| #[trigger] ties(fx, k, src, dst, delta)
}

/// Effect `k` strengthens the association between the memories at two positions of a batch.
pub open spec fn ties_two(fx: Seq<Effect>, k: int, ids: Seq<u64>, delta: u32) -> bool {
    exists|a: int, b: int|
        #![trigger ids[a], ids[b]]
        0 <= a < b < ids.len() && ties(fx, k, ids[a], ids[b], delta)
}

/// `list` has the pairs of positions that the effects of a recall are for.
spec fn recalled_pairs(list: Seq<(int, int)>, ids: Seq<u64>, fx: Seq<Effect>, delta: u32) -> bool {
    &&& list.len() == fx.len()
    &&& list.no_duplicates()
    &&& 2 * list.len() == ids.len() * (ids.len() - 1)
    &&& forall|a: int, b: int| #[trigger] list.contains((a, b)) <==> 0 <= a < b < ids.len()
    &&& forall|k: int|
        0 <= k < fx.len() ==> 0 <= (#[trigger] list[k]).0 < list[k].1 < ids.len() && ties(
            fx,
            k,
            ids[list[k].0],
            ids[list[k].1],
            delta,
        )
}

proof fn recall_has_pairs(before: Model, after: Model, op: RecordRecallBatchOp, fx: Seq<Effect>) -> (list: Seq<
    (int, int),
>)
    requires
        recall_done(before, after, op, fx),
    ensures
        recalled_pairs(list, op.memory_ids@, fx, op.base_assoc_delta),
{
    let n = op.memory_ids@.len() as int;
    let list = pair_order(n, n, n);
    pairs_listed(n, n, n);
    assert(n * (2 * n - 1 - n) == n * (n - 1)) by (nonlinear_arith);
    let steps = choose|steps: Seq<Map<(u64, u64), CoActivationStats>>| #[trigger]
        records_pairs(steps, list, op, fx) && steps.first() == before.pairs && steps.last()
            == after.pairs;
    assert forall|k: int| 0 <= k < fx.len() implies 0 <= (#[trigger] list[k]).0 < list[k].1 < n && ties(
        fx,
        k,
        op.memory_ids@[list[k].0],
        op.memory_ids@[list[k].1],
        op.base_assoc_delta,
    ) by {
        assert(pair_step(steps, list, op, fx, k));
        reveal(pair_step);
        assert(list.contains(list[k]));
        assert(list.contains((list[k].0, list[k].1)));
    }
    list
}

proof fn positions_are_tied(list: Seq<(int, int)>, ids: Seq<u64>, fx: Seq<Effect>, delta: u32, a: int, b: int)
    requires
        recalled_pairs(list, ids, fx, delta),
        0 <= a < b < ids.len(),
    ensures
        tied(fx, ids[a], ids[b], delta),
{
    assert(list.contains((a, b)));
    let k = choose|k: int| 0 <= k < list.len() && list[k] == (a, b);
    assert(ties(fx, k, ids[list[k].0], ids[list[k].1], delta));
}

proof fn effects_tie_two(list: Seq<(int, int)>, ids: Seq<u64>, fx: Seq<Effect>, delta: u32, k: int)
    requires
        recalled_pairs(list, ids, fx, delta),
        0 <= k < fx.len(),
    ensures
        ties_two(fx, k, ids, delta),
{
    assert(0 <= list[k].0 < list[k].1 && ties(fx, k, ids[list[k].0], ids[list[k].1], delta));
}

proof fn tied_once(
    list: Seq<(int, int)>,
    ids: Seq<u64>,
    fx: Seq<Effect>,
    delta: u32,
    k: int,
    l: int,
    src: u64,
    dst: u64,
)
    requires
        recalled_pairs(list, ids, fx, delta),
        ids.no_duplicates(),
        ties(fx, k, src, dst, delta),
        ties(fx, l, src, dst, delta),
    ensures
        k == l,
{
    assert(0 <= list[k].0 < list[k].1);
    assert(0 <= list[l].0 < list[l].1);
    assert(ids[list[k].0] == ids[list[l].0]);
    assert(ids[list[k].1] == ids[list[l].1]);
    assert(list[k] == list[l]);
}

/// When a batch is recalled, any two of its positions strengthen the association between the
/// memories there, in the order of the positions, and nothing else does: for `n` memories there are
/// `n * (n - 1) / 2` effects, and no two of them for the same association where no memory occurs
/// twice.
pub proof fn recall_strengthens_every_pair(before: Model, after: Model, op: RecordRecallBatchOp, fx: Seq<Effect>)
    requires
        recall_done(before, after, op, fx),
    ensures
        2 * fx.len() == op.memory_ids@.len() * (op.memory_ids@.len() - 1),
        forall|a: int, b: int|
            0 <= a < b < op.memory_ids@.len() ==> #[trigger] tied(
                fx,
                op.memory_ids@[a],
                op.memory_ids@[b],
                op.base_assoc_delta,
            ),
        forall|k: int|
            0 <= k < fx.len() ==> #[trigger] ties_two(fx, k, op.memory_ids@, op.base_assoc_delta),
        op.memory_ids@.no_duplicates() ==> forall|k: int, l: int, src: u64, dst: u64| #[trigger]
            ties(fx, k, src, dst, op.base_assoc_delta) && #[trigger] ties(
                fx,
                l,
                src,
                dst,
                op.base_assoc_delta,
            ) ==> k == l,
{
    let list = recall_has_pairs(before, after, op, fx);
    let ids = op.memory_ids@;
    let delta = op.base_assoc_delta;
    assert forall|a: int, b: int| 0 <= a < b < ids.len() implies #[trigger] tied(
        fx,
        op.memory_ids@[a],
        op.memory_ids@[b],
        op.base_assoc_delta,
    ) by {
        positions_are_tied(list, ids, fx, delta, a, b);
    }
    assert forall|k: int| 0 <= k < fx.len() implies #[trigger] ties_two(
        fx,
        k,
        op.memory_ids@,
        op.base_assoc_delta,
    ) by {
        effects_tie_two(list, ids, fx, delta, k);
    }
    if ids.no_duplicates() {
        assert forall|k: int, l: int, src: u64, dst: u64| #[trigger]
            ties(fx, k, src, dst, op.base_assoc_delta) && #[trigger] ties(
                fx,
                l,
                src,
                dst,
                op.base_assoc_delta,
            ) implies k == l by {
            tied_once(list, ids, fx, delta, k, l, src, dst);
        }
    }
}

/// The recording of the pairs of a recall, one by one.
proof fn recall_has_steps(before: Model, after: Model, op: RecordRecallBatchOp, fx: Seq<Effect>) -> (steps: Seq<
    Map<(u64, u64), CoActivationStats>,
>)
    requires
        recall_done(before, after, op, fx),
    ensures
        ({
            let n = op.memory_ids@.len() as int;
            let list = pair_order(n, n, n);
            &&& records_pairs(steps, list, op, fx)
            &&& steps[0] == before.pairs && steps[list.len() as int] == after.pairs
            &&& list.no_duplicates()
            &&& forall|a: int, b: int| #[trigger] list.contains((a, b)) <==> 0 <= a < b < n
        }),
{
    let n = op.memory_ids@.len() as int;
    let list = pair_order(n, n, n);
    pairs_listed(n, n, n);
    choose|steps: Seq<Map<(u64, u64), CoActivationStats>>| #[trigger]
        records_pairs(steps, list, op, fx) && steps.first() == before.pairs && steps.last()
            == after.pairs
}

/// The place of two positions among the pairs that are recorded, and what comes of it.
proof fn recall_records_pair(
    before: Model,
    after: Model,
    op: RecordRecallBatchOp,
    fx: Seq<Effect>,
    a: int,
    b: int,
)
    requires
        recall_done(before, after, op, fx),
        0 <= a < b < op.memory_ids@.len(),
    ensures
        ({
            let p = pair_of(op.memory_ids@[a], op.memory_ids@[b]);
            &&& after.pairs.contains_key(p)
            &&& after.pairs[p].last_seen_ms == op.ts_ms
            &&& after.pairs[p].recent_context_hashes@.contains(op.context_hash)
            &&& op.memory_ids@.no_duplicates() ==> after.pairs[p].sim_count
                == if before.pairs.contains_key(p) {
                crate::coactivation::bumped(before.pairs[p].sim_count)
            } else {
                1
            }
            &&& op.memory_ids@.no_duplicates() ==> exists|k: int|
                0 <= k < fx.len() && #[trigger] fx[k] == (Effect::Strengthen {
                    src: op.memory_ids@[a],
                    dst: op.memory_ids@[b],
                    edge_type: EdgeType::CoRetrieved,
                    delta: op.base_assoc_delta,
                    multiplier: multiplier_of(after.pairs[p]) as u32,
                })
        }),
{
    let ids = op.memory_ids@;
    let n = ids.len() as int;
    let list = pair_order(n, n, n);
    let steps = recall_has_steps(before, after, op, fx);
    let m = list.len() as int;
    let p = pair_of(ids[a], ids[b]);
    assert(list.contains((a, b)));
    let k = choose|k: int| 0 <= k < list.len() && list[k] == (a, b);
    recorded_so_far(steps, list, op, fx, m, p);
    let met = |k: int| 0 <= k < m && pair_of(op.memory_ids@[list[k].0], op.memory_ids@[list[k].1]) == p;
    assert(met(k));
    if ids.no_duplicates() {
        assert forall|l: int| #[trigger] met(l) implies l == k by {
            assert(list.contains(list[l]));
            assert(list.contains((list[l].0, list[l].1)));
            assert(list[l] == list[k]);
        }
        assert(pair_step(steps, list, op, fx, k));
        reveal(pair_step);
    }
}

/// When a batch is recalled, the statistics of the pair of any two positions, the smaller id first,
/// have seen the recall. Where no memory occurs twice the pair counts one retrieval more, and its
/// association is strengthened by retrievals times contexts, up to sixteen times.
pub proof fn recall_counts_every_pair(
    before: Model,
    after: Model,
    op: RecordRecallBatchOp,
    fx: Seq<Effect>,
    a: int,
    b: int,
)
    requires
        recall_done(before, after, op, fx),
        0 <= a < b < op.memory_ids@.len(),
    ensures
        ({
            let p = if op.memory_ids@[a] <= op.memory_ids@[b] {
                (op.memory_ids@[a], op.memory_ids@[b])
            } else {
                (op.memory_ids@[b], op.memory_ids@[a])
            };
            let product = after.pairs[p].sim_count * after.pairs[p].diversity_count;
            &&& after.pairs.contains_key(p)
            &&& after.pairs[p].last_seen_ms == op.ts_ms
            &&& after.pairs[p].recent_context_hashes@.contains(op.context_hash)
            &&& op.memory_ids@.no_duplicates() && !before.pairs.contains_key(p)
                ==> after.pairs[p].sim_count == 1
            &&& op.memory_ids@.no_duplicates() && before.pairs.contains_key(p)
                && before.pairs[p].sim_count < u32::MAX ==> after.pairs[p].sim_count
                == before.pairs[p].sim_count + 1
            &&& op.memory_ids@.no_duplicates() ==> exists|k: int|
                0 <= k < fx.len() && (#[trigger] fx[k] matches Effect::Strengthen {
                    src,
                    dst,
                    edge_type,
                    delta,
                    multiplier,
                } && src == op.memory_ids@[a] && dst == op.memory_ids@[b] && multiplier == if product
                    < 16 {
                    product
                } else {
                    16
                })
        }),
{
    recall_records_pair(before, after, op, fx, a, b);
    let p = pair_of(op.memory_ids@[a], op.memory_ids@[b]);
    let product = after.pairs[p].sim_count * after.pairs[p].diversity_count;
    assert(product >= 0) by (nonlinear_arith)
        requires
            product == after.pairs[p].sim_count * after.pairs[p].diversity_count,
    ;
}

/// `p` is made of the memories at two positions of a batch.
pub open spec fn pair_in(ids: Seq<u64>, p: (u64, u64)) -> bool {
    exists|a: int, b: int|
        #![trigger ids[a], ids[b]]
        0 <= a < b < ids.len() && (p == (ids[a], ids[b]) || p == (ids[b], ids[a]))
}

/// A recall leaves the statistics of every pair that is not of the batch as they were.
pub proof fn recall_leaves_other_pairs(
    before: Model,
    after: Model,
    op: RecordRecallBatchOp,
    fx: Seq<Effect>,
    p: (u64, u64),
)
    requires
        recall_done(before, after, op, fx),
        !pair_in(op.memory_ids@, p),
    ensures
        after.pairs.contains_key(p) <==> before.pairs.contains_key(p),
        before.pairs.contains_key(p) ==> after.pairs[p] == before.pairs[p],
{
    let ids = op.memory_ids@;
    let n = ids.len() as int;
    let list = pair_order(n, n, n);
    let steps = recall_has_steps(before, after, op, fx);
    let m = list.len() as int;
    recorded_so_far(steps, list, op, fx, m, p);
    let met = |k: int| 0 <= k < m && pair_of(op.memory_ids@[list[k].0], op.memory_ids@[list[k].1]) == p;
    assert forall|k: int| !#[trigger] met(k) by {
        if met(k) {
            assert(list.contains(list[k]));
            assert(list.contains((list[k].0, list[k].1)));
            assert(p == (ids[list[k].0], ids[list[k].1]) || p == (ids[list[k].1], ids[list[k].0]));
        }
    }
}

/// A recall leaves each of its memories with the recall as its latest access and in its history,
/// counted once where the memory occurs once, and leaves all other states alone.
pub proof fn recalled_memories_are_touched(before: Model, after: Model, op: RecordRecallBatchOp, fx: Seq<Effect>)
    requires
        recall_done(before, after, op, fx),
    ensures
        after.states.dom() == before.states.dom(),
        forall|id: u64| #[trigger]
            before.states.contains_key(id) && !op.memory_ids@.contains(id) ==> after.states[id]
                == before.states[id],
        forall|id: u64| #[trigger]
            before.states.contains_key(id) && op.memory_ids@.contains(id) ==> {
                let history = after.states[id].retrieval_history@;
                &&& after.states[id].last_accessed_ms == op.ts_ms
                &&& history.len() > 0 && history.last().context_hash == op.context_hash
                &&& history.last().ts_ms == op.ts_ms && history.last().centroid_q@ == op.centroid_q@
                &&& history.last().scale == op.centroid_scale
                &&& after.states[id].strength == before.states[id].strength
                &&& after.states[id].deleted == before.states[id].deleted
                &&& after.states[id].access_timestamps == before.states[id].access_timestamps
                &&& op.memory_ids@.no_duplicates() ==> history.len()
                    == before.states[id].retrieval_history@.len() + 1
                &&& op.memory_ids@.no_duplicates() && before.states[id].access_count < u32::MAX
                    ==> after.states[id].access_count == before.states[id].access_count + 1
            },
{
    touches_add_up(before.states, after.states, op.memory_ids@, op);
}

/// `t` is `s` after a recall of the memory by `op`, as far as its latest part is concerned.
spec fn recalled_last(s: MemoryState, t: MemoryState, op: RecordRecallBatchOp) -> bool {
    let history = t.retrieval_history@;
    &&& t.last_accessed_ms == op.ts_ms
    &&& history.len() > 0 && history.last().context_hash == op.context_hash
    &&& history.last().ts_ms == op.ts_ms && history.last().centroid_q@ == op.centroid_q@
    &&& history.last().scale == op.centroid_scale
    &&& t.strength == s.strength
    &&& t.deleted == s.deleted
    &&& t.access_timestamps == s.access_timestamps
}

proof fn touches_add_up(
    before: Map<u64, MemoryState>,
    after: Map<u64, MemoryState>,
    ids: Seq<u64>,
    op: RecordRecallBatchOp,
)
    requires
        folded(
            before,
            after,
            ids,
            |s: Map<u64, MemoryState>, t: Map<u64, MemoryState>, id: u64| touch_step(s, t, id, op),
        ),
    ensures
        after.dom() == before.dom(),
        forall|id: u64| #[trigger]
            before.contains_key(id) && !ids.contains(id) ==> after[id] == before[id],
        forall|id: u64| #[trigger]
            before.contains_key(id) && ids.contains(id) ==> recalled_last(before[id], after[id], op),
        ids.no_duplicates() ==> forall|id: u64| #[trigger]
            before.contains_key(id) && ids.contains(id) ==> after[id].retrieval_history@.len()
                == before[id].retrieval_history@.len() + 1 && after[id].access_count
                == crate::coactivation::bumped(before[id].access_count),
    decreases ids.len(),
{
    let step = |s: Map<u64, MemoryState>, t: Map<u64, MemoryState>, id: u64| touch_step(s, t, id, op);
    if ids.len() == 0 {
        folded_none(before, after, ids, step);
    } else {
        let mid = folded_last(before, after, ids, step);
        let front = ids.drop_last();
        let last = ids.last();
        touches_add_up(before, mid, front, op);
        assert(touch_step(mid, after, last, op));
        assert forall|id: u64| ids.contains(id) <==> front.contains(id) || id == last by {
            if ids.contains(id) && id != last {
                let k = choose|k: int| 0 <= k < ids.len() && ids[k] == id;
                assert(front[k] == id);
            }
            if front.contains(id) {
                let k = choose|k: int| 0 <= k < front.len() && front[k] == id;
                assert(ids[k] == id);
            }
            assert(ids[ids.len() - 1] == last);
        }
        if ids.no_duplicates() {
            assert(!front.contains(last)) by {
                if front.contains(last) {
                    let k = choose|k: int| 0 <= k < front.len() && front[k] == last;
                    assert(ids[k] == ids[ids.len() - 1]);
                }
            }
        }
        if mid.contains_key(last) {
            assert forall|id: u64| id != last implies (after.contains_key(id) <==> mid.contains_key(id))
                && (mid.contains_key(id) ==> after[id] == mid[id]) by {
                assert(after.remove(last).contains_key(id) <==> mid.remove(last).contains_key(id));
                assert(mid.contains_key(id) ==> after.remove(last)[id] == mid.remove(last)[id]);
            }
        }
        assert(after.dom() =~= before.dom());
    }
}

/// A memory that was written is there as it was written, belongs to its realm and its kind, and is
/// handed to the indexes: its embedding, its text, its time, and its artifacts with known paths. A
/// state that it had is kept at the new version.
pub proof fn written_memories_are_there(before: Model, after: Model, put: PutPayloadOp, fx: Seq<Effect>)
    requires
        put_done(before, after, put, fx),
    ensures
        ({
            let id = put.memory_id;
            let p = after.payloads[id];
            let s = after.states[id];
            &&& after.payloads.contains_key(id) && after.states.contains_key(id)
            &&& p.content@ == put.content@ && p.kind@ == put.kind@ && p.realm@ == put.realm@
            &&& p.version == put.version && p.chunk_hash == put.chunk_hash
            &&& p.created_at_ms == put.created_at_ms && p.authored_at_ms == put.authored_at_ms
            &&& p.artifact_refs@ == put.artifact_refs@ && p.embedding@.len() == 0
            &&& p.embedding_dim == put.embedding@.len() as u32
            &&& s.current_version == put.version && s.current_chunk_hash == put.chunk_hash
            &&& before.states.contains_key(id) ==> s.strength == before.states[id].strength && s.confidence
                == before.states[id].confidence && s.access_count == before.states[id].access_count
                && s.deleted == before.states[id].deleted && s.pinned == before.states[id].pinned
                && s.created_at_ms == before.states[id].created_at_ms && s.tier == before.states[id].tier
            &&& !before.states.contains_key(id) ==> s.created_at_ms == put.created_at_ms && !s.deleted
                && s.access_count == 0 && s.strength == before.defaults.strength
            &&& crate::members::members_of(after.realms, put.realm@).contains(id)
            &&& crate::members::members_of(after.kinds, put.kind@).contains(id)
            &&& after.chunk_ids.contains_key(put.chunk_hash)
            &&& !before.chunk_ids.contains_key(put.chunk_hash) ==> after.chunk_ids[put.chunk_hash] == id
            &&& before.chunk_ids.contains_key(put.chunk_hash) ==> after.chunk_ids[put.chunk_hash]
                == before.chunk_ids[put.chunk_hash]
            &&& after.edges == before.edges && after.pairs == before.pairs && after.triplets
                == before.triplets
        }),
        exists|k: int|
            0 <= k < fx.len() && (#[trigger] fx[k] matches Effect::SemanticUpsert {
                memory_id,
                embedding,
                realm,
            } && memory_id == put.memory_id && embedding@ == put.embedding@ && realm@ == put.realm@),
        exists|k: int|
            0 <= k < fx.len() && (#[trigger] fx[k] matches Effect::KeywordIndex { memory_id, text }
                && memory_id == put.memory_id && (vstd::utf8::valid_utf8(put.content@)
                ==> vstd::utf8::encode_utf8(text@) == put.content@) && (!vstd::utf8::valid_utf8(
                put.content@,
            ) ==> text@.len() == 0)),
        exists|k: int|
            0 <= k < fx.len() && (#[trigger] fx[k] matches Effect::TimeUpsert {
                memory_id,
                ts_ms,
                kind,
                realm,
                strength,
            } && memory_id == put.memory_id && kind@ == put.kind@ && realm@ == put.realm@ && (
            put.authored_at_ms != 0 ==> ts_ms == put.authored_at_ms) && (put.authored_at_ms == 0 ==> ts_ms
                == put.created_at_ms) && strength == after.states[put.memory_id].strength),
        forall|i: int|
            0 <= i < put.artifact_refs@.len() && before.artifact_paths.contains_key(
                (#[trigger] put.artifact_refs@[i]).artifact_id,
            ) ==> exists|k: int|
                0 <= k < fx.len() && (#[trigger] fx[k] matches Effect::ArtifactAssociate {
                    memory_id,
                    artifact_id,
                    path,
                    strength,
                } && memory_id == put.memory_id && artifact_id == put.artifact_refs@[i].artifact_id
                    && path == before.artifact_paths[artifact_id]),
{
    broadcast use vstd::utf8::decode_utf8_encode_utf8;

    let pred = |r: ArtifactRef| before.artifact_paths.contains_key(r.artifact_id);
    let refs = put.artifact_refs@.filter(pred);
    assert(fx[0] is SemanticUpsert);
    assert(fx[1] is KeywordIndex);
    assert(fx[2] is TimeUpsert);
    assert forall|i: int|
        0 <= i < put.artifact_refs@.len() && before.artifact_paths.contains_key(
            (#[trigger] put.artifact_refs@[i]).artifact_id,
        ) implies exists|k: int|
        0 <= k < fx.len() && (#[trigger] fx[k] matches Effect::ArtifactAssociate {
            memory_id,
            artifact_id,
            path,
            strength,
        } && memory_id == put.memory_id && artifact_id == put.artifact_refs@[i].artifact_id && path
            == before.artifact_paths[artifact_id]) by {
        put.artifact_refs@.lemma_filter_contains(pred, i);
        let j = choose|j: int| 0 <= j < refs.len() && refs[j] == put.artifact_refs@[i];
        assert(fx[3 + j] is ArtifactAssociate);
    }
}

/// Whatever index a write puts a memory into, deleting the memory takes it out of.
pub proof fn deletion_leaves_every_index(
    before: Model,
    written: Model,
    put: PutPayloadOp,
    asked: Seq<Effect>,
    later: Model,
    after: Model,
    fx: Seq<Effect>,
)
    requires
        put_done(before, written, put, asked),
        later.payloads.contains_key(put.memory_id),
        delete_done(later, after, put.memory_id, fx),
    ensures
        forall|i: int|
            0 <= i < asked.len() ==> match #[trigger] asked[i] {
                Effect::SemanticUpsert { memory_id, .. } => fx.contains(Effect::SemanticRemove { memory_id }),
                Effect::KeywordIndex { memory_id, .. } => fx.contains(Effect::KeywordRemove { memory_id }),
                Effect::TimeUpsert { memory_id, .. } => fx.contains(
                    Effect::TimeRemove {
                        memory_id,
                        ts_ms: later.payloads[memory_id].authored_at_ms,
                    },
                ),
                Effect::ArtifactAssociate { memory_id, .. } => fx.contains(
                    Effect::ArtifactForget { memory_id },
                ),
                _ => false,
            },
        exists|i: int| 0 <= i < asked.len() && #[trigger] asked[i] is SemanticUpsert,
        exists|i: int| 0 <= i < asked.len() && #[trigger] asked[i] is KeywordIndex,
        exists|i: int| 0 <= i < asked.len() && #[trigger] asked[i] is TimeUpsert,
{
    let id = put.memory_id;
    assert(fx[0] == Effect::SemanticRemove { memory_id: id });
    assert(fx[1] == Effect::KeywordRemove { memory_id: id });
    assert(fx[2] == Effect::TimeRemove { memory_id: id, ts_ms: later.payloads[id].authored_at_ms });
    assert(fx[3] == Effect::ArtifactForget { memory_id: id });
    assert(asked[0] is SemanticUpsert && asked[1] is KeywordIndex && asked[2] is TimeUpsert);
    assert forall|i: int| 0 <= i < asked.len() implies match #[trigger] asked[i] {
        Effect::SemanticUpsert { memory_id, .. } => fx.contains(Effect::SemanticRemove { memory_id }),
        Effect::KeywordIndex { memory_id, .. } => fx.contains(Effect::KeywordRemove { memory_id }),
        Effect::TimeUpsert { memory_id, .. } => fx.contains(
            Effect::TimeRemove { memory_id, ts_ms: later.payloads[memory_id].authored_at_ms },
        ),
        Effect::ArtifactAssociate { memory_id, .. } => fx.contains(Effect::ArtifactForget { memory_id }),
        _ => false,
    } by {
        if i >= 3 {
            let refs = known_refs(put.artifact_refs@, before.artifact_paths);
            assert(asked[3 + (i - 3)] is ArtifactAssociate);
        }
    }
}

/// Deleting a memory asks the semantic, the keyword and the artifact index to forget it, known or
/// not, and the time index where it has a payload; it asks for nothing else, and for no other
/// memory.
pub proof fn deletion_asks_for_one_memory(before: Model, after: Model, id: u64, fx: Seq<Effect>)
    requires
        delete_done(before, after, id, fx),
    ensures
        fx.contains(Effect::SemanticRemove { memory_id: id }),
        fx.contains(Effect::KeywordRemove { memory_id: id }),
        fx.contains(Effect::ArtifactForget { memory_id: id }),
        before.payloads.contains_key(id) ==> fx.contains(
            Effect::TimeRemove { memory_id: id, ts_ms: before.payloads[id].authored_at_ms },
        ),
        forall|k: int|
            0 <= k < fx.len() ==> match #[trigger] fx[k] {
                Effect::SemanticRemove { memory_id } => memory_id == id,
                Effect::KeywordRemove { memory_id } => memory_id == id,
                Effect::ArtifactForget { memory_id } => memory_id == id,
                Effect::TimeRemove { memory_id, ts_ms } => memory_id == id,
                _ => false,
            },
{
    assert(fx[0] is SemanticRemove && fx[1] is KeywordRemove);
    assert(fx[fx.len() - 1] is ArtifactForget);
    if before.payloads.contains_key(id) {
        assert(fx[2] is TimeRemove);
    }
}

/// Deleting a memory leaves what other memories have: their associations among each other, their
/// statistics, their places in realms and kinds.
pub proof fn deletion_spares_the_others(before: Model, after: Model, id: u64, fx: Seq<Effect>)
    requires
        delete_done(before, after, id, fx),
    ensures
        forall|src: u64, i: int|
            #![trigger before.edges[src][i]]
            src != id && before.edges.contains_key(src) && 0 <= i < before.edges[src].len()
                && before.edges[src][i].dst != id ==> after.edges.contains_key(src)
                && after.edges[src].contains(before.edges[src][i]),
        forall|src: u64, i: int|
            #![trigger after.edges[src][i]]
            after.edges.contains_key(src) && 0 <= i < after.edges[src].len()
                ==> before.edges.contains_key(src) && before.edges[src].contains(after.edges[src][i]),
        forall|p: (u64, u64)|
            p.0 != id && p.1 != id && #[trigger] before.pairs.contains_key(p) ==> after.pairs.contains_key(
                p,
            ) && after.pairs[p] == before.pairs[p],
        forall|name: Seq<char>, other: u64|
            other != id && #[trigger] crate::members::members_of(before.realms, name).contains(other)
                ==> crate::members::members_of(after.realms, name).contains(other),
        forall|name: Seq<char>, other: u64|
            other != id && #[trigger] crate::members::members_of(before.kinds, name).contains(other)
                ==> crate::members::members_of(after.kinds, name).contains(other),
        after.artifacts == before.artifacts && after.triplets == before.triplets && after.chunk_ids
            == before.chunk_ids,
{
    let keep = |e: AssocEdge| e.dst != id;
    assert forall|src: u64, i: int|
        #![trigger before.edges[src][i]]
        src != id && before.edges.contains_key(src) && 0 <= i < before.edges[src].len()
            && before.edges[src][i].dst != id implies after.edges.contains_key(src)
        && after.edges[src].contains(before.edges[src][i]) by {
        before.edges[src].lemma_filter_contains(keep, i);
        assert(after.edges[src] == before.edges[src].filter(keep));
    }
    assert forall|src: u64, i: int|
        #![trigger after.edges[src][i]]
        after.edges.contains_key(src) && 0 <= i < after.edges[src].len() implies before.edges.contains_key(
        src,
    ) && before.edges[src].contains(after.edges[src][i]) by {
        assert(after.edges[src] == before.edges[src].filter(keep));
        assert(after.edges[src].contains(after.edges[src][i]));
        before.edges[src].lemma_filter_contains_rev(keep, after.edges[src][i]);
    }
}

/// Content that was replaced is there, with its new text in the keyword index; a new embedding goes
/// to the semantic index and is waited for no longer. Nothing else of the memory changes.
pub proof fn replaced_content_is_there(before: Model, after: Model, op: UpdateMemoryContentOp, fx: Seq<Effect>)
    requires
        content_done(before, after, op, fx),
    ensures
        before.payloads.contains_key(op.memory_id) ==> {
            let p = after.payloads[op.memory_id];
            let q = before.payloads[op.memory_id];
            &&& after.payloads.contains_key(op.memory_id) && p.content@ == op.content@
            &&& p.kind == q.kind && p.realm == q.realm && p.version == q.version && p.authored_at_ms
                == q.authored_at_ms && p.artifact_refs == q.artifact_refs
        },
        !before.payloads.contains_key(op.memory_id) ==> !after.payloads.contains_key(op.memory_id),
        op.embedding@.len() > 0 && before.states.contains_key(op.memory_id)
            ==> !after.states[op.memory_id].embed_pending,
        op.embedding@.len() == 0 ==> after.states == before.states,
        exists|k: int|
            0 <= k < fx.len() && (#[trigger] fx[k] matches Effect::KeywordIndex { memory_id, text }
                && memory_id == op.memory_id && (vstd::utf8::valid_utf8(op.content@)
                ==> vstd::utf8::encode_utf8(text@) == op.content@)),
        op.embedding@.len() > 0 ==> exists|k: int|
            0 <= k < fx.len() && (#[trigger] fx[k] matches Effect::SemanticUpsert {
                memory_id,
                embedding,
                realm,
            } && memory_id == op.memory_id && embedding@ == op.embedding@ && (
            before.payloads.contains_key(op.memory_id) ==> realm@ == before.payloads[op.memory_id].realm@)),
        op.embedding@.len() == 0 ==> forall|k: int|
            0 <= k < fx.len() ==> !(#[trigger] fx[k] is SemanticUpsert),
{
    broadcast use vstd::utf8::decode_utf8_encode_utf8;

    assert(fx[fx.len() - 1] is KeywordIndex);
    if op.embedding@.len() > 0 {
        assert(fx[0] is SemanticUpsert);
    }
    if before.payloads.contains_key(op.memory_id) {
        assert(after.payloads.dom().contains(op.memory_id));
    }
    assert(after.payloads.dom().contains(op.memory_id) <==> before.payloads.dom().contains(
        op.memory_id,
    ));
}

/// A session event reaches the registry as what it is called: only a registration registers the
/// session, only a heartbeat refreshes it, and only a deregistration removes it. It always reaches
/// the session it names, at its own time.
pub proof fn session_events_do_what_they_say(ev: SessionEventOp, kind: Option<Seq<char>>, fx: Seq<Effect>)
    requires
        session_done(ev, kind, fx),
    ensures
        (exists|k: int| 0 <= k < fx.len() && #[trigger] fx[k] is SessionRegister) <==> ev.kind@
            == "register"@,
        (exists|k: int| 0 <= k < fx.len() && #[trigger] fx[k] is SessionHeartbeat) <==> ev.kind@
            == "heartbeat"@,
        (exists|k: int| 0 <= k < fx.len() && #[trigger] fx[k] is SessionDeregister) <==> ev.kind@
            == "deregister"@,
        forall|k: int|
            0 <= k < fx.len() ==> match #[trigger] fx[k] {
                Effect::SessionRegister { session_id, kind: k2, realm, ts_ms } => session_id@
                    == ev.session_id@ && realm@ == ev.realm@ && ts_ms == ev.ts_ms && (kind matches Some(t)
                    ==> k2@ == t) && (kind is None ==> k2@.len() == 0),
                Effect::SessionHeartbeat { session_id, ts_ms } => session_id@ == ev.session_id@ && ts_ms
                    == ev.ts_ms,
                Effect::SessionDeregister { session_id } => session_id@ == ev.session_id@,
                Effect::Message(m) => m.event_id == ev.event_id && m.kind@ == ev.kind@ && m.target@
                    == ev.session_id@ && m.realm@ == ev.realm@ && m.ts_ms == ev.ts_ms && m.domain@
                    == "session"@,
                _ => false,
            },
        exists|k: int| 0 <= k < fx.len() && #[trigger] fx[k] is Message,
{
    reveal_strlit("register");
    reveal_strlit("heartbeat");
    reveal_strlit("deregister");
    assert("register"@.len() == 8 && "heartbeat"@.len() == 9 && "deregister"@.len() == 10);
    assert(fx[fx.len() - 1] is Message);
    assert(fx[0] == fx[0]);
}

/// The parts of an operation's result that depend on its kind only: what is stored is what the
/// operation says, and under the id that it names.
pub proof fn operations_store_what_they_say(before: Model, after: Model, op: Op, fx: Seq<Effect>)
    requires
        op_done(before, after, op, fx),
    ensures
        op matches Op::DemoteMemory(d) ==> (before.states.contains_key(d.memory_id)
            ==> after.states[d.memory_id].tier == d.new_tier && after.states[d.memory_id].strength
            == before.states[d.memory_id].strength && after.states[d.memory_id].deleted
            == before.states[d.memory_id].deleted),
        op matches Op::DemoteMemory(d) ==> after.states.dom() == before.states.dom() && fx.len() == 0,
        op matches Op::UpdateMemoryKind(x) ==> (before.payloads.contains_key(x.memory_id)
            ==> after.payloads[x.memory_id].kind@ == x.new_kind@ && after.payloads[x.memory_id].content
            == before.payloads[x.memory_id].content && after.payloads[x.memory_id].realm
            == before.payloads[x.memory_id].realm),
        op matches Op::AddAssocEdge(e) ==> {
            &&& after.edges.contains_key(e.src) && after.edges[e.src].len() > 0
            &&& after.edges[e.src].last().dst == e.dst && after.edges[e.src].last().edge_type
                == e.edge_type && after.edges[e.src].last().weight == e.weight
            &&& before.edges.contains_key(e.src) ==> after.edges[e.src].drop_last()
                == before.edges[e.src]
            &&& !before.edges.contains_key(e.src) ==> after.edges[e.src].len() == 1
            &&& forall|s: u64|
                s != e.src && #[trigger] before.edges.contains_key(s) ==> after.edges.contains_key(s)
                    && after.edges[s] == before.edges[s]
        },
        op matches Op::StrengthenAssocEdge(e) ==> fx.len() == 1 && (fx[0] matches Effect::Strengthen {
            src,
            dst,
            edge_type,
            delta,
            multiplier,
        } && src == e.src && dst == e.dst && edge_type == e.edge_type && delta == e.delta && multiplier
            == 1),
        op matches Op::UpsertArtifact(a) ==> {
            &&& after.artifacts.contains_key(a.normalized_path@) && after.artifact_paths.contains_key(
                a.artifact_id,
            )
            &&& !before.artifacts.contains_key(a.normalized_path@) ==> after.artifacts[a.normalized_path@]
                == a.artifact_id
            &&& !before.artifact_paths.contains_key(a.artifact_id) ==> after.artifact_paths[a.artifact_id]@
                == a.normalized_path@
            &&& forall|p: Seq<char>| #[trigger]
                before.artifacts.contains_key(p) ==> after.artifacts.contains_key(p)
                    && after.artifacts[p] == before.artifacts[p]
            &&& forall|k: u64| #[trigger]
                before.artifact_paths.contains_key(k) ==> after.artifact_paths.contains_key(k)
                    && after.artifact_paths[k] == before.artifact_paths[k]
        },
        op matches Op::UpdateState(d) ==> (before.states.contains_key(d.memory_id) ==> fx.len() == 1 && (
        fx[0] matches Effect::StateDelta { delta, now_ms } && delta == d && (d.op_ts_ms > 0 ==> now_ms
            == d.op_ts_ms) && (d.op_ts_ms <= 0 ==> now_ms == before.states[d.memory_id].created_at_ms))),
        op matches Op::UpdateState(d) ==> (!before.states.contains_key(d.memory_id) ==> fx.len() == 0),
        op matches Op::RecordOutcome(o) ==> (before.states.contains_key(o.memory_id) ==> fx.len() == 1
            && (fx[0] matches Effect::Outcome { memory_id, success, weight } && memory_id == o.memory_id
            && success == o.success && weight == o.weight)),
        op matches Op::RecordOutcome(o) ==> (!before.states.contains_key(o.memory_id) ==> fx.len() == 0),
        op matches Op::TrainPQ(x) ==> fx.len() == 1 && (fx[0] matches Effect::CorticalCodebook { bytes }
            && bytes@ == x.codebook_bytes@),
        op matches Op::UpdateResidualPQ(x) ==> (x.pq_bytes@.len() == 32 ==> fx.len() == 1 && (
        fx[0] matches Effect::CorticalResidual { memory_id, codes } && memory_id == x.memory_id && codes@
            == x.pq_bytes@)),
        op matches Op::UpdateResidualPQ(x) ==> (x.pq_bytes@.len() != 32 ==> fx.len() == 0),
{
    match op {
        Op::AddAssocEdge(e) => {
            let edge = AssocEdge { dst: e.dst, edge_type: e.edge_type, weight: e.weight };
            assert(outgoing(before.edges, e.src).push(edge).drop_last() =~= outgoing(before.edges, e.src));
        },
        Op::DemoteMemory(d) => {
            assert(after.states.dom() =~= before.states.dom());
        },
        _ => {},
    }
}

/// The code graph is asked for what an operation on it says.
pub proof fn code_operations_reach_the_graph(before: Model, after: Model, op: Op, fx: Seq<Effect>)
    requires
        op_done(before, after, op, fx),
    ensures
        op matches Op::AddSymCallEdge(e) ==> fx.len() == 1 && (fx[0] matches Effect::CallEdgeAdd {
            caller_id,
            callee_id,
        } && caller_id == e.caller_id && callee_id == e.callee_id),
        op matches Op::RemoveSymCallEdge(e) ==> fx.len() == 1 && (fx[0] matches Effect::CallEdgeCut {
            caller_id,
            callee_id,
        } && caller_id == e.caller_id && callee_id == e.callee_id),
        op matches Op::RemoveSymbol(x) ==> fx.contains(Effect::SymbolRemove { symbol_id: x.symbol_id })
            && fx.contains(Effect::CallGraphForget { symbol_id: x.symbol_id }) && fx.len() == 2,
        op matches Op::UpsertSymbol(x) ==> fx.len() == 1 && (fx[0] matches Effect::SymbolUpsert(y) && y
            == x),
        op matches Op::UpsertCodeFile(x) ==> fx.len() == 1 && (fx[0] matches Effect::CodeFileUpsert(y) && y
            == x),
        op matches Op::ClearProject(c) ==> fx.len() == 1 && (fx[0] matches Effect::ProjectClear {
            project,
        } && project@ == c.project@),
        op matches Op::UpdateSymbolDescription(d) ==> fx.len() == 1 && (
        fx[0] matches Effect::SymbolDescribe { symbol_id, description } && symbol_id == d.symbol_id
            && description@ == d.description@),
        op is AddSymCallEdge || op is RemoveSymCallEdge || op is RemoveSymbol || op is UpsertSymbol
            || op is UpsertCodeFile || op is ClearProject || op is UpdateSymbolDescription ==> after
            == before,
{
    if op is RemoveSymbol {
        let id = op->RemoveSymbol_0.symbol_id;
        assert(fx[0] == Effect::SymbolRemove { symbol_id: id });
        assert(fx[1] == Effect::CallGraphForget { symbol_id: id });
    }
}

/// A fact that was added can be read back under its id and is listed under its subject; until it is
/// invalidated or superseded it is in force. Other facts stay.
pub proof fn facts_change_as_logged(before: Model, after: Model, op: Op, fx: Seq<Effect>)
    requires
        op_done(before, after, op, fx),
    ensures
        op matches Op::AddTriplet(t) ==> {
            let f = after.triplets.facts()[t.triplet_id];
            &&& after.triplets.facts().contains_key(t.triplet_id)
            &&& f.subject@ == t.subject@ && f.predicate@ == t.predicate@ && f.object@ == t.object@
            &&& f.weight == t.weight && f.valid_from_ms == t.valid_from_ms && f.source_memory_id
                == t.source_memory_id && f.source_file == t.source_file
            &&& f.invalidated_at_ms is None && f.superseded_by is None && f.superseded_at_ms is None
            &&& after.triplets.listed(t.subject@).contains(t.triplet_id)
            &&& forall|s: Seq<char>, id: u64| #[trigger]
                before.triplets.listed(s).contains(id) ==> after.triplets.listed(s).contains(id)
            &&& t.triplet_id < u64::MAX ==> after.triplets.next() > t.triplet_id
            &&& after.triplets.next() >= before.triplets.next()
            &&& forall|id: u64|
                id != t.triplet_id && #[trigger] before.triplets.facts().contains_key(id)
                    ==> after.triplets.facts().contains_key(id) && after.triplets.facts()[id]
                    == before.triplets.facts()[id]
        },
        op matches Op::InvalidateTriplet(t) ==> (before.triplets.facts().contains_key(t.triplet_id) ==> {
            let f = after.triplets.facts()[t.triplet_id];
            let g = before.triplets.facts()[t.triplet_id];
            &&& f.invalidated_at_ms == Some(t.invalidated_at_ms)
            &&& f.subject == g.subject && f.predicate == g.predicate && f.object == g.object && f.weight
                == g.weight && f.superseded_by == g.superseded_by
            &&& forall|at: i64| #[trigger] f.unexpired(at) <==> at < t.invalidated_at_ms
        }),
        op matches Op::InvalidateTriplet(t) ==> forall|id: u64|
            id != t.triplet_id && #[trigger] before.triplets.facts().contains_key(id)
                ==> after.triplets.facts()[id] == before.triplets.facts()[id],
        op matches Op::SupersedeTriplet(t) ==> (before.triplets.facts().contains_key(t.old_id) ==> {
            let f = after.triplets.facts()[t.old_id];
            let g = before.triplets.facts()[t.old_id];
            &&& f.superseded_by == Some(t.new_id) && f.superseded_at_ms == Some(t.superseded_at_ms)
            &&& f.subject == g.subject && f.object == g.object && f.invalidated_at_ms
                == g.invalidated_at_ms
        }),
        op matches Op::InvalidateTripletsBySourceFile(t) ==> forall|id: u64| #[trigger]
            before.triplets.facts().contains_key(id) ==> {
                let f = after.triplets.facts()[id];
                let g = before.triplets.facts()[id];
                &&& g.invalidated_at_ms is None && (g.source_file matches Some(s) && s@ == t.source_file@)
                    ==> f.invalidated_at_ms == Some(t.invalidated_at_ms)
                &&& !(g.source_file matches Some(s) && s@ == t.source_file@) ==> f == g
                &&& g.invalidated_at_ms is Some ==> f == g
                &&& f.subject == g.subject && f.object == g.object
            },
        op is InvalidateTriplet || op is SupersedeTriplet || op is InvalidateTripletsBySourceFile ==> {
            &&& after.triplets.facts().dom() == before.triplets.facts().dom()
            &&& forall|s: Seq<char>| #[trigger] after.triplets.listed(s) == before.triplets.listed(s)
        },
{
    match op {
        Op::AddTriplet(t) => {
            let was = before.triplets.listed(t.subject@);
            let now = after.triplets.listed(t.subject@);
            if !was.contains(t.triplet_id) {
                assert(now[was.len() as int] == t.triplet_id);
            }
            assert forall|s: Seq<char>, id: u64| #[trigger]
                before.triplets.listed(s).contains(id) implies after.triplets.listed(s).contains(id) by {
                if s == t.subject@ {
                    let k = choose|k: int| 0 <= k < was.len() && was[k] == id;
                    assert(now[k] == id);
                }
            }
        },
        Op::InvalidateTriplet(t) => {
            assert(after.triplets.facts().dom() =~= before.triplets.facts().dom());
        },
        Op::SupersedeTriplet(t) => {
            assert(after.triplets.facts().dom() =~= before.triplets.facts().dom());
        },
        _ => {},
    }
}

/// An operation changes the one part of the projections that it is about, and there the one entry
/// that it names.
pub proof fn operations_touch_one_part(before: Model, after: Model, op: Op, fx: Seq<Effect>, id: u64)
    requires
        op_done(before, after, op, fx),
    ensures
        op is DemoteMemory || op is UpdateStateBatch ==> after == (Model { states: after.states, ..before }),
        op is UpdateMemoryKind ==> after == (Model { payloads: after.payloads, ..before }),
        op is AddAssocEdge ==> after == (Model { edges: after.edges, ..before }),
        op is AddTriplet || op is InvalidateTriplet || op is SupersedeTriplet
            || op is InvalidateTripletsBySourceFile ==> after == (Model {
            triplets: after.triplets,
            ..before
        }),
        op is UpsertArtifact ==> after == (Model {
            artifacts: after.artifacts,
            artifact_paths: after.artifact_paths,
            ..before
        }),
        op is UpdateState || op is StrengthenAssocEdge || op is RecordOutcome || op is UpdateSparseCode
            || op is TrainPQ || op is UpdateResidualPQ || op is SessionEvent ==> after == before,
        op matches Op::DemoteMemory(d) ==> (id != d.memory_id && before.states.contains_key(id)
            ==> after.states[id] == before.states[id]),
        op matches Op::DemoteMemory(d) ==> (before.states.contains_key(d.memory_id)
            ==> after.states[d.memory_id] == (MemoryState {
            tier: d.new_tier,
            ..before.states[d.memory_id]
        })),
        op matches Op::UpdateMemoryKind(x) ==> (id != x.memory_id && before.payloads.contains_key(id)
            ==> after.payloads[id] == before.payloads[id]),
        op is UpdateMemoryKind ==> after.payloads.dom() == before.payloads.dom(),
        op matches Op::SupersedeTriplet(t) ==> (id != t.old_id && before.triplets.facts().contains_key(id)
            ==> after.triplets.facts()[id] == before.triplets.facts()[id]),
        op matches Op::SupersedeTriplet(t) ==> (before.triplets.facts().contains_key(t.old_id)
            ==> after.triplets.facts()[t.old_id].predicate == before.triplets.facts()[t.old_id].predicate),
        op matches Op::TaskEvent(x) ==> fx.len() == 1 && fx[0] == Effect::Organ(op),
        op matches Op::AddTrigger(x) ==> fx.len() == 1 && fx[0] == Effect::Organ(op),
{
    if op is UpdateMemoryKind {
        assert(after.payloads.dom() =~= before.payloads.dom());
    }
}

/// A batch of accesses leaves alone every memory that it does not name, and makes no memory.
pub proof fn accesses_touch_what_they_name(before: Model, after: Model, deltas: Seq<StateDeltaOp>, id: u64)
    requires
        accesses_done(before, after, deltas),
        forall|i: int| 0 <= i < deltas.len() ==> (#[trigger] deltas[i]).memory_id != id,
    ensures
        after.states.contains_key(id) <==> before.states.contains_key(id),
        before.states.contains_key(id) ==> after.states[id] == before.states[id],
    decreases deltas.len(),
{
    let step = |s: Map<u64, MemoryState>, t: Map<u64, MemoryState>, d: StateDeltaOp| access_step(s, t, d);
    if deltas.len() == 0 {
        folded_none(before.states, after.states, deltas, step);
    } else {
        let mid = folded_last(before.states, after.states, deltas, step);
        let d = deltas.last();
        let part = Model { states: mid, ..before };
        assert forall|i: int| 0 <= i < deltas.drop_last().len() implies (
        #[trigger] deltas.drop_last()[i]).memory_id != id by {
            assert(deltas[i].memory_id != id);
        }
        assert(deltas[deltas.len() - 1].memory_id != id);
        accesses_touch_what_they_name(before, part, deltas.drop_last(), id);
        assert(step(mid, after.states, d));
        if mid.contains_key(d.memory_id) {
            assert(after.states.remove(d.memory_id).contains_key(id) <==> mid.remove(
                d.memory_id,
            ).contains_key(id));
            assert(mid.contains_key(id) ==> after.states.remove(d.memory_id)[id] == mid.remove(
                d.memory_id,
            )[id]);
        }
    }
}

/// The last access of a batch counts at the memory that it names, where that has a state.
pub proof fn each_access_of_a_batch_counts(before: Model, after: Model, deltas: Seq<StateDeltaOp>) -> (mid: Model)
    requires
        accesses_done(before, after, deltas),
        deltas.len() > 0,
    ensures
        accesses_done(before, mid, deltas.drop_last()),
        mid.states.contains_key(deltas.last().memory_id) ==> {
            let s = mid.states[deltas.last().memory_id];
            let t = after.states[deltas.last().memory_id];
            &&& s.access_count < u32::MAX ==> t.access_count == s.access_count + 1
            &&& t.last_accessed_ms >= deltas.last().op_ts_ms
        },
        !mid.states.contains_key(deltas.last().memory_id) ==> after == mid,
{
    let step = |s: Map<u64, MemoryState>, t: Map<u64, MemoryState>, d: StateDeltaOp| access_step(s, t, d);
    let states = folded_last(before.states, after.states, deltas, step);
    assert(step(states, after.states, deltas.last()));
    Model { states, ..before }
}

/// A sparse code is indexed under its memory, by its own features, with the strength, the time and
/// the kind that the memory has.
pub proof fn sparse_codes_are_indexed(before: Model, op: UpdateSparseCodeOp, fx: Seq<Effect>)
    requires
        sparse_done(before, op, fx),
    ensures
        fx.len() == 1,
        fx[0] matches Effect::CorticalIndex { memory_id, feature_ids, activations, strength, ts_ms, kind } && {
            &&& memory_id == op.memory_id
            &&& feature_ids@ == op.feature_ids@
            &&& activations@ == op.activations@
            &&& before.states.contains_key(op.memory_id) ==> strength == Some(
                before.states[op.memory_id].strength,
            )
            &&& !before.states.contains_key(op.memory_id) ==> strength is None
            &&& before.payloads.contains_key(op.memory_id) ==> ts_ms
                == before.payloads[op.memory_id].authored_at_ms && kind@
                == before.payloads[op.memory_id].kind@
            &&& !before.payloads.contains_key(op.memory_id) ==> ts_ms == op.ts_ms && kind@ == "unknown"@
        },
{
}

/// An effect on sessions is performed by the registry of sessions, a message by that of messages,
/// a cortical one by the cortical index, and an organ's operation by its owner. No organ performs
/// any other effect.
pub proof fn effects_go_to_their_organ(fx: Effect, r: Option<&'static str>)
    requires
        call_ensures(performing_organ, (&fx,), r),
    ensures
        fx is SessionRegister || fx is SessionHeartbeat || fx is SessionDeregister ==> r is Some && r->0@
            == "session_registry"@,
        fx is Message ==> r is Some && r->0@ == "msg_registry"@,
        fx is CorticalIndex || fx is CorticalCodebook || fx is CorticalResidual ==> r is Some && r->0@
            == "cortical_idx"@,
        fx matches Effect::Organ(op) ==> (op is TaskEvent ==> r is Some && r->0@ == "task_registry"@) && (
        op is AddTrigger ==> r is Some && r->0@ == "trigger_store"@) && (op is PutPayload ==> r is None),
        fx is SemanticUpsert || fx is SemanticRemove || fx is KeywordIndex || fx is KeywordRemove
            || fx is TimeUpsert || fx is TimeRemove || fx is ArtifactAssociate || fx is ArtifactForget
            || fx is StateDelta || fx is Outcome || fx is Strengthen || fx is SymbolUpsert
            || fx is CallEdgeAdd ==> r is None,
{
}

/// Cutting a call that is there forgets the caller and puts back every other callee, and never the
/// one that was cut. A call that is not there needs no cutting.
pub proof fn cutting_a_call_keeps_the_others(
    callees: Vec<u64>,
    caller: u64,
    callee: u64,
    fx: Vec<Effect>,
    c: u64,
    k: int,
)
    requires
        call_ensures(plan_call_edge_cut, (&callees, caller, callee), fx),
    ensures
        !callees@.contains(callee) ==> fx@.len() == 0,
        callees@.contains(callee) ==> fx@.len() > 0 && (fx@[0] matches Effect::CallGraphForget { symbol_id }
            && symbol_id == caller),
        callees@.contains(callee) && callees@.contains(c) && c != callee ==> exists|i: int|
            1 <= i < fx@.len() && #[trigger] fx@[i] == (Effect::CallEdgeAdd {
                caller_id: caller,
                callee_id: c,
            }),
        1 <= k < fx@.len() ==> (fx@[k] matches Effect::CallEdgeAdd { caller_id, callee_id } && caller_id
            == caller && callee_id != callee && callees@.contains(callee_id)),
{
    let pred = |x: u64| x != callee;
    let edge = |x: u64| Effect::CallEdgeAdd { caller_id: caller, callee_id: x };
    let kept = callees@.filter(pred);
    filter_members(callees@, pred);
    if callees@.contains(callee) {
        assert(fx@ == seq![Effect::CallGraphForget { symbol_id: caller }] + kept.map_values(edge));
        if callees@.contains(c) && c != callee {
            assert(pred(c));
            assert(kept.contains(c));
            let i = kept.index_of(c);
            assert(fx@[i + 1] == edge(c));
        }
        if 1 <= k < fx@.len() {
            assert(fx@[k] == edge(kept[k - 1]));
            assert(kept.contains(kept[k - 1]));
        }
    }
}

/// The call graph forgets each symbol that went with a project, and nothing else is asked of it.
pub proof fn cleared_symbols_are_forgotten(removed: Vec<u64>, fx: Vec<Effect>, i: int)
    requires
        call_ensures(after_project_clear, (&removed,), fx),
    ensures
        fx@.len() == removed@.len(),
        0 <= i < fx@.len() ==> (fx@[i] matches Effect::CallGraphForget { symbol_id } && symbol_id
            == removed@[i]),
{
}

} // verus!
