use chitta_field::apply::{Effect, Projections};
use chitta_field::assoc::{strengthen_assoc_edge_map, AssocEdges};
use chitta_field::coverage::{Coverage, Provenance};
use chitta_field::foreign::{
    apply_foreign, sync_foreign_apply, sync_foreign_collect, ForeignRead, PendingForeign, SeenOffsets, SegmentRead,
};
use chitta_field::memory::{MemoryState, StateDefaults};
use chitta_field::ops::{
    AddAssocEdgeOp, DeleteMemoryOp, EdgeType, Op, PutPayloadOp, RecordOutcomeOp, RecordRecallBatchOp, StateDeltaOp,
    StrengthenAssocEdgeOp,
};
use chitta_field::replay::{replay_wal, Record, Replay};
use chitta_field::settle::{carry_out, settle, Arithmetic};

/// The store's arithmetic on weights; a change of strength is added up, and an outcome counts as
/// much as its weight.
struct Floats;

impl Arithmetic for Floats {
    fn weight(&self, old: Option<u32>, delta: u32, multiplier: u32) -> u32 {
        let delta = f32::from_bits(delta) * multiplier as f32;
        match old {
            Some(w) => (f32::from_bits(w) + delta).min(1.0).to_bits(),
            None => delta.clamp(0.0, 1.0).to_bits(),
        }
    }

    fn change(&self, mut state: MemoryState, delta: StateDeltaOp, now_ms: i64) -> MemoryState {
        if let Some(d) = delta.strength_delta {
            state.strength = (f32::from_bits(state.strength) + f32::from_bits(d)).to_bits();
        }
        state.last_accessed_ms = now_ms;
        state
    }

    fn observe(&self, mut state: MemoryState, success: bool, weight: u32) -> MemoryState {
        state.confidence = if success { weight } else { 0 };
        state
    }
}

fn field() -> Projections {
    Projections::new(StateDefaults {
        strength: 1.0f32.to_bits(),
        confidence: 0.7f32.to_bits(),
        decay_rate: 0.01f32.to_bits(),
    })
}

fn put(id: u64, content: &str) -> Op {
    Op::PutPayload(PutPayloadOp {
        memory_id: id,
        version: 1,
        chunk_hash: id as u128,
        kind: "episode".into(),
        realm: "test".into(),
        content: content.as_bytes().to_vec(),
        embedding: vec![0.1f32.to_bits(); 768],
        artifact_refs: Vec::new(),
        created_at_ms: 100 + id as i64,
        authored_at_ms: 0,
    })
}

fn delta(id: u64, ts: i64, strength: Option<f32>) -> StateDeltaOp {
    StateDeltaOp {
        memory_id: id,
        op_ts_ms: ts,
        strength_delta: strength.map(f32::to_bits),
        confidence: None,
        decay_rate: None,
        pinned: None,
    }
}

fn strengthen(src: u64, dst: u64, by: f32) -> Op {
    Op::StrengthenAssocEdge(StrengthenAssocEdgeOp { src, dst, edge_type: EdgeType::CoRetrieved, delta: by.to_bits() })
}

fn weight(f: &Projections, src: u64, dst: u64) -> Option<f32> {
    f.edges.weight_of(src, dst, EdgeType::CoRetrieved).map(f32::from_bits)
}

#[test]
fn both_directions_are_strengthened() {
    let mut edges = AssocEdges::new();
    let by = 0.25f32.to_bits();
    for _ in 0..2 {
        strengthen_assoc_edge_map(&mut edges, 1, 2, EdgeType::CoRetrieved, |w| Floats.weight(w, by, 1));
    }
    assert_eq!(edges.weight_of(1, 2, EdgeType::CoRetrieved), Some(0.5f32.to_bits()));
    assert_eq!(edges.weight_of(2, 1, EdgeType::CoRetrieved), Some(0.5f32.to_bits()));
    assert_eq!(edges.weight_of(1, 3, EdgeType::CoRetrieved), None);
}

#[test]
fn weights_start_at_the_delta_and_stop_at_one() {
    let mut f = field();
    assert!(carry_out(strengthen(1, 2, 0.75), &mut f, &Floats).is_empty());
    assert_eq!((weight(&f, 1, 2), weight(&f, 2, 1)), (Some(0.75), Some(0.75)));
    carry_out(strengthen(1, 2, 0.75), &mut f, &Floats);
    assert_eq!((weight(&f, 1, 2), weight(&f, 2, 1)), (Some(1.0), Some(1.0)));
    carry_out(strengthen(5, 6, -3.0), &mut f, &Floats);
    assert_eq!(weight(&f, 5, 6), Some(0.0));
    let edge = AddAssocEdgeOp { src: 7, dst: 8, edge_type: EdgeType::CoRetrieved, weight: 0.5f32.to_bits() };
    carry_out(Op::AddAssocEdge(edge), &mut f, &Floats);
    assert_eq!((weight(&f, 7, 8), weight(&f, 8, 7)), (Some(0.5), None));
    carry_out(strengthen(7, 8, 0.25), &mut f, &Floats);
    assert_eq!((weight(&f, 7, 8), weight(&f, 8, 7)), (Some(0.75), Some(0.25)));
}

#[test]
fn a_recall_ties_memories_together() {
    let mut f = field();
    for id in [1, 2, 3] {
        carry_out(put(id, "x"), &mut f, &Floats);
    }
    let op = RecordRecallBatchOp {
        memory_ids: vec![3, 1],
        context_hash: 9,
        centroid_q: vec![1],
        centroid_scale: 0,
        base_assoc_delta: 0.125f32.to_bits(),
        ts_ms: 50,
    };
    assert!(carry_out(Op::RecordRecallBatch(op), &mut f, &Floats).is_empty());
    assert_eq!((weight(&f, 1, 3), weight(&f, 3, 1), weight(&f, 1, 2)), (Some(0.125), Some(0.125), None));
    assert_eq!((f.states[&3].access_count, f.states[&2].access_count), (1, 0));
}

#[test]
fn states_change_as_of_the_operation() {
    let mut f = field();
    carry_out(put(4, "x"), &mut f, &Floats);
    assert!(carry_out(Op::UpdateState(delta(4, 900, Some(-0.5))), &mut f, &Floats).is_empty());
    assert_eq!((f32::from_bits(f.states[&4].strength), f.states[&4].last_accessed_ms), (0.5, 900));
    carry_out(Op::UpdateState(delta(4, 0, None)), &mut f, &Floats);
    assert_eq!(f.states[&4].last_accessed_ms, 104);
    let seen = RecordOutcomeOp { memory_id: 4, success: true, weight: 0.25f32.to_bits() };
    assert!(carry_out(Op::RecordOutcome(seen), &mut f, &Floats).is_empty());
    assert_eq!(f32::from_bits(f.states[&4].confidence), 0.25);
    assert!(carry_out(Op::UpdateState(delta(77, 900, Some(1.0))), &mut f, &Floats).is_empty());
    assert!(!f.states.contains_key(&77));
}

#[test]
fn what_is_not_settled_is_handed_on_in_order() {
    let mut f = field();
    let fx = vec![
        Effect::KeywordRemove { memory_id: 1 },
        Effect::Outcome { memory_id: 1, success: true, weight: 0 },
        Effect::SemanticRemove { memory_id: 2 },
    ];
    let rest = settle(fx, &mut f, &Floats);
    assert!(matches!(rest[0], Effect::KeywordRemove { memory_id: 1 }));
    assert!(matches!(rest[1], Effect::SemanticRemove { memory_id: 2 }));
    assert_eq!(rest.len(), 2);
}

#[test]
fn recalls_of_a_peer_are_attributed() {
    let mut f = field();
    let mut who = Provenance::new();
    let op = RecordRecallBatchOp {
        memory_ids: vec![4],
        context_hash: 0,
        centroid_q: Vec::new(),
        centroid_scale: 0,
        base_assoc_delta: 0,
        ts_ms: 1,
    };
    apply_foreign(3, Op::RecordRecallBatch(op), &mut f, &mut who, &Floats);
    assert!(who.has(4, 3) && !who.has(4, 2));
}

/// The log of a peer: operations at their byte offsets.
struct Peer {
    ops: Vec<(u64, fn(u64) -> Op)>,
}

impl Peer {
    fn write_one(&mut self, op: fn(u64) -> Op) {
        self.ops.push((self.ops.len() as u64 + 1, op));
    }
}

const SEGMENT: &str = "segments/0000002a_1.seg";

/// An instance that shares its directory with a peer.
struct Local {
    seen: SeenOffsets,
    pending: PendingForeign,
    store: Projections,
    who: Provenance,
    covered: Coverage,
}

impl Local {
    fn open(peer: &Peer) -> Self {
        Local {
            seen: SeenOffsets::seeded(vec![(SEGMENT.into(), peer.ops.len() as u64)]),
            pending: PendingForeign::new(),
            store: field(),
            who: Provenance::new(),
            covered: Coverage::new(),
        }
    }

    fn sync_foreign_collect(&mut self, peer: &Peer) -> usize {
        let from = self.seen.offset_of(SEGMENT) as usize;
        let read = ForeignRead {
            path: SEGMENT.into(),
            seg: SegmentRead {
                name: "0000002a_1.seg".into(),
                records: peer.ops[from..].iter().map(|(seqno, op)| (*seqno, op(*seqno))).collect(),
            },
            end: peer.ops.len() as u64,
        };
        sync_foreign_collect(&mut self.seen, &mut self.pending, vec![read])
    }

    fn sync_foreign_apply(&mut self) -> usize {
        let applied =
            sync_foreign_apply(&mut self.pending, &mut self.store, &mut self.who, &mut self.covered, &Floats);
        match applied {
            Some(a) => {
                assert_eq!(a.anchors.entries.len(), 0);
                a.count
            }
            None => 0,
        }
    }

    fn sync_foreign(&mut self, peer: &Peer) -> usize {
        self.sync_foreign_collect(peer);
        self.sync_foreign_apply()
    }

    fn memory_count(&self) -> usize {
        self.store.payloads.len()
    }
}

#[test]
fn collected_ops_survive_until_applied() {
    let mut peer = Peer { ops: Vec::new() };
    let mut local = Local::open(&peer);
    peer.write_one(|id| put(id, "peer wrote this"));
    let before = local.memory_count();

    let pending = local.sync_foreign_collect(&peer);
    assert!(pending > 0, "collect should buffer the peer's ops");
    assert_eq!(local.memory_count(), before, "collect must not mutate state");

    let still_pending = local.sync_foreign_collect(&peer);
    assert_eq!(still_pending, pending, "second collect dropped the buffered ops");

    let applied = local.sync_foreign_apply();
    assert_eq!(applied, pending, "apply must drain exactly what was collected");
    assert!(local.memory_count() > before, "peer memory should now be visible");
    assert_eq!(local.store.payloads[&1].content, b"peer wrote this");
    assert_eq!(local.covered.get(0x2a), Some(1));

    assert_eq!(local.sync_foreign_apply(), 0);
}

#[test]
fn sync_foreign_still_applies_peer_ops() {
    let mut peer = Peer { ops: Vec::new() };
    let mut local = Local::open(&peer);
    peer.write_one(|id| put(id, "one"));
    peer.write_one(|id| put(id, "two"));
    let before = local.memory_count();
    let applied = local.sync_foreign(&peer);

    assert!(applied > 0, "sync_foreign applied nothing");
    assert!(local.memory_count() > before);
    assert_eq!(local.sync_foreign(&peer), 0, "re-sync should be a no-op");
}

#[test]
fn an_instance_opened_later_starts_at_the_end() {
    let mut peer = Peer { ops: Vec::new() };
    peer.write_one(|id| put(id, "one"));
    assert_eq!(Local::open(&peer).sync_foreign(&peer), 0);
}

#[test]
fn a_batch_is_applied_operation_by_operation() {
    let mut peer = Peer { ops: Vec::new() };
    let mut local = Local::open(&peer);
    peer.write_one(|id| put(id, "one"));
    peer.write_one(|id| put(id, "two"));
    peer.write_one(|_| strengthen(1, 2, 0.5));
    peer.write_one(|_| Op::UpdateState(delta(1, 900, Some(-0.25))));
    peer.write_one(|_| Op::DeleteMemory(DeleteMemoryOp { memory_id: 2 }));
    peer.write_one(|_| strengthen(1, 3, 0.5));
    assert_eq!(local.sync_foreign(&peer), 6);
    assert_eq!((weight(&local.store, 1, 2), weight(&local.store, 2, 1)), (None, None));
    assert_eq!(weight(&local.store, 1, 3), Some(0.5));
    assert_eq!(f32::from_bits(local.store.states[&1].strength), 0.75);
    assert!(local.store.states[&2].deleted);
    assert_eq!(local.covered.get(0x2a), Some(6));
}

#[test]
fn replay_applies_what_the_snapshot_does_not_cover() {
    let mut full = Coverage::new();
    full.set(1, 10);
    let mut replay = Replay::new(full, 10, 10, Provenance::new());
    let mut f = field();
    assert!(!replay.must_apply(1, 10, &put(1, "x")));
    assert!(replay.must_apply(1, 11, &put(1, "x")));
    replay.step(1, 10, put(1, "x"), &mut f, &Floats);
    assert!(f.payloads.is_empty());
    replay.step(1, 11, put(2, "x"), &mut f, &Floats);
    assert!(f.payloads.contains_key(&2));
    replay.step(1, 12, Op::UpdateStateBatch(vec![delta(2, 999, None)]), &mut f, &Floats);
    assert_eq!(f.states[&2].access_count, 1);
    assert_eq!(replay.highest, 12);
}

#[test]
fn changes_that_come_too_early_are_made_at_the_end() {
    let mut replay = Replay::new(Coverage::new(), 0, 0, Provenance::new());
    let mut f = field();
    replay.step(1, 1, Op::UpdateState(delta(5, 700, Some(-0.5))), &mut f, &Floats);
    replay.step(1, 2, Op::UpdateState(delta(6, 700, Some(-0.5))), &mut f, &Floats);
    replay.step(1, 3, Op::UpdateStateBatch(vec![delta(5, 800, None)]), &mut f, &Floats);
    assert!(f.states.is_empty());
    assert_eq!(replay.step(2, 1, put(5, "x"), &mut f, &Floats).len(), 3);
    replay.late_changes(&mut f, &Floats);
    assert_eq!((f32::from_bits(f.states[&5].strength), f.states[&5].last_accessed_ms), (0.5, 700));
    replay.late_accesses(&mut f);
    assert_eq!((f.states[&5].access_count, f.states[&5].last_accessed_ms), (1, 800));
    assert!(!f.states.contains_key(&6));
}

#[test]
fn a_log_is_replayed_over_a_snapshot() {
    let mut full = Coverage::new();
    full.set(1, 10);
    let rec = |inst: u32, seqno: u64, op: Op| Record { inst, seqno, op };
    let records = vec![
        rec(1, 10, put(1, "covered")),
        rec(1, 12, Op::UpdateState(delta(7, 700, Some(-0.5)))),
        rec(2, 3, put(7, "unseen writer")),
        rec(2, 4, strengthen(7, 8, 0.5)),
    ];
    let mut f = field();
    let r = replay_wal(full, 10, 10, Provenance::new(), records, &vec![(1, 12), (2, 4)], &mut f, &Floats);
    assert_eq!(f.payloads.keys().copied().collect::<Vec<_>>(), vec![7]);
    assert_eq!(f32::from_bits(f.states[&7].strength), 0.5);
    assert_eq!(weight(&f, 8, 7), Some(0.5));
    assert_eq!(r.asked.len(), 3);
    assert_eq!((r.coverage.get(1), r.coverage.get(2)), (Some(12), Some(4)));
    assert_eq!(r.next_seqno, Some(13));
    let none = replay_wal(Coverage::new(), u64::MAX, 0, Provenance::new(), Vec::new(), &Vec::new(), &mut f, &Floats);
    assert_eq!(none.next_seqno, None);
}
