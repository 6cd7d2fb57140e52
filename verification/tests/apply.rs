use chitta_field::apply::{after_project_clear, apply_op, performing_organ, plan_call_edge_cut, Effect, Projections};
use chitta_field::arguments::skill_upload;
use chitta_field::edits::{
    check_revision, corrupt_memories, has_metadata, orphaned_entries, revise, set_kind, set_realm, task_payload_update,
};
use chitta_field::error::FieldError;
use chitta_field::foreign::{seen_offsets_name, segment_instance, SeenOffsets};
use chitta_field::memory::StateDefaults;
use chitta_field::ops::{
    AddAssocEdgeOp, DeleteMemoryOp, EdgeType, Op, PutPayloadOp, RecordRecallBatchOp, SessionEventOp,
    UpdateMemoryContentOp, UpdateMemoryKindOp, UpsertArtifactOp,
};
use chitta_field::replay::{family_coverage, read_coverage, Family};

fn field() -> Projections {
    Projections::new(StateDefaults {
        strength: 1.0f32.to_bits(),
        confidence: 0.7f32.to_bits(),
        decay_rate: 0.01f32.to_bits(),
    })
}

fn put(id: u64, kind: &str, realm: &str, content: &str) -> PutPayloadOp {
    PutPayloadOp {
        memory_id: id,
        version: 1,
        chunk_hash: id as u128,
        kind: kind.into(),
        realm: realm.into(),
        content: content.as_bytes().to_vec(),
        embedding: vec![1, 2],
        artifact_refs: Vec::new(),
        created_at_ms: 100 + id as i64,
        authored_at_ms: 0,
    }
}

#[test]
fn a_put_memory_is_indexed_everywhere() {
    let mut f = field();
    let fx = apply_op(Op::PutPayload(put(7, "wisdom", "test", "hello")), &mut f);
    let p = &f.payloads[&7];
    assert_eq!((p.kind.as_str(), p.realm.as_str(), p.content.as_slice()), ("wisdom", "test", b"hello".as_slice()));
    assert_eq!((p.embedding.len(), p.embedding_dim), (0, 2));
    assert_eq!((p.created_at_ms, p.authored_at_ms), (107, 0));
    let s = &f.states[&7];
    assert_eq!((s.strength, s.confidence), (1.0f32.to_bits(), 0.7f32.to_bits()));
    assert!(f.realms.has("test", 7) && f.kinds.has("wisdom", 7));
    assert!(fx.iter().any(|e| matches!(e, Effect::SemanticUpsert { memory_id: 7, embedding, .. } if embedding.len() == 2)));
    assert!(fx.iter().any(|e| matches!(e, Effect::KeywordIndex { memory_id: 7, text } if text == "hello")));
    assert!(fx.iter().any(|e| matches!(e, Effect::TimeUpsert { memory_id: 7, ts_ms: 107, .. })));
}

#[test]
fn a_deleted_memory_leaves_no_trace() {
    let mut f = field();
    apply_op(Op::PutPayload(put(1, "wisdom", "test", "one")), &mut f);
    apply_op(Op::PutPayload(put(2, "wisdom", "test", "two")), &mut f);
    for (src, dst) in [(1, 2), (2, 1)] {
        let edge = AddAssocEdgeOp { src, dst, edge_type: EdgeType::Supports, weight: 9 };
        apply_op(Op::AddAssocEdge(edge), &mut f);
    }
    apply_op(Op::DeleteMemory(DeleteMemoryOp { memory_id: 1 }), &mut f);
    assert!(f.states[&1].deleted && f.payloads[&1].content.is_empty());
    assert!(!f.realms.has("test", 1) && f.realms.has("test", 2));
    assert!(f.edges.edges_from(1).is_empty() && f.edges.edges_from(2).is_empty());
    assert_eq!(f.payloads[&2].content, b"two".to_vec());
}

#[test]
fn an_artifact_is_known_by_its_path() {
    let mut f = field();
    let op = UpsertArtifactOp { artifact_id: 4, normalized_path: "src/main.cpp".into() };
    apply_op(Op::UpsertArtifact(op), &mut f);
    assert_eq!(f.artifacts.get("src/main.cpp"), Some(&4));
    assert_eq!(f.artifact_paths[&4], "src/main.cpp");
}

#[test]
fn a_session_event_reaches_the_registry_and_the_messages() {
    let mut f = field();
    let ev = SessionEventOp {
        event_id: 3,
        session_id: "s".into(),
        kind: "register".into(),
        payload_json: br#"{"kind":"codex"}"#.to_vec(),
        realm: "r".into(),
        ts_ms: 5,
    };
    let fx = apply_op(Op::SessionEvent(ev), &mut f);
    assert!(fx.iter().any(|e| matches!(e, Effect::SessionRegister { session_id, kind, .. } if session_id == "s" && kind == "codex")));
}

#[test]
fn recalled_together_means_associated() {
    let mut f = field();
    for id in 1..=3 {
        apply_op(Op::PutPayload(put(id, "wisdom", "test", "x")), &mut f);
    }
    let op = RecordRecallBatchOp {
        memory_ids: vec![3, 1],
        context_hash: 99,
        centroid_q: vec![1, -1],
        centroid_scale: 2,
        base_assoc_delta: 0.1f32.to_bits(),
        ts_ms: 500,
    };
    let fx = apply_op(Op::RecordRecallBatch(op), &mut f);
    assert_eq!(f.states[&1].access_count, 1);
    assert_eq!(f.states[&2].access_count, 0);
    assert_eq!(f.states[&3].retrieval_history.len(), 1);
    let pair = f.pairs.get(1, 3).unwrap();
    assert_eq!((pair.sim_count, pair.diversity_count, pair.last_seen_ms), (1, 1, 500));
    assert!(fx.iter().any(|e| matches!(e, Effect::Strengthen { src: 1, dst: 3, edge_type: EdgeType::CoRetrieved, .. })
        || matches!(e, Effect::Strengthen { src: 3, dst: 1, edge_type: EdgeType::CoRetrieved, .. })));
}

#[test]
fn call_edges_and_projects_are_cleared() {
    let fx = plan_call_edge_cut(&vec![5, 6, 7], 1, 6);
    assert!(!fx.is_empty());
    let fx = after_project_clear(&vec![8, 9]);
    assert!(matches!(fx[0], Effect::CallGraphForget { symbol_id: 8 }));
    assert_eq!(fx.len(), 2);
}

#[test]
fn a_memory_moves_between_realms() {
    let mut f = field();
    apply_op(Op::PutPayload(put(1, "wisdom", "old", "x")), &mut f);
    apply_op(Op::PutPayload(put(2, "wisdom", "old", "y")), &mut f);
    set_realm(&mut f, 1, "new").unwrap();
    assert_eq!(f.payloads[&1].realm, "new");
    assert!(f.realms.has("new", 1) && !f.realms.has("old", 1) && f.realms.has("old", 2));
    assert!(matches!(set_realm(&mut f, 9, "new"), Err(FieldError::Other(e)) if e == "memory not found"));
    set_kind(&mut f, 2, "episode").unwrap();
    assert_eq!(f.payloads[&2].kind, "episode");
    assert!(f.kinds.has("wisdom", 2) && !f.kinds.has("episode", 2));
    assert!(matches!(set_kind(&mut f, 9, "x"), Err(FieldError::Other(e)) if e == "memory not found"));
    let op = UpdateMemoryKindOp { memory_id: 2, new_kind: "signal".into(), op_ts_ms: 1 };
    assert!(apply_op(Op::UpdateMemoryKind(op), &mut f).is_empty());
    assert_eq!(f.payloads[&2].kind, "signal");
}

fn revision(id: u64, content: &[u8], embedding: Vec<u32>) -> UpdateMemoryContentOp {
    UpdateMemoryContentOp { memory_id: id, content: content.to_vec(), embedding, op_ts_ms: 1 }
}

#[test]
fn content_is_revised_with_its_embedding() {
    let mut f = field();
    apply_op(Op::PutPayload(put(1, "wisdom", "test", "original content")), &mut f);
    let op = revision(1, b"updated content", vec![9; 4]);
    assert_eq!(check_revision(&f.payloads, &op, 4).unwrap(), true);
    let r = revise(&mut f, op);
    assert_eq!(f.payloads[&1].content, b"updated content".to_vec());
    assert_eq!((r.text.as_str(), r.realm.as_str(), r.fx.len()), ("updated content", "test", 2));
    let bad = revision(1, b"updated content", vec![5; 3]);
    assert!(matches!(
        check_revision(&f.payloads, &bad, 768),
        Err(FieldError::Other(e)) if e == "embedding length 3 != EMBED_DIM 768"
    ));
    let unknown = revision(99999, b"updated content", Vec::new());
    assert_eq!(check_revision(&f.payloads, &unknown, 768).unwrap(), false);
    let r = revise(&mut f, revision(1, &[b'a', 0xff], Vec::new()));
    assert_eq!((r.text.as_str(), r.fx.len()), ("a\u{fffd}", 1));
}

#[test]
fn corrupt_memories_are_found() {
    let mut f = field();
    for (id, text) in [(1, "fine"), (2, " \t\n"), (3, "hot"), (4, "gone"), (5, "edge")] {
        apply_op(Op::PutPayload(put(id, "wisdom", "test", text)), &mut f);
    }
    apply_op(Op::PutPayload(PutPayloadOp { content: vec![0xff], ..put(6, "wisdom", "test", "") }), &mut f);
    f.states.get_mut(&3).unwrap().affect_arousal = f32::NEG_INFINITY.to_bits();
    f.states.get_mut(&4).unwrap().affect_valence = 1000.5f32.to_bits();
    f.states.get_mut(&4).unwrap().deleted = true;
    f.states.get_mut(&5).unwrap().affect_valence = (-1000.0f32).to_bits();
    assert_eq!(corrupt_memories(&f), vec![2, 3, 6]);
    f.states.remove(&2);
    assert_eq!(corrupt_memories(&f), vec![2, 3, 6]);
    assert_eq!(orphaned_entries(&vec![9, 1, 8], &f.payloads), vec![9, 8]);
    assert!(has_metadata(&f, 1) && !has_metadata(&f, 4) && !has_metadata(&f, 2) && !has_metadata(&f, 77));
}

#[test]
fn a_task_without_a_type_is_not_found() {
    assert!(matches!(
        task_payload_update(1, "", "t", "{}", 2),
        Err(FieldError::Other(e)) if e == "task not found"
    ));
    let op = task_payload_update(1, "sadhana", "t", "{}", 2).unwrap();
    assert_eq!((op.kind.as_str(), op.fencing_token, op.payload_json.as_slice()), ("update_payload", 0, b"{}".as_slice()));
}

#[test]
fn segments_tell_who_wrote_them() {
    assert_eq!(segment_instance("deadbeef_00001.seg"), 0xdead_beef);
    assert_eq!(segment_instance("notes"), 0);
    assert_eq!(segment_instance("xyz_1"), 0);
    assert_eq!(seen_offsets_name(0x1f), "seen_offsets.0000001f.json");
    let mut seen = SeenOffsets::seeded(vec![("a".into(), 5), ("b".into(), 6)]);
    seen.advance("a".into(), 9);
    assert_eq!((seen.offset_of("a"), seen.offset_of("b"), seen.offset_of("c")), (9, 6, 0));
}

#[test]
fn offsets_are_the_same_after_saving() {
    let mut seen = SeenOffsets::seeded(vec![("/s/\"a\".seg".into(), 5), ("/s/b.seg".into(), u64::MAX)]);
    seen.advance("/s/a0.seg".into(), 7);
    let text = seen.write();
    assert_eq!(text, r#"{"/s/\"a\".seg":5,"/s/a0.seg":7,"/s/b.seg":18446744073709551615}"#);
    let loaded = SeenOffsets::read(&text).unwrap();
    for path in ["/s/\"a\".seg", "/s/a0.seg", "/s/b.seg", "/s/none"] {
        assert_eq!(loaded.offset_of(path), seen.offset_of(path));
    }
    assert!(SeenOffsets::read("[1]").is_none() && SeenOffsets::read(r#"{"a":-1}"#).is_none());
    assert_eq!(SeenOffsets::read(r#"{"a":1,"a":2}"#).unwrap().offset_of("a"), 2);
}

#[test]
fn an_effect_goes_to_its_organ() {
    let organ = |fx: Effect| performing_organ(&fx);
    assert_eq!(organ(Effect::SessionDeregister { session_id: "s".into() }), Some("session_registry"));
    assert_eq!(organ(Effect::CorticalCodebook { bytes: Vec::new() }), Some("cortical_idx"));
    assert_eq!(organ(Effect::SemanticRemove { memory_id: 1 }), None);
    let op = Op::SkillUpload(skill_upload("id", "text", "", None, 1));
    assert_eq!(organ(Effect::Organ(op)), Some("skill_registry"));
}

#[test]
fn coverage_is_read_from_the_manifest() {
    let c = read_coverage(&vec![("0000000a".into(), 5), ("nonsense".into(), 6)]);
    assert_eq!((c.get(10), c.get(0)), (Some(5), None));
    let families = vec![
        Family { snapshot_name: "a.snapshot".into(), covered: vec![("00000001".into(), 3)] },
        Family { snapshot_name: "b.snapshot".into(), covered: vec![("00000001".into(), 4)] },
    ];
    assert_eq!(family_coverage(&families, "b.snapshot").get(1), Some(4));
    assert!(family_coverage(&families, "c.snapshot").is_empty());
}
