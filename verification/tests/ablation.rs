use chitta_field::ablation::{is_known_organ, owning_organ, Ablations, Organ, OrganWrite};
use chitta_field::ops::{DeleteMemoryOp, Op, OrganRecord};
use chitta_field::queries::training_examples;
use chitta_field::memory::MemoryPayload;
use std::collections::{BTreeMap, BTreeSet};

fn push<T>(w: OrganWrite<'_, Vec<T>>, x: T) {
    match w {
        OrganWrite::Live(v) => v.push(x),
        OrganWrite::Discard(mut v) => v.push(x),
    }
}

#[test]
fn names_are_validated_and_deduplicated() {
    let flags = Ablations::parse(" session_registry,session_registry, ,archive ").unwrap();
    assert!(flags.disabled("archive"));
    assert!(!flags.disabled("hdc_idx"));
    assert!(Ablations::parse("session_regsitry").is_err());
}

#[test]
fn ablation_hides_state_but_preserves_rollback_and_foreign_replay() {
    let mut organ = Organ::new(vec![1], Vec::new(), true);
    assert!(organ.read().is_empty());
    push(organ.write(Vec::new()), 2);
    assert!(organ.read().is_empty());
    assert_eq!(*organ.persisted_read(), vec![1]);
    organ.replay_write().push(3);
    assert_eq!(*organ.persisted_read(), vec![1, 3]);
    assert!(organ.read().is_empty());
}

#[test]
fn control_preserves_normal_lock_semantics() {
    let mut organ = Organ::new(vec![1], Vec::new(), false);
    push(organ.write(Vec::new()), 2);
    assert_eq!(*organ.read(), vec![1, 2]);
    assert_eq!(*organ.persisted_read(), vec![1, 2]);
}

#[test]
fn repeated_names_count_once() {
    let flags = Ablations::parse(" session_registry,session_registry, ,archive ").unwrap();
    assert_eq!(flags.count(), 2);
    assert_eq!(Ablations::parse("").unwrap().count(), 0);
    assert_eq!(Ablations::none().count(), 0);
    assert!(is_known_organ("msg_registry"));
    assert!(!is_known_organ("Msg_registry"));
}

#[test]
fn an_operation_is_suppressed_with_its_organ() {
    let flags = Ablations::parse("agent_protocol_store").unwrap();
    let task = Op::RegisterTask(OrganRecord { body: Vec::new() });
    assert_eq!(owning_organ(&task), Some("agent_protocol_store"));
    assert!(flags.suppresses(&task));
    assert!(!Ablations::none().suppresses(&task));
    let gone = Op::DeleteMemory(DeleteMemoryOp { memory_id: 1 });
    assert_eq!(owning_organ(&gone), None);
    assert!(!flags.suppresses(&gone));
}

fn payload(text: &str) -> MemoryPayload {
    MemoryPayload {
        kind: "wisdom".into(),
        realm: "test".into(),
        content: text.as_bytes().to_vec(),
        embedding: Vec::new(),
        embedding_dim: 0,
        artifact_refs: Vec::new(),
        version: 1,
        chunk_hash: 0,
        created_at_ms: 0,
        authored_at_ms: 0,
    }
}

#[test]
fn an_ablated_encoder_learns_nothing() {
    let mut payloads = BTreeMap::new();
    payloads.insert(1, payload("one"));
    payloads.insert(2, payload("  \n"));
    payloads.insert(3, payload("three"));
    let mut broken = payload("");
    broken.content = vec![0xff];
    payloads.insert(4, broken);
    let coded: BTreeSet<u64> = [1, 2, 4].into_iter().collect();
    let all = training_examples(&Ablations::none(), &payloads, &coded);
    assert_eq!(all.iter().map(|e| e.id).collect::<Vec<_>>(), vec![1, 4]);
    assert_eq!(all[0].text, "one");
    assert_eq!(all[1].text, "\u{fffd}");
    for off in ["lite_encoder", "cortical_idx"] {
        assert!(training_examples(&Ablations::parse(off).unwrap(), &payloads, &coded).is_empty());
    }
}
