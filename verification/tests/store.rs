use chitta_field::apply::Effect;
use chitta_field::coactivation::{prune_coactivation_stats, CoActivation, CoActivationStats};
use chitta_field::anchors::MARKER;
use chitta_field::embedding::{
    graph_is_complete, index_entries, rebuild_event_organs, repair_temporal_entries, requeue, requeue_purged, Requeue, Tape,
};
use chitta_field::error::FieldError;
use chitta_field::keyed::{belongs, index_all, index_earliest, index_fingerprints, index_latest, lane_memories, KeyOf, Lane};
use chitta_field::memory::{
    apply_access_delta, build_kind_members, build_realm_members, floor_rate, live, MemoryPayload, MemoryState,
    StateDefaults, MAX_ACCESS_TIMES,
};
use chitta_field::opening::{
    derive_indexes, filter_level, first_free_id, loads_embeddings, reconcile_embeddings, set_filter_level, switched_on,
    FilterLevel, Migrations,
};
use chitta_field::ops::StateDeltaOp;
use chitta_field::triplet::TripletStore;
use chitta_field::select::{
    candidates, check_loaded, count_pending, family_of, is_cortex_name, is_orphaned, is_snapshot_name, judge,
    next_lineage, scan_snapshots, snapshot_sidecars, surplus_snapshots, survey, Choice, HeaderFacts, Lineage,
    SnapshotFile, Verdict,
};
use std::collections::{BTreeMap, BTreeSet};

fn payload(kind: &str, realm: &str, content: &str) -> MemoryPayload {
    MemoryPayload {
        kind: kind.into(),
        realm: realm.into(),
        content: content.as_bytes().to_vec(),
        embedding: Vec::new(),
        embedding_dim: 0,
        artifact_refs: Vec::new(),
        version: 1,
        chunk_hash: 0,
        created_at_ms: 10,
        authored_at_ms: 10,
    }
}

fn state(created_at_ms: i64) -> MemoryState {
    MemoryState::new(&StateDefaults { strength: 7, confidence: 8, decay_rate: 9 }, 5, 2, created_at_ms)
}

fn deleted() -> MemoryState {
    let mut s = state(0);
    s.deleted = true;
    s
}

fn delta(ts: i64) -> StateDeltaOp {
    StateDeltaOp {
        memory_id: 1,
        op_ts_ms: ts,
        strength_delta: None,
        confidence: None,
        decay_rate: None,
        pinned: None,
    }
}

#[test]
fn a_new_state_has_the_defaults() {
    let s = state(42);
    assert_eq!((s.strength, s.confidence, s.decay_rate), (7, 8, 9));
    assert_eq!((s.current_version, s.current_chunk_hash, s.created_at_ms), (2, 5, 42));
    assert!(!s.deleted && !s.pinned && s.access_timestamps.is_empty());
    assert_eq!(floor_rate(1.0f32.to_bits()), 1.0f32.to_bits());
}

#[test]
fn accesses_keep_the_latest_times() {
    let mut s = state(0);
    for ts in 1..=20 {
        apply_access_delta(&mut s, &delta(ts));
    }
    assert_eq!(s.access_count, 20);
    assert_eq!(s.access_timestamps.len(), MAX_ACCESS_TIMES);
    assert_eq!(s.access_timestamps, (5..=20).collect::<Vec<i64>>());
    assert_eq!(s.last_accessed_ms, 20);
    apply_access_delta(&mut s, &delta(3));
    assert_eq!(s.last_accessed_ms, 20);
}

#[test]
fn accesses_may_come_in_either_order() {
    for (first, second) in [(5, 40), (20, 12), (16, 3)] {
        let mut states = vec![];
        for order in [[first, second], [second, first]] {
            let mut s = state(0);
            for ts in (10..30).chain(order) {
                apply_access_delta(&mut s, &delta(ts));
            }
            states.push((s.access_count, s.last_accessed_ms, s.access_timestamps));
        }
        assert_eq!(states[0], states[1]);
    }
}

#[test]
fn only_live_memories_are_members() {
    let mut payloads = BTreeMap::new();
    let mut states = BTreeMap::new();
    for (id, kind, realm) in [(1, "wisdom", "a"), (2, "wisdom", "b"), (3, "episode", "a"), (4, "episode", "a")] {
        payloads.insert(id, payload(kind, realm, "x"));
        if id != 4 {
            states.insert(id, if id == 3 { deleted() } else { state(0) });
        }
    }
    let realms = build_realm_members(&payloads, &states);
    assert!(realms.has("a", 1) && realms.has("b", 2) && !realms.has("a", 3) && !realms.has("a", 4));
    let kinds = build_kind_members(&payloads, &states);
    assert!(kinds.has("wisdom", 1) && kinds.has("wisdom", 2) && !kinds.has("episode", 3));
    assert!(live(&states, 1) && !live(&states, 3) && !live(&states, 4));
}

#[test]
fn a_pair_counts_contexts_once() {
    let mut s = CoActivationStats::new();
    for (hash, ts) in [(1, 10), (1, 20), (2, 15)] {
        s.record(hash, ts);
    }
    assert_eq!((s.sim_count, s.diversity_count, s.last_seen_ms), (3, 2, 15));
    assert_eq!(s.recent_context_hashes, vec![1, 2]);
}

#[test]
fn a_new_pair_was_never_seen() {
    let s = CoActivationStats::default();
    assert_eq!((s.sim_count, s.diversity_count, s.last_seen_ms), (0, 0, 0));
    assert!(s.recent_context_hashes.is_empty());
}

#[test]
fn a_pair_of_a_memory_with_itself_takes_one_place() {
    let mut pairs = CoActivation::new();
    for _ in 0..5 {
        pairs.record(7, 7, 1, 1);
    }
    assert_eq!(prune_coactivation_stats(&mut pairs, 1), 0);
    assert_eq!(pairs.get(7, 7).map(|s| s.sim_count), Some(5));
    pairs.record(7, 8, 1, 1);
    assert_eq!(prune_coactivation_stats(&mut pairs, 1), 1);
    assert!(pairs.get(7, 7).is_some() && pairs.get(7, 8).is_none());
}

#[test]
fn weak_pairs_are_pruned() {
    let mut pairs = CoActivation::new();
    for n in 2..=5 {
        for _ in 0..n {
            pairs.record(1, n, 7, 1);
        }
    }
    assert_eq!(pairs.len(), 4);
    let removed = prune_coactivation_stats(&mut pairs, 10);
    assert_eq!((removed, pairs.len()), (0, 4));
    let mut few = CoActivation::new();
    for n in 1..=3u64 {
        for _ in 0..n {
            few.record(n * 2, n * 2 + 1, 7, 1);
            few.record(100, n, 7, 1);
        }
    }
    assert_eq!(prune_coactivation_stats(&mut few, 2), 1);
    assert!(few.get(100, 1).is_none() && few.get(100, 2).is_some() && few.get(2, 3).is_some());
    pairs.forget(5);
    assert_eq!(pairs.len(), 3);
    assert!(pairs.get(1, 5).is_none() && pairs.get(1, 4).is_some());
}

#[test]
fn lanes_hold_what_belongs_to_them() {
    let done = payload("signal", "test", "[done] sha:abc123def456 input:/tmp/fixture verified");
    let task = payload("wisdom", "test", "[task] task:canary status:running next:verify");
    let correction = payload("correction", "test", "[correction] USE: amber kettle\nNOT: zephyr marmalade orchard");
    assert!(belongs(Lane::Provenance, &done) && !belongs(Lane::Task, &done));
    assert!(belongs(Lane::Task, &task) && !belongs(Lane::Provenance, &task));
    assert!(belongs(Lane::Correction, &correction) && !belongs(Lane::Correction, &task));
    let mut payloads = BTreeMap::new();
    let mut states = BTreeMap::new();
    for (id, created) in [(1, 30), (2, 10), (3, 20)] {
        payloads.insert(id, MemoryPayload { created_at_ms: created, ..payload("correction", "t", "[correction] x") });
        states.insert(id, state(created));
    }
    states.insert(3, deleted());
    assert_eq!(lane_memories(Lane::Correction, &payloads, &states), vec![2, 1]);
}

#[test]
fn keys_lead_to_the_first_or_the_last_holder() {
    let keys = vec![
        KeyOf { key: "k".into(), id: 4 },
        KeyOf { key: "m".into(), id: 5 },
        KeyOf { key: "k".into(), id: 6 },
    ];
    assert_eq!(index_earliest(&keys).get("k"), Some(&4));
    assert_eq!(index_latest(&keys).get("k"), Some(&6));
    assert_eq!(index_all(&keys).get("k"), Some(&vec![4, 6]));
    assert!(index_latest(&keys).get("x").is_none());
    let prints = index_fingerprints(&vec![(9, 1), (8, 2), (9, 3)]);
    assert_eq!(prints.len(), 2);
    assert_eq!(prints[&8], 2);
}

fn store() -> (BTreeMap<u64, MemoryPayload>, BTreeMap<u64, MemoryState>) {
    let mut payloads = BTreeMap::new();
    let mut states = BTreeMap::new();
    payloads.insert(1, payload("wisdom", "r", "a text that is long enough to embed"));
    payloads.insert(2, payload("wisdom", "r", "short"));
    payloads.insert(3, payload("wisdom", "r", "another text that is long enough"));
    for id in 1..=3 {
        states.insert(id, state(0));
    }
    (payloads, states)
}

#[test]
fn memories_without_an_embedding_are_queued() {
    let (payloads, mut states) = store();
    let index: BTreeSet<u64> = [3].into_iter().collect();
    let n = requeue(Requeue::Missing, &payloads, &mut states, &index);
    assert_eq!(n, 1);
    assert!(states[&1].embed_pending && !states[&3].embed_pending);
    assert_eq!(count_pending(&states), 1);
    requeue_purged(&vec![3, 99], &mut states);
    assert!(states[&3].embed_pending);
    let r = reconcile_embeddings(&payloads, &mut states, &index, &Vec::new(), Migrations { gloss: false, dimension: false });
    assert_eq!((r.missing, r.gloss, r.dimension), (0, 0, 0));
    assert!(graph_is_complete(5, 5));
    assert!(loads_embeddings(true, false, false) && !loads_embeddings(false, false, false));
}

#[test]
fn times_are_repaired_from_payloads() {
    let (mut payloads, _) = store();
    payloads.get_mut(&2).unwrap().created_at_ms = 0;
    payloads.get_mut(&2).unwrap().authored_at_ms = 0;
    let fixed = repair_temporal_entries(&vec![1, 2, 9], &payloads);
    assert_eq!(fixed, vec![(1, 10)]);
}

#[test]
fn an_empty_tape_is_made_from_memories() {
    let (payloads, states) = store();
    let mut facts = TripletStore::new();
    for (subject, object) in [("ada", "x"), ("bob", "y"), ("ada", "z")] {
        facts.add(subject.into(), "knows".into(), object.into(), 0, 0, None, None);
    }
    assert!(matches!(rebuild_event_organs(4, &facts, &payloads, &states), Tape::Saved));
    match rebuild_event_organs(0, &facts, &payloads, &states) {
        Tape::Made { mut subjects, events } => {
            subjects.sort();
            assert_eq!(subjects, vec!["ada", "bob"]);
            assert_eq!(events.len(), 3);
        }
        Tape::Saved => panic!("nothing was saved"),
    }
    let texts = index_entries(&payloads, &states);
    assert_eq!(texts.iter().map(|t| t.id).collect::<Vec<_>>(), vec![1, 2, 3]);
    assert_eq!((texts[1].text.as_str(), texts[1].realm.as_str()), ("short", "r"));
}

#[test]
fn indexes_are_derived_on_opening() {
    let (mut payloads, mut states) = store();
    payloads.insert(
        4,
        payload(
            "signal",
            "r",
            &format!("[done]{MARKER}[\"/r\",\"p\",\"s\",\"{}\"]", "0".repeat(64)),
        ),
    );
    states.insert(4, state(0));
    states.insert(2, deleted());
    let mut pairs = CoActivation::new();
    let d = derive_indexes(&payloads, &states, &mut pairs, Some(Lineage { epoch: 3, writer: 1 }), 7, 9);
    assert!(d.realm_members.has("r", 1) && !d.realm_members.has("r", 2));
    assert_eq!(d.memory_count, 4);
    assert_eq!(d.anchors.entries.len(), 1);
    assert_eq!(d.provenance, vec![4]);
    assert_eq!(d.lineage.epoch, next_lineage(Some(Lineage { epoch: 3, writer: 1 }), 7, 9).epoch);
}

#[test]
fn settings_and_levels_are_read() {
    assert!(switched_on(Some("1")) && !switched_on(None));
    assert_eq!(first_free_id(None), Some(1));
    assert_eq!(first_free_id(Some(41)), Some(42));
    assert_eq!(first_free_id(Some(u64::MAX)), None);
    for level in [FilterLevel::Full, FilterLevel::Signatures, FilterLevel::MinimalContext] {
        assert_eq!(filter_level(set_filter_level(level)), level);
    }
}

fn snap(path: &str, seqno: Option<u64>) -> SnapshotFile {
    SnapshotFile { path: path.into(), seqno }
}

#[test]
fn the_newest_snapshot_is_best() {
    assert!(is_snapshot_name("chitta.0000002a.snapshot") && !is_snapshot_name("chitta.0000002a.tmp"));
    assert!(!is_cortex_name("chitta.0000002a.snapshot"));
    let files = vec![snap("a", Some(3)), snap("b", None), snap("c", Some(9)), snap("d", Some(5))];
    let scan = scan_snapshots(&files);
    assert_eq!((scan.best, scan.seqno), (Some(2), 9));
    let order = candidates(&files, Some("d".into()));
    assert_eq!(order[0], "d");
    assert_eq!(order[1], "c");
    assert!(!surplus_snapshots(&files).contains(&2));
}

#[test]
fn a_snapshot_is_judged_before_it_is_loaded() {
    let (payloads, _) = store();
    assert!(matches!(judge(&survey(&payloads, true, 8, None), 8, false, false), Verdict::Accept));
    let header = |dim: u32, same: bool| Some(HeaderFacts { embed_dim: dim, matches_compiled: same });
    let facts = |h| survey(&payloads, true, 8, h);
    assert!(matches!(judge(&facts(header(8, true)), 8, false, false), Verdict::Adopt));
    assert!(matches!(judge(&facts(header(8, false)), 8, false, false), Verdict::RefuseSpace));
    assert!(matches!(judge(&facts(header(8, false)), 8, true, false), Verdict::Accept));
    assert!(matches!(judge(&facts(header(8, false)), 8, false, true), Verdict::Accept));
    let mut foreign = BTreeMap::new();
    foreign.insert(1, MemoryPayload { embedding_dim: 4, ..payload("wisdom", "r", "x") });
    assert!(matches!(judge(&survey(&foreign, true, 8, None), 8, false, false), Verdict::RefuseDimension));
    assert!(matches!(judge(&survey(&foreign, true, 8, None), 8, true, false), Verdict::Accept));
    foreign.insert(2, MemoryPayload { embedding_dim: 8, ..payload("wisdom", "r", "y") });
    assert!(matches!(judge(&survey(&foreign, true, 8, header(4, false)), 8, false, false), Verdict::Accept));
    let mut bare = BTreeMap::new();
    bare.insert(1, payload("wisdom", "r", ""));
    assert!(matches!(judge(&survey(&bare, false, 8, header(8, true)), 8, false, false), Verdict::RefuseStripped));
    let mut choice = Choice::new();
    assert!(choice.step(None));
    assert!(choice.step(Some(Verdict::RefuseSpace)));
    assert!(!choice.step(Some(Verdict::Accept)));
    assert!(choice.loaded);
    assert!(check_loaded(false, false).is_ok() && check_loaded(true, true).is_ok());
    assert!(matches!(check_loaded(true, false), Err(FieldError::Manifest(_))));
}

#[test]
fn sidecars_of_dead_families_are_orphans() {
    assert!(snapshot_sidecars().contains(&"pld".to_string()));
    let name = family_of("chitta.0000002a.pld");
    let live = vec![name.clone().unwrap_or_default()];
    if name.is_some() {
        assert!(!is_orphaned("chitta.0000002a.pld", &live));
        assert!(is_orphaned("chitta.0000002a.pld", &Vec::new()));
    }
    assert!(!is_orphaned("notes.txt", &Vec::new()));
}

#[test]
fn effects_are_values() {
    assert!(matches!(Effect::KeywordRemove { memory_id: 3 }, Effect::KeywordRemove { memory_id: 3 }));
}
