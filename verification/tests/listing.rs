use chitta_field::assoc::{AssocEdge, AssocEdges};
use chitta_field::listing::{
    count_by_kind, list_memories, realm_list, recall_by_kind, recall_filtered, select_memories, sort_by, tags_of,
    MemoryFilter, SortBy,
};
use chitta_field::members::Members;
use chitta_field::memory::{MemoryPayload, MemoryState, StateDefaults};
use chitta_field::ops::EdgeType;
use chitta_field::queries::{
    backlog, binding_name, census_text, claim_of, dispute, embeddings_of, get_assoc_edges, hit_facts,
    latest_transcripts, list_named, list_tasks, session_reply, statements, transcript_time, CensusRow, EdgeRow,
    Latest, Staging, TaskRow,
};
use chitta_field::triplet::TripletStore;
use std::collections::{BTreeMap, BTreeSet};

fn payload(kind: &str, realm: &str, created_at_ms: i64) -> MemoryPayload {
    MemoryPayload {
        kind: kind.into(),
        realm: realm.into(),
        content: format!("{kind} of {realm}").into_bytes(),
        embedding: vec![created_at_ms as u32],
        embedding_dim: 1,
        artifact_refs: Vec::new(),
        version: 1,
        chunk_hash: 0,
        created_at_ms,
        authored_at_ms: created_at_ms,
    }
}

fn state(confidence: f32) -> MemoryState {
    MemoryState::new(&StateDefaults { strength: 0, confidence: confidence.to_bits(), decay_rate: 0 }, 0, 1, 0)
}

struct Store {
    payloads: BTreeMap<u64, MemoryPayload>,
    states: BTreeMap<u64, MemoryState>,
    strengths: BTreeMap<u64, u32>,
}

fn store() -> Store {
    let mut s = Store { payloads: BTreeMap::new(), states: BTreeMap::new(), strengths: BTreeMap::new() };
    let rows = [(1, "wisdom", "zebra", 0.9, 0.1), (2, "wisdom", "alpha", 0.2, 0.9), (3, "episode", "middle", 0.5, 0.5), (4, "wisdom", "alpha", 0.7, 0.7)];
    for (id, kind, realm, confidence, strength) in rows {
        s.payloads.insert(id, payload(kind, realm, id as i64 * 10));
        s.states.insert(id, state(confidence));
        s.strengths.insert(id, f32::to_bits(strength));
    }
    s.payloads.insert(5, payload("wisdom", "hidden", 50));
    let mut gone = state(1.0);
    gone.deleted = true;
    s.states.insert(5, gone);
    s
}

fn all() -> MemoryFilter {
    MemoryFilter { kind: None, realm: None, min_confidence: None, min_strength: None }
}

#[test]
fn memories_are_listed_in_pages() {
    let s = store();
    let page = |by, offset, limit| list_memories(&all(), by, &s.payloads, &s.states, &s.strengths, offset, limit);
    assert_eq!(page(SortBy::Recency, 0, 10), vec![4, 3, 2, 1]);
    assert_eq!(page(SortBy::Confidence, 0, 10), vec![1, 4, 3, 2]);
    assert_eq!(page(SortBy::Strength, 0, 10), vec![2, 4, 3, 1]);
    assert_eq!(page(SortBy::Recency, 1, 2), vec![3, 2]);
    assert_eq!(page(SortBy::Recency, 9, 2), Vec::<u64>::new());
    let mut joined = page(SortBy::Strength, 0, 2);
    joined.extend(page(SortBy::Strength, 2, 2));
    assert_eq!(joined, page(SortBy::Strength, 0, 4));
    assert!(matches!(sort_by(Some("strength")), SortBy::Strength));
    assert!(matches!(sort_by(Some("confidence")), SortBy::Confidence));
    assert!(matches!(sort_by(None), SortBy::Recency));
}

#[test]
fn filters_admit_what_meets_them() {
    let s = store();
    let pick = |q: &MemoryFilter| select_memories(q, &s.payloads, &s.states, &s.strengths);
    assert_eq!(pick(&all()), vec![1, 2, 3, 4]);
    assert_eq!(pick(&MemoryFilter { kind: Some("wisdom".into()), ..all() }), vec![1, 2, 4]);
    assert_eq!(pick(&MemoryFilter { realm: Some("alpha".into()), ..all() }), vec![2, 4]);
    assert_eq!(pick(&MemoryFilter { min_confidence: Some(0.5f32.to_bits()), ..all() }), vec![1, 3, 4]);
    assert_eq!(pick(&MemoryFilter { min_strength: Some(0.6f32.to_bits()), ..all() }), vec![2, 4]);
    let two = recall_filtered(&all(), &s.payloads, &s.states, &s.strengths, 2);
    assert_eq!(two.len(), 2);
}

#[test]
fn a_kind_is_recalled_by_confidence() {
    let s = store();
    let members: BTreeSet<u64> = [1, 2, 4, 5].into_iter().collect();
    let got = recall_by_kind(&members, &s.payloads, &s.states, 2);
    assert_eq!(got.iter().map(|c| c.id).collect::<Vec<_>>(), vec![1, 4]);
    assert_eq!(got[0].confidence, 0.9f32.to_bits());
}

#[test]
fn realms_are_listed_in_order() {
    let s = store();
    assert_eq!(realm_list(&s.payloads, &s.states), vec!["alpha", "middle", "zebra"]);
    let (ids, counts) = count_by_kind(None, &s.payloads, &s.states);
    assert_eq!(ids, vec![1, 2, 3, 4]);
    assert_eq!((counts.get("wisdom"), counts.get("episode"), counts.get("x")), (Some(&3), Some(&1), None));
    let (ids, _) = count_by_kind(Some("alpha".into()), &s.payloads, &s.states);
    assert_eq!(ids, vec![2, 4]);
}

#[test]
fn tags_are_facts_about_a_memory() {
    let mut t = TripletStore::new();
    t.add("7".into(), "tagged".into(), "red".into(), 0, 1, None, None);
    t.add("7".into(), "other".into(), "blue".into(), 0, 1, None, None);
    t.add("7".into(), "tagged".into(), "green".into(), 0, 1, None, None);
    let late = t.add("7".into(), "tagged".into(), "grey".into(), 0, 1, None, None);
    t.invalidate(late, 5);
    assert_eq!(tags_of(&t, 7, 10), vec!["red", "green"]);
    assert!(tags_of(&t, 8, 10).is_empty());
}

fn edge(dst: u64, edge_type: EdgeType, weight: u32) -> AssocEdge {
    AssocEdge { dst, edge_type, weight }
}

#[test]
fn edges_are_given_out_in_both_directions() {
    let mut e = AssocEdges::new();
    e.append(1, edge(2, EdgeType::Supports, 10));
    e.append(1, edge(3, EdgeType::Contradicts, 11));
    e.append(3, edge(1, EdgeType::CoRetrieved, 12));
    e.append(2, edge(1, EdgeType::DerivedFrom, 13));
    e.append(2, edge(9, EdgeType::DerivedFrom, 14));
    e.append(1, edge(1, EdgeType::SameSession, 15));
    let row = |src, dst, edge_type, weight| EdgeRow { src, dst, edge_type, weight };
    let whole = vec![row(1, 2, 4, 10), row(1, 3, 5, 11), row(1, 1, 1, 15), row(2, 1, 0, 13), row(3, 1, 3, 12)];
    assert_eq!(get_assoc_edges(&e, 1, 100), whole);
    assert_eq!(get_assoc_edges(&e, 1, 4), whole[..4].to_vec());
    assert!(get_assoc_edges(&e, 1, 0).is_empty());
    assert_eq!(e.weight_of(1, 2, EdgeType::Supports), Some(10));
    e.set_weight(1, 2, EdgeType::Supports, 20);
    assert_eq!(e.weight_of(1, 2, EdgeType::Supports), Some(20));
}

#[test]
fn the_latest_transcripts_come_first() {
    let times: Vec<Latest> = [vec![5, 9], vec![], vec![7], vec![1, 9]].iter().map(transcript_time).collect();
    assert_eq!(latest_transcripts(&times, 10), vec![0, 3, 2, 1]);
    assert_eq!(latest_transcripts(&times, 1), vec![0]);
}

#[test]
fn listings_are_filtered_by_name() {
    let tasks = vec![
        TaskRow { kind: "task".into(), active: true },
        TaskRow { kind: "dream".into(), active: true },
        TaskRow { kind: "task".into(), active: false },
    ];
    assert_eq!(list_tasks(&tasks, None, false), vec![0, 1, 2]);
    assert_eq!(list_tasks(&tasks, None, true), vec![0, 1]);
    assert_eq!(list_tasks(&tasks, Some("task"), false), vec![0, 2]);
    assert_eq!(list_tasks(&tasks, Some("task"), true), vec![0]);
    let names = vec!["a".to_string(), "b".to_string(), "a".to_string()];
    assert_eq!(list_named(&names, Some("a")), vec![0, 2]);
    assert_eq!(list_named(&names, None), vec![0, 1, 2]);
}

#[test]
fn peers_speak_for_a_realm() {
    let s = store();
    let mut realms = Members::new();
    for id in [2, 4, 77] {
        realms.join("alpha", id);
    }
    let all = statements(&s.payloads, &realms, "alpha", None);
    assert_eq!(all.iter().map(|x| x.id).collect::<Vec<_>>(), vec![2, 4]);
    let c = claim_of(&s.payloads, &realms, "alpha", 4).unwrap();
    assert_eq!(c.content, b"wisdom of alpha".to_vec());
    assert_eq!(c.peers.iter().map(|x| x.id).collect::<Vec<_>>(), vec![2]);
    assert!(claim_of(&s.payloads, &realms, "alpha", 99).is_none());
    let d = dispute(&s.payloads, 1, 99);
    assert_eq!((d.winner.as_slice(), d.loser.len(), d.realm.as_str()), (b"wisdom of zebra".as_slice(), 0, "zebra"));
}

#[test]
fn embeddings_come_from_the_index_first() {
    let s = store();
    let mut indexed = BTreeMap::new();
    indexed.insert(1, vec![99]);
    let got = embeddings_of(&vec![1, 2, 2, 50], &indexed, &s.payloads);
    assert_eq!(got.len(), 2);
    assert_eq!((&got[&1], &got[&2]), (&vec![99], &vec![20]));
}

#[test]
fn the_bound_name_is_read_off_the_content() {
    assert_eq!(binding_name("[hdcbind] given role=val → qrole=NAME (sim=0.9)"), "NAME");
    assert_eq!(binding_name("given a=b → q=one=two(x)"), "one=two");
    assert_eq!(binding_name("given a=b → q"), "");
    assert_eq!(binding_name("no arrow = x"), "");
    assert_eq!(binding_name("a → b=c → d=e"), "c");
}

#[test]
fn waiting_memories_are_counted() {
    let row = |deleted, staged, created_at_ms| Staging { deleted, staged, created_at_ms };
    let b = backlog(&vec![row(false, true, 400), row(true, true, 1), row(false, false, 2), row(false, true, 700)], 1000);
    assert_eq!((b.count, b.oldest_age_ms), (2, 600));
    let b = backlog(&vec![row(false, true, 2000)], 1000);
    assert_eq!((b.count, b.oldest_age_ms), (1, 0));
    assert_eq!(backlog(&Vec::new(), 5).count, 0);
}

#[test]
fn a_hit_without_a_state_is_all_zero() {
    let s = store();
    assert_eq!(hit_facts(&s.states, 1).confidence, 0.9f32.to_bits());
    let h = hit_facts(&s.states, 404);
    assert_eq!((h.ts_ms, h.strength, h.confidence, h.access_count), (0, 0, 0, 0));
}

#[test]
fn a_census_is_written_out() {
    let row = |count| CensusRow { count, w0: 1, w1: 2, w2: 3, w3: 4, w4: 50 };
    assert_eq!(census_text(&Vec::new()), "[]");
    assert_eq!(
        census_text(&vec![row(60), row(0)]),
        r#"[{"type":"DerivedFrom","count":60,"weights":[1,2,3,4,50]},{"type":"SameSession","count":0,"weights":[1,2,3,4,50]}]"#
    );
}

#[test]
fn sessions_are_answered_as_an_array_and_counted() {
    let found = vec!["s1".into(), "s\"2".into(), "s3".into()];
    let reply = session_reply(&found, 2);
    assert_eq!((reply.count, reply.text.as_str()), (2, r#"["s1","s\"2"]"#));
    let reply = session_reply(&found, 9);
    assert_eq!((reply.count, reply.text.as_str()), (3, r#"["s1","s\"2","s3"]"#));
    let reply = session_reply(&Vec::new(), 9);
    assert_eq!((reply.count, reply.text.as_str()), (0, "[]"));
}
