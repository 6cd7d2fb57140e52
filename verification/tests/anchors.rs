use chitta_field::anchors::{
    compare_digest, content_digest, is_within, select_sources, source_state, Anchor, AnchorIndex, FileRead,
    SourceQuery, SourceState, MARKER,
};
use chitta_field::memory::{MemoryPayload, MemoryState, StateDefaults};
use serde_json::Value;
use std::collections::BTreeMap;

fn json_of(a: &Anchor) -> String {
    let mut m = Value::Object(Default::default());
    for (k, v) in [("repo", &a.repo), ("path", &a.path), ("scope", &a.scope), ("content_hash", &a.content_hash)] {
        m[k] = Value::String(v.clone());
    }
    m.to_string()
}

fn anchor() -> Anchor {
    Anchor {
        repo: "/repo".into(),
        path: "docs/guide.md".into(),
        scope: "Runtime".into(),
        content_hash: "a".repeat(64),
    }
}

fn payload(content: &str, realm: &str, created_at_ms: i64) -> MemoryPayload {
    MemoryPayload {
        kind: "signal".into(),
        realm: realm.into(),
        content: content.as_bytes().to_vec(),
        embedding: Vec::new(),
        embedding_dim: 0,
        artifact_refs: Vec::new(),
        version: 1,
        chunk_hash: 0,
        created_at_ms,
        authored_at_ms: created_at_ms,
    }
}

fn state() -> MemoryState {
    MemoryState::new(&StateDefaults { strength: 0, confidence: 0, decay_rate: 0 }, 0, 1, 0)
}

#[test]
fn anchor_identity_and_validation() {
    let a = anchor();
    let content = format!("[artifact] input:docs/guide.md{MARKER}{}", json_of(&a));
    assert_eq!(Anchor::parse(content.as_bytes()), Some(a.clone()));
    assert!(Anchor::parse(content.replace("[artifact]", "[wisdom]").as_bytes()).is_none());
    assert!(Anchor::parse(content.replace("docs/guide.md", "../secret").as_bytes()).is_none());
    let mut b = a.clone();
    b.content_hash = "b".repeat(64);
    assert!(a.same_source(&b));
    b.scope = "Other heading".into();
    assert!(!a.same_source(&b));
    b.scope = a.scope.clone();
    b.repo = "/other".into();
    assert!(!a.same_source(&b));
}

fn parsed(json: &str) -> Option<Anchor> {
    Anchor::parse(format!("[done]{MARKER} {json} \n").as_bytes())
}

#[test]
fn an_anchor_is_an_object_or_an_array_of_four_strings() {
    let hash = "0123456789abcdef".repeat(4);
    assert!(parsed(&format!(r#"["/r","p","s","{hash}"]"#)).is_some());
    assert!(parsed(&format!(r#"["/r","p","s"]"#)).is_none());
    assert!(parsed(&format!(r#"{{"path":"p","repo":"/r","more":[1,{{"scope":2}}],"scope":"s","content_hash":"{hash}"}}"#)).is_some());
    assert!(parsed(&format!(r#"{{"path":"p","repo":"/r","content_hash":"{hash}"}}"#)).is_none());
    assert!(parsed(&format!(r#"{{"path":"p","path":"q","repo":"/r","scope":"s","content_hash":"{hash}"}}"#)).is_none());
    assert!(parsed(&format!(r#"{{"path":1,"repo":"/r","scope":"s","content_hash":"{hash}"}}"#)).is_none());
    let escaped = parsed(&format!(r#"{{"path":"a\"b","repo":"/r","scope":"s","content_hash":"{hash}"}}"#)).unwrap();
    assert_eq!(escaped.path, "a\"b");
}

#[test]
fn an_anchor_that_cannot_be_followed_is_refused() {
    let hash = "0".repeat(64);
    let with = |repo: &str, path: &str, scope: &str, hash: &str| {
        parsed(&json_of(&Anchor {
            repo: repo.into(),
            path: path.into(),
            scope: scope.into(),
            content_hash: hash.into(),
        }))
        .is_some()
    };
    assert!(with("/r", "a/./b//c", "s", &hash));
    assert!(!with("r", "a", "s", &hash));
    assert!(!with("/r", "/a", "s", &hash));
    assert!(!with("/r", "", "s", &hash));
    assert!(!with("/r", "./a", "s", &hash));
    assert!(!with("/r", "a/../b", "s", &hash));
    assert!(!with("/r", "a", "", &hash));
    assert!(!with("/r", "a", "s", "0"));
    assert!(!with("/r", "a", "s", &"A".repeat(64)));
    assert!(Anchor::parse(&[0xff, 0xfe]).is_none());
    assert!(Anchor::parse(b"[done] no marker").is_none());
}

#[test]
fn the_last_marker_counts() {
    let a = anchor();
    let content = format!("[artifact]{MARKER}nonsense{MARKER}{}", json_of(&a));
    assert_eq!(Anchor::parse(content.as_bytes()), Some(a));
}

#[test]
fn the_index_follows_the_payloads() {
    let text = format!("[artifact]{MARKER}{}", json_of(&anchor()));
    let mut payloads = BTreeMap::new();
    payloads.insert(5, payload(&text, "project:test", 50));
    payloads.insert(6, payload("plain", "project:test", 60));
    let mut index = AnchorIndex::rebuild(&payloads);
    assert_eq!(index.entries.keys().copied().collect::<Vec<_>>(), vec![5]);
    assert_eq!(index.entries[&5].anchor, anchor());
    assert_eq!((index.entries[&5].realm.as_str(), index.entries[&5].created_at_ms), ("project:test", 50));
    index.upsert(6, &payload(&text, "other", 61));
    assert_eq!(index.entries.len(), 2);
    index.upsert(5, &payload("edited", "project:test", 50));
    assert_eq!(index.entries.keys().copied().collect::<Vec<_>>(), vec![6]);
    assert!(AnchorIndex::default().entries.is_empty());
}

fn chosen(request: &str, index: &AnchorIndex, states: &BTreeMap<u64, MemoryState>) -> Vec<u64> {
    let q = SourceQuery::read(request.as_bytes()).unwrap();
    select_sources(&q, &index.entries, states).into_iter().map(|s| s.id).collect()
}

#[test]
fn sources_are_selected_by_request() {
    let mut other = anchor();
    other.path = "src/main.rs".into();
    let mut index = AnchorIndex::default();
    index.upsert(1, &payload(&format!("[done]{MARKER}{}", json_of(&anchor())), "a", 300));
    index.upsert(2, &payload(&format!("[done]{MARKER}{}", json_of(&other)), "b", 100));
    index.upsert(3, &payload(&format!("[done]{MARKER}{}", json_of(&anchor())), "b", 100));
    index.upsert(4, &payload(&format!("[done]{MARKER}{}", json_of(&anchor())), "a", 50));
    let mut states = BTreeMap::new();
    for id in 1..=3 {
        states.insert(id, state());
    }
    let mut gone = state();
    gone.deleted = true;
    states.insert(4, gone);
    assert_eq!(chosen("{}", &index, &states), vec![2, 3, 1]);
    assert_eq!(chosen(r#"{"realm":"b"}"#, &index, &states), vec![2, 3]);
    assert_eq!(chosen(r#"{"ids":["3","x",1]}"#, &index, &states), vec![3]);
    assert_eq!(chosen(r#"{"ids":[]}"#, &index, &states), Vec::<u64>::new());
    assert_eq!(chosen(r#"{"path":"/repo/src/main.rs"}"#, &index, &states), vec![2]);
    assert_eq!(chosen(&format!(r#"{{"anchor":{}}}"#, json_of(&anchor())), &index, &states), vec![3, 1]);
    assert_eq!(chosen(r#"{"anchor":{"repo":1}}"#, &index, &states), vec![2, 3, 1]);
    assert!(SourceQuery::read(b"no json").is_none());
}

#[test]
fn a_file_is_compared_by_its_digest() {
    let abc = "ba7816bf8f01cfea414140de5dae2223b00361a396177a9cb410ff61f20015ad";
    assert_eq!(content_digest(b"abc"), abc);
    let mut a = anchor();
    a.content_hash = abc.into();
    assert_eq!(source_state(&a, &FileRead::Content(b"abc".to_vec())), SourceState::Current);
    assert_eq!(source_state(&a, &FileRead::Content(b"abd".to_vec())), SourceState::Stale);
    assert_eq!(source_state(&a, &FileRead::Missing).name(), "missing");
    assert_eq!(source_state(&a, &FileRead::Unavailable).name(), "unavailable");
    assert_eq!(compare_digest("x", "x").name(), "current");
    assert_eq!(compare_digest("x", "y").name(), "stale");
}

#[test]
fn files_outside_the_repository_are_not_within_it() {
    assert!(is_within("/repo/docs/guide.md", "/repo"));
    assert!(!is_within("/repository/docs", "/repo"));
    assert!(!is_within("/", "/repo"));
}
