use chitta_field::apply::MsgEvent;
use chitta_field::arguments::{
    array_text, event_text, event_with_payload, events_text, matches_text, one_event_text, pairs_or_none, read_mapping,
    read_patterns, read_rejected, read_texts, skill_upload, texts_or_none, PruneMatch,
};
use chitta_field::decimal::i64_text;

#[test]
fn texts_are_read_from_an_array() {
    assert_eq!(read_texts(br#"["a","b\u00e9"]"#), vec!["a", "b\u{e9}"]);
    assert!(read_texts(br#"["a",1]"#).is_empty());
    assert!(read_texts(br#"{"a":"b"}"#).is_empty());
    assert!(read_texts(b"[\"\xff\"]").is_empty());
    assert!(texts_or_none(None).is_empty());
    assert_eq!(texts_or_none(Some(vec!["x".into()])), vec!["x"]);
}

#[test]
fn patterns_may_hold_bytes_that_are_no_text() {
    assert_eq!(read_patterns(b"[\"a\xff\"]"), vec!["a\u{fffd}"]);
    assert_eq!(read_patterns(br#"["todo"]"#), vec!["todo"]);
    assert!(read_patterns(b"todo").is_empty());
}

#[test]
fn rejected_choices_are_pairs() {
    assert_eq!(read_rejected(Some(b"[[7,1],[18446744073709551615,255]]")), vec![(7, 1), (u64::MAX, 255)]);
    assert!(read_rejected(Some(b"[[7,256]]")).is_empty());
    assert!(read_rejected(Some(b"\xff")).is_empty());
    assert!(read_rejected(None).is_empty());
    assert_eq!(pairs_or_none(Some(vec![(1, 2)])), vec![(1, 2)]);
}

#[test]
fn a_mapping_is_an_object_of_texts() {
    let mapping = read_mapping(r#"{"old":"new","a":"b","old":"newer"}"#).unwrap();
    assert_eq!(mapping, vec![("a".to_string(), "b".to_string()), ("old".to_string(), "newer".to_string())]);
    assert_eq!(read_mapping("{}").unwrap().len(), 0);
    assert!(read_mapping(r#"{"old":1}"#).is_none());
    assert!(read_mapping("old").is_none());
}

#[test]
fn a_skill_is_uploaded_with_its_tags() {
    let up = skill_upload("id", "text", "me", Some(r#"["x","y"]"#), 9);
    assert_eq!((up.skill_id.as_str(), up.content.as_str(), up.uploaded_by.as_str(), up.ts_ms), ("id", "text", "me", 9));
    assert_eq!(up.tags, vec!["x", "y"]);
    assert!(skill_upload("id", "text", "", Some("x"), 9).tags.is_empty());
    assert!(skill_upload("id", "text", "", None, 9).tags.is_empty());
}

fn event(event_id: u64, payload: &str) -> MsgEvent {
    MsgEvent {
        event_id,
        domain: "msg".into(),
        kind: "note".into(),
        target: "a\"b".into(),
        payload_json: payload.into(),
        realm: "r".into(),
        ts_ms: -3,
    }
}

#[test]
fn events_are_shown_with_their_payload() {
    let shown = r#"{"event_id":5,"kind":"note","payload":{"x":[1,2]},"realm":"r","target":"a\"b","ts_ms":-3}"#;
    let bare = r#"{"event_id":6,"kind":"note","payload":null,"realm":"r","target":"a\"b","ts_ms":-3}"#;
    let (first, second) = (event(5, r#" {"x": [1, 2]} "#), event(6, "{"));
    assert_eq!(event_text(&first), shown);
    assert_eq!(event_with_payload(&second, None), bare);
    assert_eq!(event_with_payload(&first, Some(r#"{"x":[1,2]}"#.into())), shown);
    assert_eq!(events_text(&vec![first, second]), format!("[{shown},{bare}]"));
    assert_eq!(events_text(&Vec::new()), "[]");
    assert_eq!(one_event_text(Some(&event(6, ""))), bare);
    assert_eq!(one_event_text(None), "{}");
}

#[test]
fn pruned_memories_are_listed() {
    let found = vec![
        PruneMatch { id: 4, kind: "note".into(), content: "a\nb".into() },
        PruneMatch { id: 5, kind: "k".into(), content: "".into() },
    ];
    assert_eq!(
        matches_text(&found),
        r#"[{"content":"a\nb","id":4,"kind":"note"},{"content":"","id":5,"kind":"k"}]"#
    );
    assert_eq!(array_text(&vec!["1".into(), "2".into()]), "[1,2]");
}

#[test]
fn numbers_are_written_with_their_sign() {
    assert_eq!(i64_text(i64::MIN), "-9223372036854775808");
    assert_eq!((i64_text(0).as_str(), i64_text(42).as_str(), i64_text(-7).as_str()), ("0", "42", "-7"));
}
