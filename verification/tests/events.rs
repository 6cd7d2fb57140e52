use chitta_field::ablation::Ablations;
use chitta_field::apply::{Effect, MsgEvent};
use chitta_field::error::FieldError;
use chitta_field::events::{
    analytics_event, compose_turn, event_op, event_source, follow_event, is_message_domain, plan_event,
    register_payload, restore_event, session_mark, session_register, task_event, tell_event, theme_event, transcript_event,
    transcript_payload, transcript_session, transition_outcome, turn_payload, user_model_event, user_model_payload,
    Emission, EventRequest, EventSource, UserModelEntry,
};
use chitta_field::ops::Op;

fn request(domain: &str, kind: &str) -> EventRequest {
    EventRequest {
        event_id: 5,
        domain: domain.into(),
        kind: kind.into(),
        entity_id: "profile-1".into(),
        payload: b"{}".to_vec(),
        realm: "r".into(),
        fencing_token: 3,
        ts_ms: 9,
    }
}

#[test]
fn an_event_becomes_the_operation_of_its_domain() {
    assert!(matches!(event_op(request("session", "register")).unwrap(), Op::SessionEvent(ev) if ev.session_id == "profile-1" && ev.ts_ms == 9));
    assert!(matches!(event_op(request("task", "create")).unwrap(), Op::TaskEvent(ev) if ev.fencing_token == 3));
    assert!(is_message_domain("ledger"));
    assert!(matches!(event_op(request("ledger", "task_records")).unwrap(), Op::MsgEvent(ev) if ev.domain == "ledger" && ev.target == "profile-1"));
}

#[test]
fn an_unknown_domain_is_refused() {
    assert!(event_op(request("user_model", "upsert")).is_err());
    assert!(event_op(request("nowhere", "x")).is_err());
    assert!(plan_event(request("user_model", "upsert"), &Ablations::none()).is_err());
}

#[test]
fn the_sender_of_an_event_is_told_its_id() {
    let told = tell_event(&plan_event(request("session", "register"), &Ablations::none()));
    assert_eq!((told.code, told.event_id), (0, 5));
    let off = Ablations::parse("session_registry").unwrap();
    let told = tell_event(&plan_event(request("session", "register"), &off));
    assert_eq!((told.code, told.event_id), (0, 0));
    let told = tell_event(&plan_event(request("user_model", "upsert"), &Ablations::none()));
    assert_eq!((told.code, told.event_id), (-1, 0));
    let told = tell_event(&plan_event(request("nowhere", "x"), &Ablations::none()));
    assert_eq!((told.code, told.event_id), (-1, 0));
}

#[test]
fn an_event_of_an_ablated_organ_is_not_logged() {
    let off = Ablations::parse("session_registry").unwrap();
    assert!(matches!(plan_event(request("session", "register"), &off), Ok(Emission::Suppressed)));
    assert!(matches!(
        plan_event(request("session", "register"), &Ablations::none()),
        Ok(Emission::Log { event_id: 5, .. })
    ));
}

#[test]
fn a_logged_event_takes_effect() {
    let op = event_op(EventRequest { payload: br#"{"kind":"codex"}"#.to_vec(), ..request("session", "register") }).unwrap();
    let fx = follow_event(op);
    assert!(fx.iter().any(|e| matches!(e, Effect::SessionRegister { session_id, kind, .. } if session_id == "profile-1" && kind == "codex")));
    let fx = follow_event(event_op(request("ledger", "task_records")).unwrap());
    assert!(fx.iter().any(|e| matches!(e, Effect::Message(m) if m.domain == "ledger" && m.payload_json == "{}")));
}

#[test]
fn saved_events_are_restored() {
    let ev = |domain: &str, kind: &str| MsgEvent {
        event_id: 1,
        domain: domain.into(),
        kind: kind.into(),
        target: "owner".into(),
        payload_json: r#"{"kind":"codex"}"#.into(),
        realm: "r".into(),
        ts_ms: 7,
    };
    let fx = restore_event(ev("session", "register"));
    assert!(matches!(&fx[0], Effect::SessionRegister { session_id, kind, ts_ms: 7, .. } if session_id == "owner" && kind == "codex"));
    assert!(matches!(&fx[1], Effect::Message(m) if m.target == "owner"));
    assert!(matches!(&restore_event(ev("session", "heartbeat"))[0], Effect::SessionHeartbeat { ts_ms: 7, .. }));
    assert!(matches!(&restore_event(ev("session", "deregister"))[0], Effect::SessionDeregister { .. }));
    assert_eq!(restore_event(ev("session", "other")).len(), 1);
    assert_eq!(restore_event(ev("ledger", "register")).len(), 1);
}

#[test]
fn events_are_looked_up_by_domain() {
    assert!(matches!(event_source("user_model"), Ok(EventSource::UserModel)));
    assert!(matches!(event_source("transcript"), Ok(EventSource::Transcript)));
    assert!(matches!(event_source("ledger"), Ok(EventSource::Messages)));
    assert!(event_source("nowhere").is_err());
    let entry = || Some(UserModelEntry { entity_type: "profile".into(), payload_json: r#"{"name":"abcdef"}"#.into() });
    assert_eq!(user_model_payload(entry(), "profile"), Some(r#"{"name":"abcdef"}"#.to_string()));
    assert_eq!(user_model_payload(entry(), "other"), None);
    assert_eq!(user_model_payload(None, "profile"), None);
}

#[test]
fn payloads_are_spelled_as_json() {
    assert_eq!(register_payload("codex"), r#"{"kind":"codex"}"#);
    assert_eq!(transcript_payload("tx-1"), r#"{"transcript_id":"tx-1"}"#);
    let turn = turn_payload("tx-1", "assistant", "say \"hi\"\n");
    assert!(turn.contains(r#""content":"say \"hi\"\n""#) && turn.contains(r#""role":"assistant""#));
    assert_eq!(compose_turn("tx-1", "user", "x").contains("tx-1"), true);
}

#[test]
fn operations_are_made_for_each_registry() {
    let op = session_register(1, "s", "codex", "r", 4);
    assert_eq!((op.kind.as_str(), op.payload_json.as_slice()), ("register", br#"{"kind":"codex"}"#.as_slice()));
    assert_eq!(session_mark(1, "s", false, 4).kind, "heartbeat");
    assert_eq!(session_mark(1, "s", true, 4).kind, "deregister");
    assert_eq!(transcript_event(1, "s", "add_turn", "{}", 4).kind, "add_turn");
    assert_eq!(task_event(1, "task", "t", "create", "{}", 4, 2).fencing_token, 2);
    assert_eq!(user_model_event(1, "profile", "p", "upsert", "{}", 4).entity_type, "profile");
    assert_eq!(theme_event(1, 2, "create", "{}").theme_id, 2);
    assert_eq!(analytics_event(1, "s", "k", b"x".to_vec(), 4).payload_json, b"x".to_vec());
}

#[test]
fn missing_transcripts_and_stale_tasks_are_errors() {
    assert_eq!(transcript_session(Some("sess-1".into()), "tx-1").unwrap(), "sess-1");
    assert!(matches!(transcript_session(None, "missing"), Err(FieldError::Other(e)) if e.contains("missing")));
    assert!(transition_outcome(true).is_ok());
    assert!(matches!(
        transition_outcome(false),
        Err(FieldError::Other(e)) if e == "task transition rejected: stale fencing token or unknown task_id"
    ));
}
