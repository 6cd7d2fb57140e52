//! Domain events: which operation an event becomes, and what follows from it at once.
use crate::ablation::{owner, Ablations};
use crate::apply::{session_done, session_effects, Effect, MsgEvent};
use crate::error::FieldError;
use crate::json::{json_quoted, json_text_member, quoted, text_member};
use crate::ops::{
    AnalyticsEventOp, MsgEventOp, Op, SessionEventOp, TaskEventOp, ThemeEventOp, TranscriptEventOp,
    UserModelEventOp,
};
use crate::text::{decode_or_empty, str_eq, text_or_empty};
use vstd::prelude::*;
use vstd::string::*;
use vstd::utf8::*;

verus! {

/// An event that a caller wants to emit.
pub struct EventRequest {
    pub event_id: u64,
    pub domain: String,
    pub kind: String,
    pub entity_id: String,
    pub payload: Vec<u8>,
    pub realm: String,
    pub fencing_token: u64,
    pub ts_ms: i64,
}

/// The domains whose events are kept as messages.
pub open spec fn message_domain(domain: Seq<char>) -> bool {
    domain == "msg"@ || domain == "sadhana"@ || domain == "dream"@ || domain == "ledger"@
}

pub fn is_message_domain(domain: &str) -> (r: bool)
    ensures
        r == message_domain(domain@),
{
    str_eq(domain, "msg") || str_eq(domain, "sadhana") || str_eq(domain, "dream") || str_eq(
        domain,
        "ledger",
    )
}

/// Events of the domain can be emitted.
pub open spec fn event_domain(domain: Seq<char>) -> bool {
    domain == "session"@ || domain == "transcript"@ || domain == "task"@ || domain == "theme"@ || domain
        == "analytics"@ || message_domain(domain)
}

/// `op` is the operation of an event. Where two domains are spelled alike the first counts.
pub open spec fn event_becomes(q: EventRequest, op: Op) -> bool {
    if q.domain@ == "session"@ {
        op matches Op::SessionEvent(x) && {
            &&& x.event_id == q.event_id && x.ts_ms == q.ts_ms
            &&& x.session_id@ == q.entity_id@ && x.kind@ == q.kind@
            &&& x.payload_json@ == q.payload@ && x.realm@ == q.realm@
        }
    } else if q.domain@ == "transcript"@ {
        op matches Op::TranscriptEvent(x) && {
            &&& x.event_id == q.event_id && x.ts_ms == q.ts_ms
            &&& x.session_id@ == q.entity_id@ && x.kind@ == q.kind@
            &&& x.payload_json@ == q.payload@ && x.realm@ == q.realm@
        }
    } else if q.domain@ == "task"@ {
        op matches Op::TaskEvent(x) && {
            &&& x.event_id == q.event_id && x.ts_ms == q.ts_ms
            &&& x.task_type@ == q.entity_id@ && x.task_id@ == q.entity_id@ && x.kind@ == q.kind@
            &&& x.payload_json@ == q.payload@ && x.realm@ == q.realm@
            &&& x.fencing_token == q.fencing_token
        }
    } else if q.domain@ == "theme"@ {
        op matches Op::ThemeEvent(x) && {
            &&& x.event_id == q.event_id && x.ts_ms == q.ts_ms
            &&& x.kind@ == q.kind@ && x.theme_id == q.fencing_token && x.payload_json@ == q.payload@
        }
    } else if q.domain@ == "analytics"@ {
        op matches Op::AnalyticsEvent(x) && {
            &&& x.event_id == q.event_id && x.ts_ms == q.ts_ms
            &&& x.kind@ == q.kind@ && x.session_id@ == q.entity_id@ && x.payload_json@ == q.payload@
        }
    } else {
        op matches Op::MsgEvent(x) && {
            &&& x.event_id == q.event_id && x.ts_ms == q.ts_ms
            &&& x.domain@ == q.domain@ && x.kind@ == q.kind@ && x.target@ == q.entity_id@
            &&& x.payload_json@ == q.payload@ && x.realm@ == q.realm@
        }
    }
}

/// Why an event of this domain is refused.
pub open spec fn refusal_of(domain: Seq<char>) -> Seq<char> {
    if domain == "user_model"@ {
        "cf_emit_event: use cf_user_model_upsert/cf_user_model_observe for user_model events"@
    } else {
        "unknown domain: "@ + domain
    }
}

/// The operation of an event.
pub fn event_op(q: EventRequest) -> (r: Result<Op, FieldError>)
    ensures
        r is Ok <==> event_domain(q.domain@),
        r matches Ok(op) ==> event_becomes(q, op),
        r matches Err(e) ==> e matches FieldError::Other(m) && m@ == refusal_of(q.domain@),
{
    if str_eq(q.domain.as_str(), "session") {
        Ok(
            Op::SessionEvent(
                SessionEventOp {
                    event_id: q.event_id,
                    session_id: q.entity_id,
                    kind: q.kind,
                    payload_json: q.payload,
                    realm: q.realm,
                    ts_ms: q.ts_ms,
                },
            ),
        )
    } else if str_eq(q.domain.as_str(), "transcript") {
        Ok(
            Op::TranscriptEvent(
                TranscriptEventOp {
                    event_id: q.event_id,
                    session_id: q.entity_id,
                    kind: q.kind,
                    payload_json: q.payload,
                    realm: q.realm,
                    ts_ms: q.ts_ms,
                },
            ),
        )
    } else if str_eq(q.domain.as_str(), "task") {
        Ok(
            Op::TaskEvent(
                TaskEventOp {
                    event_id: q.event_id,
                    task_type: q.entity_id.clone(),
                    task_id: q.entity_id,
                    kind: q.kind,
                    payload_json: q.payload,
                    realm: q.realm,
                    ts_ms: q.ts_ms,
                    fencing_token: q.fencing_token,
                },
            ),
        )
    } else if str_eq(q.domain.as_str(), "theme") {
        Ok(
            Op::ThemeEvent(
                ThemeEventOp {
                    event_id: q.event_id,
                    kind: q.kind,
                    theme_id: q.fencing_token,
                    payload_json: q.payload,
                    ts_ms: q.ts_ms,
                },
            ),
        )
    } else if str_eq(q.domain.as_str(), "analytics") {
        Ok(
            Op::AnalyticsEvent(
                AnalyticsEventOp {
                    event_id: q.event_id,
                    kind: q.kind,
                    session_id: q.entity_id,
                    payload_json: q.payload,
                    ts_ms: q.ts_ms,
                },
            ),
        )
    } else if is_message_domain(q.domain.as_str()) {
        Ok(
            Op::MsgEvent(
                MsgEventOp {
                    event_id: q.event_id,
                    domain: q.domain,
                    kind: q.kind,
                    target: q.entity_id,
                    payload_json: q.payload,
                    realm: q.realm,
                    ts_ms: q.ts_ms,
                },
            ),
        )
    } else if str_eq(q.domain.as_str(), "user_model") {
        Err(
            FieldError::Other(
                "cf_emit_event: use cf_user_model_upsert/cf_user_model_observe for user_model events".to_owned(),
            ),
        )
    } else {
        let mut m = "unknown domain: ".to_owned();
        m.append(q.domain.as_str());
        Err(FieldError::Other(m))
    }
}

/// What becomes of an event.
pub enum Emission {
    /// Its organ is switched off: nothing is logged, and the event has no id.
    Suppressed,
    /// It is logged, under its id.
    Log { op: Op, event_id: u64 },
}

/// `r` is what becomes of an event while the organs `off` are switched off.
pub open spec fn planned(q: EventRequest, off: Set<Seq<char>>, r: Result<Emission, FieldError>) -> bool {
    &&& r is Ok <==> event_domain(q.domain@)
    &&& r matches Err(e) ==> e matches FieldError::Other(m) && m@ == refusal_of(q.domain@)
    &&& r matches Ok(Emission::Log { op, event_id }) ==> {
        &&& event_becomes(q, op)
        &&& event_id == q.event_id
        &&& !(owner(op) is Some && off.contains(owner(op)->0))
    }
    &&& r matches Ok(Emission::Suppressed) ==> exists|op: Op| #[trigger]
        event_becomes(q, op) && owner(op) is Some && off.contains(owner(op)->0)
}

/// Decides what becomes of an event.
pub fn plan_event(q: EventRequest, ablations: &Ablations) -> (r: Result<Emission, FieldError>)
    ensures
        r is Ok <==> event_domain(q.domain@),
        r matches Err(e) ==> e matches FieldError::Other(m) && m@ == refusal_of(q.domain@),
        r matches Ok(Emission::Log { op, event_id }) ==> {
            &&& event_becomes(q, op)
            &&& event_id == q.event_id
            &&& !(owner(op) is Some && ablations@.contains(owner(op)->0))
        },
        r matches Ok(Emission::Suppressed) ==> exists|op: Op| #[trigger]
            event_becomes(q, op) && owner(op) is Some && ablations@.contains(owner(op)->0),
        planned(q, ablations@, r),
{
    let event_id: u64 = q.event_id;
    match event_op(q) {
        Err(e) => Err(e),
        Ok(op) => {
            if ablations.suppresses(&op) {
                assert(event_becomes(q, op));
                Ok(Emission::Suppressed)
            } else {
                Ok(Emission::Log { op, event_id })
            }
        },
    }
}

/// What the sender of an event is told: whether it was taken, and its id. No id is zero.
#[derive(Clone, Copy, Debug, PartialEq, Eq, Structural)]
pub struct Told {
    pub code: i32,
    pub event_id: u64,
}

/// Tells the sender of an event what became of it. An event that was refused, could not be logged
/// or was suppressed has no id.
pub fn tell_event(outcome: &Result<Emission, FieldError>) -> (r: Told)
    ensures
        r.code == if outcome is Ok {
            0int
        } else {
            -1
        },
        r.event_id == (match *outcome {
            Ok(Emission::Log { op, event_id }) => event_id,
            _ => 0,
        }),
{
    match outcome {
        Ok(Emission::Log { op: _, event_id }) => Told { code: 0, event_id: *event_id },
        Ok(Emission::Suppressed) => Told { code: 0, event_id: 0 },
        Err(_) => Told { code: -1, event_id: 0 },
    }
}

/// Whether an event is logged depends on its domain only: its organ is switched on.
pub open spec fn logs(domain: Seq<char>, off: Set<Seq<char>>) -> bool {
    if domain == "session"@ {
        !off.contains("session_registry"@)
    } else if domain == "transcript"@ {
        !off.contains("transcript_registry"@)
    } else if domain == "task"@ {
        !off.contains("task_registry"@)
    } else if domain == "theme"@ {
        !off.contains("theme_organ"@)
    } else if domain == "analytics"@ {
        !off.contains("analytics_registry"@)
    } else {
        !off.contains("msg_registry"@)
    }
}

/// An event is logged exactly when the organ of its domain is switched on.
pub proof fn logged_when_the_organ_is_on(q: EventRequest, op: Op, off: Set<Seq<char>>)
    requires
        event_domain(q.domain@),
        event_becomes(q, op),
    ensures
        logs(q.domain@, off) <==> !(owner(op) is Some && off.contains(owner(op)->0)),
{
}

/// The message that a message event is kept as.
pub open spec fn kept_as(ev: MsgEventOp, m: MsgEvent) -> bool {
    &&& m.event_id == ev.event_id && m.ts_ms == ev.ts_ms
    &&& m.domain == ev.domain && m.kind == ev.kind && m.target == ev.target && m.realm == ev.realm
    &&& m.payload_json@ == text_or_empty(ev.payload_json@)
}

/// What follows at once from a logged event: transcripts and sessions follow it, messages and
/// session events can be queried. Other events wait for the log to be replayed.
pub open spec fn followed(op: Op, fx: Seq<Effect>) -> bool {
    match op {
        Op::TranscriptEvent(_) => fx == seq![Effect::Organ(op)],
        Op::SessionEvent(ev) => session_done(ev, json_text_member(ev.payload_json@, "kind"@), fx),
        Op::MsgEvent(ev) => fx.len() == 1 && (fx[0] matches Effect::Message(m) && kept_as(ev, m)),
        _ => fx == Seq::<Effect>::empty(),
    }
}

/// What follows at once from a logged event.
pub fn follow_event(op: Op) -> (fx: Vec<Effect>)
    ensures
        followed(op, fx@),
{
    let mut fx: Vec<Effect> = Vec::new();
    match op {
        Op::TranscriptEvent(x) => {
            fx.push(Effect::Organ(Op::TranscriptEvent(x)));
            assert(fx@ =~= seq![Effect::Organ(op)]);
            fx
        },
        Op::SessionEvent(ev) => {
            let kind = text_member(ev.payload_json.as_slice(), "kind");
            session_effects(&ev, kind)
        },
        Op::MsgEvent(ev) => {
            let payload_json = decode_or_empty(ev.payload_json.as_slice());
            fx.push(
                Effect::Message(
                    MsgEvent {
                        event_id: ev.event_id,
                        domain: ev.domain,
                        kind: ev.kind,
                        target: ev.target,
                        payload_json,
                        realm: ev.realm,
                        ts_ms: ev.ts_ms,
                    },
                ),
            );
            fx
        },
        _ => fx,
    }
}

/// What follows from an event that a snapshot brings back: a session event follows into the
/// registry, and every event can be queried.
pub open spec fn restored(ev: MsgEvent, kind: Option<Seq<char>>, fx: Seq<Effect>) -> bool {
    let listed = ev.domain@ == "session"@ && (ev.kind@ == "register"@ || ev.kind@ == "heartbeat"@ || ev.kind@
        == "deregister"@);
    &&& fx.len() == if listed {
        2
    } else {
        1nat
    }
    &&& fx.last() == Effect::Message(ev)
    &&& listed && ev.kind@ == "register"@ ==> (fx[0] matches Effect::SessionRegister {
        session_id,
        kind: k,
        realm,
        ts_ms,
    } && session_id == ev.target && realm == ev.realm && ts_ms == ev.ts_ms && k@ == match kind {
        Some(text) => text,
        None => Seq::<char>::empty(),
    })
    &&& listed && ev.kind@ != "register"@ && ev.kind@ == "heartbeat"@ ==> fx[0] == (
    Effect::SessionHeartbeat { session_id: ev.target, ts_ms: ev.ts_ms })
    &&& listed && ev.kind@ != "register"@ && ev.kind@ != "heartbeat"@ ==> fx[0] == (
    Effect::SessionDeregister { session_id: ev.target })
}

/// What follows from an event that a snapshot brings back.
pub fn restore_event(ev: MsgEvent) -> (fx: Vec<Effect>)
    ensures
        restored(ev, json_text_member(encode_utf8(ev.payload_json@), "kind"@), fx@),
{
    let mut fx: Vec<Effect> = Vec::new();
    if str_eq(ev.domain.as_str(), "session") {
        if str_eq(ev.kind.as_str(), "register") {
            let kind = match text_member(ev.payload_json.as_str().as_bytes(), "kind") {
                Some(s) => s,
                None => String::new(),
            };
            fx.push(
                Effect::SessionRegister {
                    session_id: ev.target.clone(),
                    kind,
                    realm: ev.realm.clone(),
                    ts_ms: ev.ts_ms,
                },
            );
        } else if str_eq(ev.kind.as_str(), "heartbeat") {
            fx.push(Effect::SessionHeartbeat { session_id: ev.target.clone(), ts_ms: ev.ts_ms });
        } else if str_eq(ev.kind.as_str(), "deregister") {
            fx.push(Effect::SessionDeregister { session_id: ev.target.clone() });
        }
    }
    fx.push(Effect::Message(ev));
    fx
}

/// Where the latest event of a domain is looked up.
#[derive(Clone, Copy, Debug, PartialEq, Eq, Structural)]
pub enum EventSource {
    UserModel,
    Transcript,
    Messages,
}

/// Where the latest event of a domain is looked up.
pub fn event_source(domain: &str) -> (r: Result<EventSource, FieldError>)
    ensures
        r is Ok <==> domain@ == "user_model"@ || domain@ == "transcript"@ || message_domain(domain@),
        r matches Ok(s) ==> s == if domain@ == "user_model"@ {
            EventSource::UserModel
        } else if domain@ == "transcript"@ {
            EventSource::Transcript
        } else {
            EventSource::Messages
        },
        r matches Err(e) ==> e matches FieldError::Other(m) && m@
            == "cf_get_latest_event: unsupported domain '"@ + domain@ + "'"@,
{
    if str_eq(domain, "user_model") {
        Ok(EventSource::UserModel)
    } else if str_eq(domain, "transcript") {
        Ok(EventSource::Transcript)
    } else if is_message_domain(domain) {
        Ok(EventSource::Messages)
    } else {
        let mut m = "cf_get_latest_event: unsupported domain '".to_owned();
        m.append(domain);
        m.append("'");
        Err(FieldError::Other(m))
    }
}

/// An entry of the user model.
pub struct UserModelEntry {
    pub entity_type: String,
    pub payload_json: String,
}

/// The payload of an entry, where it has the type that is asked for.
pub fn user_model_payload(entry: Option<UserModelEntry>, kind: &str) -> (r: Option<String>)
    ensures
        r == match entry {
            Some(e) => if e.entity_type@ == kind@ {
                Some(e.payload_json)
            } else {
                None
            },
            None => None,
        },
{
    match entry {
        Some(e) => {
            if str_eq(e.entity_type.as_str(), kind) {
                Some(e.payload_json)
            } else {
                None
            }
        },
        None => None,
    }
}

fn text_bytes(s: &str) -> (r: Vec<u8>)
    ensures
        r@ == s.spec_bytes(),
{
    let mut r: Vec<u8> = Vec::new();
    crate::bytes::put_all(&mut r, s.as_bytes());
    assert(r@ =~= s.spec_bytes());
    r
}

/// The payload of a registration.
pub fn register_payload(kind: &str) -> (r: String)
    ensures
        r@ == "{\"kind\":\""@ + kind@ + "\"}"@,
{
    let mut r = "{\"kind\":\"".to_owned();
    r.append(kind);
    r.append("\"}");
    r
}

/// The operation that registers a session.
pub fn session_register(event_id: u64, session_id: &str, kind: &str, realm: &str, now_ms: i64) -> (r:
    SessionEventOp)
    ensures
        r.event_id == event_id && r.ts_ms == now_ms,
        r.session_id@ == session_id@ && r.realm@ == realm@,
        r.kind@ == "register"@,
        r.payload_json@ == encode_utf8("{\"kind\":\""@ + kind@ + "\"}"@),
{
    let payload = register_payload(kind);
    SessionEventOp {
        event_id,
        session_id: session_id.to_owned(),
        kind: "register".to_owned(),
        payload_json: text_bytes(payload.as_str()),
        realm: realm.to_owned(),
        ts_ms: now_ms,
    }
}

/// The operation that marks a session as alive, or as closed.
pub fn session_mark(event_id: u64, session_id: &str, closed: bool, now_ms: i64) -> (r: SessionEventOp)
    ensures
        r.event_id == event_id && r.ts_ms == now_ms,
        r.session_id@ == session_id@,
        r.kind@ == if closed {
            "deregister"@
        } else {
            "heartbeat"@
        },
        r.payload_json@.len() == 0 && r.realm@.len() == 0,
{
    SessionEventOp {
        event_id,
        session_id: session_id.to_owned(),
        kind: if closed {
            "deregister".to_owned()
        } else {
            "heartbeat".to_owned()
        },
        payload_json: Vec::new(),
        realm: String::new(),
        ts_ms: now_ms,
    }
}

/// The payload of a transcript's registration.
pub fn transcript_payload(transcript_id: &str) -> (r: String)
    ensures
        r@ == "{\"transcript_id\":\""@ + transcript_id@ + "\"}"@,
{
    let mut r = "{\"transcript_id\":\"".to_owned();
    r.append(transcript_id);
    r.append("\"}");
    r
}

/// The payload of a transcript's turn.
pub open spec fn turn_text(transcript_id: Seq<char>, role: Seq<char>, content: Seq<char>) -> Seq<char> {
    "{\"content\":"@ + json_quoted(content) + ",\"role\":"@ + json_quoted(role) + ",\"transcript_id\":"@
        + json_quoted(transcript_id) + "}"@
}

/// The payload of a transcript's turn.
pub fn turn_payload(transcript_id: &str, role: &str, content: &str) -> (r: String)
    ensures
        r@ == turn_text(transcript_id@, role@, content@),
{
    let c = quoted(content);
    let o = quoted(role);
    let t = quoted(transcript_id);
    compose_turn(t.as_str(), o.as_str(), c.as_str())
}

/// Puts the payload of a turn together from texts that are already quoted.
pub fn compose_turn(transcript_id: &str, role: &str, content: &str) -> (r: String)
    ensures
        r@ == "{\"content\":"@ + content@ + ",\"role\":"@ + role@ + ",\"transcript_id\":"@ + transcript_id@
            + "}"@,
{
    let mut r = "{\"content\":".to_owned();
    r.append(content);
    r.append(",\"role\":");
    r.append(role);
    r.append(",\"transcript_id\":");
    r.append(transcript_id);
    r.append("}");
    r
}

/// The session of a transcript, or the error that there is no such transcript.
pub fn transcript_session(found: Option<String>, transcript_id: &str) -> (r: Result<String, FieldError>)
    ensures
        r is Ok <==> found is Some,
        r matches Ok(s) ==> Some(s) == found,
        r matches Err(e) ==> e matches FieldError::Other(m) && m@ == "unknown transcript_id: "@
            + transcript_id@,
{
    match found {
        Some(s) => Ok(s),
        None => {
            let mut m = "unknown transcript_id: ".to_owned();
            m.append(transcript_id);
            Err(FieldError::Other(m))
        },
    }
}

/// An operation of a transcript.
pub fn transcript_event(event_id: u64, session_id: &str, kind: &str, payload: &str, ts_ms: i64) -> (r:
    TranscriptEventOp)
    ensures
        r.event_id == event_id && r.ts_ms == ts_ms,
        r.session_id@ == session_id@ && r.kind@ == kind@,
        r.payload_json@ == payload.spec_bytes() && r.realm@.len() == 0,
{
    TranscriptEventOp {
        event_id,
        session_id: session_id.to_owned(),
        kind: kind.to_owned(),
        payload_json: text_bytes(payload),
        realm: String::new(),
        ts_ms,
    }
}

/// An operation of a task.
pub fn task_event(
    event_id: u64,
    task_type: &str,
    task_id: &str,
    kind: &str,
    payload: &str,
    now_ms: i64,
    fencing_token: u64,
) -> (r: TaskEventOp)
    ensures
        r.event_id == event_id && r.ts_ms == now_ms && r.fencing_token == fencing_token,
        r.task_type@ == task_type@ && r.task_id@ == task_id@ && r.kind@ == kind@,
        r.payload_json@ == payload.spec_bytes() && r.realm@.len() == 0,
{
    TaskEventOp {
        event_id,
        task_type: task_type.to_owned(),
        task_id: task_id.to_owned(),
        kind: kind.to_owned(),
        payload_json: text_bytes(payload),
        realm: String::new(),
        ts_ms: now_ms,
        fencing_token,
    }
}

/// The outcome of a task's transition.
pub fn transition_outcome(done: bool) -> (r: Result<(), FieldError>)
    ensures
        r is Ok <==> done,
        r matches Err(e) ==> e matches FieldError::Other(m) && m@
            == "task transition rejected: stale fencing token or unknown task_id"@,
{
    if done {
        Ok(())
    } else {
        Err(
            FieldError::Other(
                "task transition rejected: stale fencing token or unknown task_id".to_owned(),
            ),
        )
    }
}

/// An operation of the user model.
pub fn user_model_event(
    event_id: u64,
    entity_type: &str,
    entity_id: &str,
    kind: &str,
    payload: &str,
    now_ms: i64,
) -> (r: UserModelEventOp)
    ensures
        r.event_id == event_id && r.ts_ms == now_ms,
        r.entity_type@ == entity_type@ && r.entity_id@ == entity_id@ && r.kind@ == kind@,
        r.payload_json@ == payload.spec_bytes(),
{
    UserModelEventOp {
        event_id,
        entity_type: entity_type.to_owned(),
        entity_id: entity_id.to_owned(),
        kind: kind.to_owned(),
        payload_json: text_bytes(payload),
        ts_ms: now_ms,
    }
}

/// An operation of a theme.
pub fn theme_event(event_id: u64, theme_id: u64, kind: &str, payload: &str) -> (r: ThemeEventOp)
    ensures
        r.event_id == event_id && r.theme_id == theme_id && r.ts_ms == 0,
        r.kind@ == kind@ && r.payload_json@ == payload.spec_bytes(),
{
    ThemeEventOp {
        event_id,
        kind: kind.to_owned(),
        theme_id,
        payload_json: text_bytes(payload),
        ts_ms: 0,
    }
}

/// An analytics record.
pub fn analytics_event(event_id: u64, session_id: &str, kind: &str, payload: Vec<u8>, ts_ms: i64) -> (r:
    AnalyticsEventOp)
    ensures
        r.event_id == event_id && r.ts_ms == ts_ms,
        r.session_id@ == session_id@ && r.kind@ == kind@ && r.payload_json == payload,
{
    AnalyticsEventOp {
        event_id,
        kind: kind.to_owned(),
        session_id: session_id.to_owned(),
        payload_json: payload,
        ts_ms,
    }
}

/// The words by which domains and kinds of events are told apart are all different.
proof fn event_words_differ()
    ensures
        "register"@ != "heartbeat"@ && "register"@ != "deregister"@ && "heartbeat"@ != "deregister"@,
        "session"@ != "transcript"@ && "session"@ != "task"@ && "session"@ != "theme"@ && "session"@
            != "analytics"@ && "transcript"@ != "task"@ && "transcript"@ != "theme"@ && "transcript"@
            != "analytics"@ && "task"@ != "theme"@ && "task"@ != "analytics"@ && "theme"@
            != "analytics"@,
        "session"@ != "msg"@ && "session"@ != "sadhana"@ && "session"@ != "dream"@ && "session"@
            != "ledger"@,
        "transcript"@ != "msg"@ && "transcript"@ != "sadhana"@ && "transcript"@ != "dream"@
            && "transcript"@ != "ledger"@,
        "task"@ != "msg"@ && "task"@ != "sadhana"@ && "task"@ != "dream"@ && "task"@ != "ledger"@,
        "theme"@ != "msg"@ && "theme"@ != "sadhana"@ && "theme"@ != "dream"@ && "theme"@ != "ledger"@,
        "analytics"@ != "msg"@ && "analytics"@ != "sadhana"@ && "analytics"@ != "dream"@ && "analytics"@
            != "ledger"@,
        "user_model"@ != "session"@ && "user_model"@ != "transcript"@ && "user_model"@ != "task"@
            && "user_model"@ != "theme"@ && "user_model"@ != "analytics"@ && "user_model"@ != "msg"@
            && "user_model"@ != "sadhana"@ && "user_model"@ != "dream"@ && "user_model"@ != "ledger"@,
{
    reveal_strlit("register");
    reveal_strlit("heartbeat");
    reveal_strlit("deregister");
    reveal_strlit("session");
    reveal_strlit("transcript");
    reveal_strlit("task");
    reveal_strlit("theme");
    reveal_strlit("analytics");
    reveal_strlit("msg");
    reveal_strlit("sadhana");
    reveal_strlit("dream");
    reveal_strlit("ledger");
    reveal_strlit("user_model");
    assert("session"@[1] == 'e' && "sadhana"@[1] == 'a');
    assert("transcript"@[0] == 't' && "user_model"@[0] == 'u');
    assert("theme"@[0] == 't' && "dream"@[0] == 'd');
    assert("analytics"@[0] == 'a' && "heartbeat"@[0] == 'h');
    assert("register"@.len() == 8 && "heartbeat"@.len() == 9 && "deregister"@.len() == 10);
    assert("session"@.len() == 7 && "transcript"@.len() == 10 && "task"@.len() == 4 && "theme"@.len() == 5
        && "analytics"@.len() == 9 && "msg"@.len() == 3 && "sadhana"@.len() == 7 && "dream"@.len() == 5
        && "ledger"@.len() == 6 && "user_model"@.len() == 10);
}

/// A session event has the same effect on the registry when it follows at once from the log and
/// when it is brought back from a snapshot as the message that it was kept as: the same change, of
/// the same session, at the same time.
pub proof fn restoring_repeats_what_followed(
    ev: SessionEventOp,
    kind: Option<Seq<char>>,
    fx: Seq<Effect>,
    m: MsgEvent,
    again: Seq<Effect>,
)
    requires
        session_done(ev, kind, fx),
        fx.last() == Effect::Message(m),
        restored(m, kind, again),
    ensures
        again.len() == fx.len(),
        again.last() == fx.last(),
        forall|k: int|
            0 <= k < fx.len() - 1 ==> match (#[trigger] fx[k], again[k]) {
                (
                    Effect::SessionRegister { session_id: s, kind: w, realm: r, ts_ms: t },
                    Effect::SessionRegister { session_id: s2, kind: w2, realm: r2, ts_ms: t2 },
                ) => s@ == s2@ && w@ == w2@ && r@ == r2@ && t == t2,
                (
                    Effect::SessionHeartbeat { session_id: s, ts_ms: t },
                    Effect::SessionHeartbeat { session_id: s2, ts_ms: t2 },
                ) => s@ == s2@ && t == t2,
                (
                    Effect::SessionDeregister { session_id: s },
                    Effect::SessionDeregister { session_id: s2 },
                ) => s@ == s2@,
                _ => false,
            },
{
    event_words_differ();
}

/// An event that is brought back changes the session registry exactly when it is a session event:
/// a registration registers, a heartbeat refreshes and only a deregistration removes the session.
/// Every event can be queried again, as it was.
pub proof fn restored_events_do_what_they_say(ev: MsgEvent, kind: Option<Seq<char>>, fx: Seq<Effect>)
    requires
        restored(ev, kind, fx),
    ensures
        fx.contains(Effect::Message(ev)),
        (exists|k: int| 0 <= k < fx.len() && #[trigger] fx[k] is SessionRegister) <==> ev.domain@
            == "session"@ && ev.kind@ == "register"@,
        (exists|k: int| 0 <= k < fx.len() && #[trigger] fx[k] is SessionHeartbeat) <==> ev.domain@
            == "session"@ && ev.kind@ == "heartbeat"@,
        (exists|k: int| 0 <= k < fx.len() && #[trigger] fx[k] is SessionDeregister) <==> ev.domain@
            == "session"@ && ev.kind@ == "deregister"@,
        forall|k: int|
            0 <= k < fx.len() ==> match #[trigger] fx[k] {
                Effect::SessionRegister { session_id, kind: w, realm, ts_ms } => session_id@ == ev.target@
                    && realm@ == ev.realm@ && ts_ms == ev.ts_ms && (kind matches Some(t) ==> w@ == t),
                Effect::SessionHeartbeat { session_id, ts_ms } => session_id@ == ev.target@ && ts_ms
                    == ev.ts_ms,
                Effect::SessionDeregister { session_id } => session_id@ == ev.target@,
                Effect::Message(m) => m == ev,
                _ => false,
            },
{
    event_words_differ();
    assert(fx[fx.len() - 1] == Effect::Message(ev));
    assert(fx[0] == fx[0]);
}

/// A session that is marked as closed leaves the registry; one that is marked as alive stays in it
/// with a new time; and one that is registered enters it.
pub proof fn marks_reach_the_registry(
    event_id: u64,
    session_id: &str,
    closed: bool,
    now_ms: i64,
    ev: SessionEventOp,
    kind: Option<Seq<char>>,
    fx: Seq<Effect>,
)
    requires
        call_ensures(session_mark, (event_id, session_id, closed, now_ms), ev),
        session_done(ev, kind, fx),
    ensures
        fx.len() == 2,
        closed ==> (fx[0] matches Effect::SessionDeregister { session_id: s } && s@ == session_id@),
        !closed ==> (fx[0] matches Effect::SessionHeartbeat { session_id: s, ts_ms } && s@ == session_id@
            && ts_ms == now_ms),
        fx[1] matches Effect::Message(m) && m.event_id == event_id && m.ts_ms == now_ms,
{
    event_words_differ();
}

/// A session that is registered enters the registry, in its realm and at its time.
pub proof fn registrations_reach_the_registry(
    event_id: u64,
    session_id: &str,
    kind: &str,
    realm: &str,
    now_ms: i64,
    ev: SessionEventOp,
    named: Option<Seq<char>>,
    fx: Seq<Effect>,
)
    requires
        call_ensures(session_register, (event_id, session_id, kind, realm, now_ms), ev),
        session_done(ev, named, fx),
    ensures
        fx.len() == 2,
        fx[0] matches Effect::SessionRegister { session_id: s, kind: k, realm: r, ts_ms } && s@
            == session_id@ && r@ == realm@ && ts_ms == now_ms && (named matches Some(t) ==> k@ == t),
{
    event_words_differ();
}

/// An event becomes an operation of its domain, and carries its id, its time, its kind and its
/// payload there unchanged.
pub proof fn events_carry_what_was_sent(q: EventRequest, op: Op)
    requires
        event_becomes(q, op),
        event_domain(q.domain@),
    ensures
        q.domain@ == "session"@ <==> op is SessionEvent,
        q.domain@ == "transcript"@ <==> op is TranscriptEvent,
        q.domain@ == "task"@ <==> op is TaskEvent,
        q.domain@ == "theme"@ <==> op is ThemeEvent,
        q.domain@ == "analytics"@ <==> op is AnalyticsEvent,
        q.domain@ == "msg"@ || q.domain@ == "sadhana"@ || q.domain@ == "dream"@ || q.domain@ == "ledger"@
            <==> op is MsgEvent,
        match op {
            Op::SessionEvent(x) => x.event_id == q.event_id && x.ts_ms == q.ts_ms && x.kind@ == q.kind@
                && x.payload_json@ == q.payload@ && x.session_id@ == q.entity_id@ && x.realm@ == q.realm@,
            Op::TranscriptEvent(x) => x.event_id == q.event_id && x.ts_ms == q.ts_ms && x.kind@ == q.kind@
                && x.payload_json@ == q.payload@ && x.session_id@ == q.entity_id@ && x.realm@ == q.realm@,
            Op::TaskEvent(x) => x.event_id == q.event_id && x.ts_ms == q.ts_ms && x.kind@ == q.kind@
                && x.payload_json@ == q.payload@ && x.task_id@ == q.entity_id@ && x.realm@ == q.realm@
                && x.fencing_token == q.fencing_token,
            Op::ThemeEvent(x) => x.event_id == q.event_id && x.ts_ms == q.ts_ms && x.kind@ == q.kind@
                && x.payload_json@ == q.payload@ && x.theme_id == q.fencing_token,
            Op::AnalyticsEvent(x) => x.event_id == q.event_id && x.ts_ms == q.ts_ms && x.kind@ == q.kind@
                && x.payload_json@ == q.payload@ && x.session_id@ == q.entity_id@,
            Op::MsgEvent(x) => x.event_id == q.event_id && x.ts_ms == q.ts_ms && x.kind@ == q.kind@
                && x.payload_json@ == q.payload@ && x.target@ == q.entity_id@ && x.realm@ == q.realm@
                && x.domain@ == q.domain@,
            _ => false,
        },
{
    event_words_differ();
}

/// Events of the known domains are taken and no others; those of the user model are not, though
/// they can be looked up.
pub proof fn known_domains_are_taken(q: EventRequest, domain: &str)
    ensures
        forall|r: Result<Op, FieldError>| #[trigger]
            call_ensures(event_op, (q,), r) ==> {
                let d = q.domain@;
                &&& r is Ok <==> d == "session"@ || d == "transcript"@ || d == "task"@ || d == "theme"@ || d
                    == "analytics"@ || d == "msg"@ || d == "sadhana"@ || d == "dream"@ || d == "ledger"@
                &&& d == "user_model"@ ==> r is Err
            },
        forall|r: Result<EventSource, FieldError>| #[trigger]
            call_ensures(event_source, (domain,), r) ==> {
                &&& r == Ok::<EventSource, FieldError>(EventSource::UserModel) <==> domain@
                    == "user_model"@
                &&& r == Ok::<EventSource, FieldError>(EventSource::Transcript) <==> domain@
                    == "transcript"@
                &&& r == Ok::<EventSource, FieldError>(EventSource::Messages) <==> domain@ == "msg"@
                    || domain@ == "sadhana"@ || domain@ == "dream"@ || domain@ == "ledger"@
            },
{
    event_words_differ();
}

/// A message event can be queried at once, with the payload that was sent where that is text.
pub proof fn followed_messages_can_be_queried(q: EventRequest, op: Op, fx: Seq<Effect>)
    requires
        event_becomes(q, op),
        event_domain(q.domain@),
        followed(op, fx),
    ensures
        q.domain@ == "msg"@ || q.domain@ == "sadhana"@ || q.domain@ == "dream"@ || q.domain@ == "ledger"@
            || q.domain@ == "session"@ ==> exists|k: int|
            0 <= k < fx.len() && (#[trigger] fx[k] matches Effect::Message(m) && m.event_id == q.event_id
                && m.domain@ == q.domain@ && m.kind@ == q.kind@ && m.target@ == q.entity_id@ && m.realm@
                == q.realm@ && m.ts_ms == q.ts_ms && (valid_utf8(q.payload@) ==> encode_utf8(
                m.payload_json@,
            ) == q.payload@)),
        q.domain@ == "transcript"@ ==> fx.len() == 1 && fx[0] == Effect::Organ(op),
        q.domain@ == "task"@ || q.domain@ == "theme"@ || q.domain@ == "analytics"@ ==> fx.len() == 0,
{
    broadcast use vstd::utf8::decode_utf8_encode_utf8;

    event_words_differ();
    if op is MsgEvent {
        assert(fx[0] is Message);
    }
    if op is SessionEvent {
        assert(fx[fx.len() - 1] is Message);
    }
}

/// An event has an id for its sender exactly when it was logged, and then its own; the sender is
/// told of a failure exactly when there was one.
pub proof fn senders_are_told_the_truth(outcome: Result<Emission, FieldError>, told: Told)
    requires
        call_ensures(tell_event, (&outcome,), told),
    ensures
        outcome is Err <==> told.code < 0,
        outcome is Err ==> told.event_id == 0,
        outcome is Ok && outcome->Ok_0 is Suppressed ==> told.code == 0 && told.event_id == 0,
        outcome is Ok && outcome->Ok_0 is Log ==> told.code == 0 && told.event_id
            == outcome->Ok_0->event_id,
{
}

/// An event is logged, under its id, when the organ of its domain is switched on, and suppressed
/// when that is switched off. An event of the user model, or of an unknown domain, is refused.
pub proof fn events_of_live_organs_are_logged(
    q: EventRequest,
    off: Set<Seq<char>>,
    r: Result<Emission, FieldError>,
)
    requires
        planned(q, off, r),
    ensures
        q.domain@ == "session"@ ==> r is Ok && (r->Ok_0 is Log <==> !off.contains(
            "session_registry"@,
        )),
        q.domain@ == "transcript"@ ==> r is Ok && (r->Ok_0 is Log <==> !off.contains(
            "transcript_registry"@,
        )),
        q.domain@ == "task"@ ==> r is Ok && (r->Ok_0 is Log <==> !off.contains("task_registry"@)),
        q.domain@ == "theme"@ ==> r is Ok && (r->Ok_0 is Log <==> !off.contains("theme_organ"@)),
        q.domain@ == "analytics"@ ==> r is Ok && (r->Ok_0 is Log <==> !off.contains(
            "analytics_registry"@,
        )),
        q.domain@ == "msg"@ || q.domain@ == "sadhana"@ || q.domain@ == "dream"@ || q.domain@ == "ledger"@
            ==> r is Ok && (r->Ok_0 is Log <==> !off.contains("msg_registry"@)),
        q.domain@ == "user_model"@ ==> (r matches Err(FieldError::Other(m)) && m@
            == "cf_emit_event: use cf_user_model_upsert/cf_user_model_observe for user_model events"@),
        r is Err && q.domain@ != "user_model"@ ==> (r matches Err(FieldError::Other(m)) && m@
            == "unknown domain: "@ + q.domain@),
        r matches Ok(Emission::Log { op, event_id }) ==> event_id == q.event_id,
{
    event_words_differ();
}

/// The latest event of a domain is looked up where the events of that domain are kept.
pub proof fn events_are_looked_up_where_they_are_kept(domain: &str, r: Result<EventSource, FieldError>)
    requires
        call_ensures(event_source, (domain,), r),
    ensures
        domain@ == "user_model"@ <==> r is Ok && r->Ok_0 == EventSource::UserModel,
        domain@ == "transcript"@ <==> r is Ok && r->Ok_0 == EventSource::Transcript,
        domain@ == "msg"@ || domain@ == "sadhana"@ || domain@ == "dream"@ || domain@ == "ledger"@ <==> r is Ok
            && r->Ok_0 == EventSource::Messages,
        domain@ == "session"@ || domain@ == "task"@ ==> r is Err,
{
    event_words_differ();
}

/// A payload of the user model is given out only to those who ask for its type.
pub proof fn payloads_are_asked_for_by_type(entry: UserModelEntry, kind: &str, r: Option<String>)
    requires
        call_ensures(user_model_payload, (Some(entry), kind), r),
    ensures
        r is Some <==> entry.entity_type@ == kind@,
        r is Some ==> r->0@ == entry.payload_json@,
{
}

/// The payload of a turn names its content, its role and its transcript, each under its own name.
pub proof fn turns_are_spelled_out(transcript: &str, role: &str, content: &str, r: String)
    requires
        call_ensures(turn_payload, (transcript, role, content), r),
    ensures
        r@ == "{\"content\":"@ + json_quoted(content@) + ",\"role\":"@ + json_quoted(role@)
            + ",\"transcript_id\":"@ + json_quoted(transcript@) + "}"@,
{
}

} // verus!
