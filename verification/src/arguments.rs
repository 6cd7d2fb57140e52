//! Reading the arguments that callers hand over as JSON, and the lists they get back.
use crate::apply::MsgEvent;
use crate::decimal::{i64_text, numeral, signed_numeral, u64_text};
use crate::json::{
    json_mapping, json_pairs, json_quoted, json_respelled, json_texts, mapping_of, pairs_of, quoted,
    renaming, respelled, texts_of,
};
use crate::ops::SkillUploadOp;
use crate::table::distinct_keys;
use crate::text::{lossy, lossy_text, views, views_push};
use vstd::prelude::*;
use vstd::string::*;
use vstd::utf8::*;

verus! {

/// The texts of a list, of which nothing is left when it cannot be read.
pub open spec fn or_no_texts(given: Option<Seq<Seq<char>>>) -> Seq<Seq<char>> {
    match given {
        Some(texts) => texts,
        None => Seq::empty(),
    }
}

/// The given list, or else an empty one.
pub fn texts_or_none(given: Option<Vec<String>>) -> (r: Vec<String>)
    ensures
        views(r@) == or_no_texts(
            match given {
                Some(v) => Some(views(v@)),
                None => None,
            },
        ),
{
    match given {
        Some(v) => v,
        None => {
            let r: Vec<String> = Vec::new();
            assert(views(r@) =~= Seq::<Seq<char>>::empty());
            r
        },
    }
}

/// The texts of a JSON array of strings. Anything else reads as no texts.
pub fn read_texts(bytes: &[u8]) -> (r: Vec<String>)
    ensures
        views(r@) == or_no_texts(json_texts(bytes@)),
{
    texts_or_none(texts_of(bytes))
}

/// The patterns by which memories are pruned: a JSON array of strings, in which bytes that are not
/// UTF-8 count as replacement characters.
pub fn read_patterns(bytes: &[u8]) -> (r: Vec<String>)
    ensures
        views(r@) == or_no_texts(json_texts(encode_utf8(lossy_text(bytes@)))),
{
    let text = lossy(bytes);
    read_texts(text.as_str().as_bytes())
}

/// The choices that a decision rejected, each a tool's number and an outcome.
pub open spec fn or_no_pairs(given: Option<Seq<(u64, u8)>>) -> Seq<(u64, u8)> {
    match given {
        Some(pairs) => pairs,
        None => Seq::empty(),
    }
}

/// The given choices, or else none.
pub fn pairs_or_none(given: Option<Vec<(u64, u8)>>) -> (r: Vec<(u64, u8)>)
    ensures
        r@ == or_no_pairs(
            match given {
                Some(v) => Some(v@),
                None => None,
            },
        ),
{
    match given {
        Some(v) => v,
        None => Vec::new(),
    }
}

/// The choices that a decision rejected: a JSON array of pairs, or no choices where there is no
/// such array.
pub fn read_rejected(bytes: Option<&[u8]>) -> (r: Vec<(u64, u8)>)
    ensures
        r@ == (match bytes {
            Some(b) => or_no_pairs(json_pairs(encode_utf8(lossy_text(b@)))),
            None => Seq::empty(),
        }),
{
    match bytes {
        Some(b) => {
            let text = lossy(b);
            pairs_or_none(pairs_of(text.as_str().as_bytes()))
        },
        None => Vec::new(),
    }
}

/// The new names of realms: a JSON object of strings. Nothing else can be read as one.
pub fn read_mapping(text: &str) -> (r: Option<Vec<(String, String)>>)
    ensures
        r is Some <==> json_mapping(encode_utf8(text@)) is Some,
        r matches Some(v) ==> distinct_keys(v@) && renaming(v@) == json_mapping(
            encode_utf8(text@),
        )->0,
{
    mapping_of(text.as_bytes())
}

/// The upload of a skill version. Without a list of tags, or with one that cannot be read, it has
/// none.
pub fn skill_upload(
    skill_id: &str,
    content: &str,
    uploaded_by: &str,
    tags: Option<&str>,
    ts_ms: i64,
) -> (r: SkillUploadOp)
    ensures
        r.skill_id@ == skill_id@,
        r.content@ == content@,
        r.uploaded_by@ == uploaded_by@,
        r.ts_ms == ts_ms,
        views(r.tags@) == (match tags {
            Some(t) => or_no_texts(json_texts(encode_utf8(t@))),
            None => Seq::empty(),
        }),
{
    let tags: Vec<String> = match tags {
        Some(t) => read_texts(t.as_bytes()),
        None => texts_or_none(None),
    };
    SkillUploadOp {
        skill_id: skill_id.to_owned(),
        content: content.to_owned(),
        uploaded_by: uploaded_by.to_owned(),
        tags,
        ts_ms,
    }
}

/// Texts with commas in between.
pub open spec fn joined(texts: Seq<Seq<char>>) -> Seq<char>
    decreases texts.len(),
{
    if texts.len() == 0 {
        Seq::empty()
    } else if texts.len() == 1 {
        texts[0]
    } else {
        joined(texts.drop_last()) + ","@ + texts.last()
    }
}

/// A JSON array of items that are written out already.
pub fn array_text(items: &Vec<String>) -> (r: String)
    ensures
        r@ == "["@ + joined(views(items@)) + "]"@,
{
    let mut inner = String::new();
    let mut i: usize = 0;
    assert(views(items@).take(0) =~= Seq::empty());
    assert(inner@ =~= Seq::empty());
    while i < items.len()
        invariant
            i <= items@.len(),
            inner@ == joined(views(items@).take(i as int)),
        decreases items@.len() - i,
    {
        let ghost front = inner@;
        proof {
            let next = views(items@).take(i + 1);
            assert(next.drop_last() =~= views(items@).take(i as int));
            assert(next.last() == items@[i as int]@);
        }
        if i > 0 {
            inner.append(",");
        } else {
            assert(inner@ + items@[0]@ =~= items@[0]@);
        }
        inner.append(items[i].as_str());
        i = i + 1;
    }
    assert(views(items@).take(items@.len() as int) =~= views(items@));
    let mut r = "[".to_owned();
    r.append(inner.as_str());
    r.append("]");
    r
}

/// An event's payload as it is shown: the JSON value, or `null` where the payload is not JSON.
pub open spec fn shown_payload(read: Option<Seq<char>>) -> Seq<char> {
    match read {
        Some(value) => value,
        None => "null"@,
    }
}

/// An event as it is shown.
pub open spec fn shown_event(ev: MsgEvent, payload: Seq<char>) -> Seq<char> {
    "{\"event_id\":"@ + numeral(ev.event_id as int) + ",\"kind\":"@ + json_quoted(ev.kind@)
        + ",\"payload\":"@ + payload + ",\"realm\":"@ + json_quoted(ev.realm@) + ",\"target\":"@
        + json_quoted(ev.target@) + ",\"ts_ms\":"@ + signed_numeral(ev.ts_ms as int) + "}"@
}

/// Writes out an event whose payload reads as `payload`.
pub fn event_with_payload(ev: &MsgEvent, payload: Option<String>) -> (r: String)
    ensures
        r@ == shown_event(
            *ev,
            shown_payload(
                match payload {
                    Some(p) => Some(p@),
                    None => None,
                },
            ),
        ),
{
    let mut r = "{\"event_id\":".to_owned();
    r.append(u64_text(ev.event_id).as_str());
    r.append(",\"kind\":");
    r.append(quoted(ev.kind.as_str()).as_str());
    r.append(",\"payload\":");
    match payload {
        Some(p) => r.append(p.as_str()),
        None => r.append("null"),
    }
    r.append(",\"realm\":");
    r.append(quoted(ev.realm.as_str()).as_str());
    r.append(",\"target\":");
    r.append(quoted(ev.target.as_str()).as_str());
    r.append(",\"ts_ms\":");
    r.append(i64_text(ev.ts_ms).as_str());
    r.append("}");
    r
}

/// Writes out an event.
pub fn event_text(ev: &MsgEvent) -> (r: String)
    ensures
        r@ == shown_event(*ev, shown_payload(json_respelled(ev.payload_json@))),
{
    event_with_payload(ev, respelled(ev.payload_json.as_str()))
}

pub open spec fn shown_events(events: Seq<MsgEvent>) -> Seq<Seq<char>> {
    events.map_values(
        |ev: MsgEvent| shown_event(ev, shown_payload(json_respelled(ev.payload_json@))),
    )
}

/// Writes out a list of events.
pub fn events_text(events: &Vec<MsgEvent>) -> (r: String)
    ensures
        r@ == "["@ + joined(shown_events(events@)) + "]"@,
{
    let mut items: Vec<String> = Vec::new();
    let mut i: usize = 0;
    while i < events.len()
        invariant
            i <= events@.len(),
            views(items@) == shown_events(events@).take(i as int),
        decreases events@.len() - i,
    {
        let item = event_text(&events[i]);
        proof {
            views_push(items@, item);
            assert(shown_events(events@).take(i + 1) =~= shown_events(events@).take(i as int).push(
                item@,
            ));
        }
        items.push(item);
        i = i + 1;
    }
    assert(shown_events(events@).take(events@.len() as int) =~= shown_events(events@));
    array_text(&items)
}

/// Writes out the one event that was asked for; an empty object when there is none.
pub fn one_event_text(ev: Option<&MsgEvent>) -> (r: String)
    ensures
        r@ == (match ev {
            Some(e) => shown_event(*e, shown_payload(json_respelled(e.payload_json@))),
            None => "{}"@,
        }),
{
    match ev {
        Some(e) => event_text(e),
        None => "{}".to_owned(),
    }
}

/// A memory that a prune found.
pub struct PruneMatch {
    pub id: u64,
    pub kind: String,
    pub content: String,
}

pub open spec fn shown_match(m: PruneMatch) -> Seq<char> {
    "{\"content\":"@ + json_quoted(m.content@) + ",\"id\":"@ + numeral(m.id as int)
        + ",\"kind\":"@ + json_quoted(m.kind@) + "}"@
}

pub fn match_text(m: &PruneMatch) -> (r: String)
    ensures
        r@ == shown_match(*m),
{
    let mut r = "{\"content\":".to_owned();
    r.append(quoted(m.content.as_str()).as_str());
    r.append(",\"id\":");
    r.append(u64_text(m.id).as_str());
    r.append(",\"kind\":");
    r.append(quoted(m.kind.as_str()).as_str());
    r.append("}");
    r
}

pub open spec fn shown_matches(found: Seq<PruneMatch>) -> Seq<Seq<char>> {
    found.map_values(|m: PruneMatch| shown_match(m))
}

/// Writes out the memories that a prune found.
pub fn matches_text(found: &Vec<PruneMatch>) -> (r: String)
    ensures
        r@ == "["@ + joined(shown_matches(found@)) + "]"@,
{
    let mut items: Vec<String> = Vec::new();
    let mut i: usize = 0;
    while i < found.len()
        invariant
            i <= found@.len(),
            views(items@) == shown_matches(found@).take(i as int),
        decreases found@.len() - i,
    {
        let item = match_text(&found[i]);
        proof {
            views_push(items@, item);
            assert(shown_matches(found@).take(i + 1) =~= shown_matches(found@).take(i as int).push(
                item@,
            ));
        }
        items.push(item);
        i = i + 1;
    }
    assert(shown_matches(found@).take(found@.len() as int) =~= shown_matches(found@));
    array_text(&items)
}

/// A list that can be read gives its texts or pairs as they are, and one that cannot gives none.
pub proof fn unreadable_lists_are_empty(
    texts: Option<Vec<String>>,
    t: Vec<String>,
    pairs: Option<Vec<(u64, u8)>>,
    p: Vec<(u64, u8)>,
)
    requires
        call_ensures(texts_or_none, (texts,), t),
        call_ensures(pairs_or_none, (pairs,), p),
    ensures
        texts is Some ==> views(t@) == views(texts->0@),
        texts is None ==> t@.len() == 0,
        pairs is Some ==> p@ == pairs->0@,
        pairs is None ==> p@.len() == 0,
{
    assert(views(t@).len() == t@.len());
}

/// Items of an array stand in their order, with a comma before each but the first.
pub proof fn items_are_joined_by_commas(texts: Seq<Seq<char>>, t: Seq<char>)
    ensures
        joined(Seq::empty()).len() == 0,
        joined(seq![t]) == t,
        texts.len() > 0 ==> joined(texts.push(t)) == joined(texts) + ","@ + t,
{
    assert(texts.push(t).drop_last() =~= texts);
}

/// An event is written out with each of its fields under its own name, and with `null` for a payload
/// that cannot be read.
pub proof fn events_are_written_out(ev: MsgEvent, payload: Option<String>, r: String)
    requires
        call_ensures(event_with_payload, (&ev, payload), r),
    ensures
        ({
            let shown = if payload is Some {
                payload->0@
            } else {
                "null"@
            };
            r@ == "{\"event_id\":"@ + numeral(ev.event_id as int) + ",\"kind\":"@ + json_quoted(ev.kind@)
                + ",\"payload\":"@ + shown + ",\"realm\":"@ + json_quoted(ev.realm@) + ",\"target\":"@
                + json_quoted(ev.target@) + ",\"ts_ms\":"@ + signed_numeral(ev.ts_ms as int) + "}"@
        }),
{
}

/// A memory that a prune found is written out with its content, its id and its kind, each under its
/// own name.
pub proof fn matches_are_written_out(m: PruneMatch, r: String)
    requires
        call_ensures(match_text, (&m,), r),
    ensures
        r@ == "{\"content\":"@ + json_quoted(m.content@) + ",\"id\":"@ + numeral(m.id as int)
            + ",\"kind\":"@ + json_quoted(m.kind@) + "}"@,
{
}

} // verus!
