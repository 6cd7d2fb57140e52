//! Changing memories that are already stored.
use crate::apply::{Effect, Model, Projections};
use crate::decimal::{numeral, u64_text};
use crate::error::FieldError;
use crate::events::task_event;
use crate::members::{joined, members_of, parted};
use crate::memory::{live, MemoryPayload, MemoryState};
use crate::ops::{TaskEventOp, UpdateMemoryContentOp};
use crate::seqs::filter_members;
use crate::table::{key_list, lists_keys};
use crate::text::{
    blank, decode_or_empty, is_blank, lossy, lossy_text, text_or_empty, trimming_takes_off_white_space,
    whitespace,
};
use crate::weight::{finite, is_finite, magnitude, SIGN_BIT};
use std::collections::BTreeMap;
use vstd::prelude::*;
use vstd::string::*;

verus! {

/// The memory moved to another realm.
pub open spec fn moved(before: Model, after: Model, id: u64, realm: Seq<char>) -> bool {
    let p = before.payloads[id];
    let q = after.payloads[id];
    &&& q == (MemoryPayload { realm: q.realm, ..p })
    &&& q.realm@ == realm
    &&& after == (Model {
        payloads: before.payloads.insert(id, q),
        realms: joined(parted(before.realms, p.realm@, id), realm, id),
        ..before
    })
}

/// Puts a memory into a realm and takes it from the one it was in.
pub fn set_realm(ctx: &mut Projections, id: u64, realm: &str) -> (r: Result<(), FieldError>)
    requires
        old(ctx).wf(),
    ensures
        final(ctx).wf(),
        r is Ok <==> old(ctx)@.payloads.contains_key(id),
        r is Ok ==> moved(old(ctx)@, final(ctx)@, id, realm@),
        r matches Err(e) ==> final(ctx)@ == old(ctx)@ && (e matches FieldError::Other(text) && text@
            == "memory not found"@),
{
    broadcast use vstd::std_specs::btree::group_btree_axioms;

    let ghost before = ctx@;
    match ctx.payloads.remove(&id) {
        Some(mut p) => {
            let old_realm = p.realm.clone();
            p.realm = realm.to_owned();
            ctx.payloads.insert(id, p);
            ctx.realms.part(old_realm.as_str(), id);
            ctx.realms.join(realm, id);
            assert(ctx@.payloads =~= before.payloads.insert(id, ctx@.payloads[id]));
            Ok(())
        },
        None => {
            assert(ctx@.payloads =~= before.payloads);
            Err(FieldError::Other("memory not found".to_owned()))
        },
    }
}

/// A memory that moved stands in its new realm and, unless that is the same one, no longer in the
/// old. No other memory's realm changes.
pub proof fn moving_changes_one_membership(
    before: Model,
    after: Model,
    id: u64,
    realm: Seq<char>,
    name: Seq<char>,
    other: u64,
)
    requires
        before.payloads.contains_key(id),
        moved(before, after, id, realm),
    ensures
        members_of(after.realms, realm).contains(id),
        before.payloads[id].realm@ != realm ==> !members_of(
            after.realms,
            before.payloads[id].realm@,
        ).contains(id),
        other != id ==> (members_of(after.realms, name).contains(other) <==> members_of(
            before.realms,
            name,
        ).contains(other)),
{
}

/// Gives a memory another kind. Which memories are listed under a kind does not change.
pub fn set_kind(ctx: &mut Projections, id: u64, kind: &str) -> (r: Result<(), FieldError>)
    requires
        old(ctx).wf(),
    ensures
        final(ctx).wf(),
        r is Ok <==> old(ctx)@.payloads.contains_key(id),
        r is Ok ==> {
            let q = final(ctx)@.payloads[id];
            &&& q == (MemoryPayload { kind: q.kind, ..old(ctx)@.payloads[id] })
            &&& q.kind@ == kind@
            &&& final(ctx)@ == (Model { payloads: old(ctx)@.payloads.insert(id, q), ..old(ctx)@ })
        },
        r matches Err(e) ==> final(ctx)@ == old(ctx)@ && (e matches FieldError::Other(text) && text@
            == "memory not found"@),
{
    broadcast use vstd::std_specs::btree::group_btree_axioms;

    let ghost before = ctx@;
    match ctx.payloads.remove(&id) {
        Some(mut p) => {
            p.kind = kind.to_owned();
            ctx.payloads.insert(id, p);
            assert(ctx@.payloads =~= before.payloads.insert(id, ctx@.payloads[id]));
            Ok(())
        },
        None => {
            assert(ctx@.payloads =~= before.payloads);
            Err(FieldError::Other("memory not found".to_owned()))
        },
    }
}

/// What is said of an embedding of the wrong length.
pub open spec fn length_fault(len: int, dim: int) -> Seq<char> {
    "embedding length "@ + numeral(len) + " != EMBED_DIM "@ + numeral(dim)
}

/// Whether new content may be written to a memory: an embedding that comes with it has `dim`
/// components, and the memory exists.
pub fn check_revision(payloads: &BTreeMap<u64, MemoryPayload>, op: &UpdateMemoryContentOp, dim: usize) -> (r:
    Result<bool, FieldError>)
    ensures
        r is Err <==> op.embedding@.len() > 0 && op.embedding@.len() != dim,
        r matches Err(e) ==> (e matches FieldError::Other(text) && text@ == length_fault(
            op.embedding@.len() as int,
            dim as int,
        )),
        r matches Ok(known) ==> known == payloads@.contains_key(op.memory_id),
{
    broadcast use vstd::std_specs::btree::group_btree_axioms;

    let len: usize = op.embedding.len();
    if len > 0 && len != dim {
        let mut text = "embedding length ".to_owned();
        text.append(u64_text(len as u64).as_str());
        text.append(" != EMBED_DIM ");
        text.append(u64_text(dim as u64).as_str());
        return Err(FieldError::Other(text));
    }
    Ok(payloads.contains_key(&op.memory_id))
}

/// What remains to be done once new content is in place: the indexes to update, and the text and
/// the realm under which the memory's spans are linked again.
pub struct Revision {
    pub fx: Vec<Effect>,
    pub text: String,
    pub realm: String,
}

/// New content is in place.
pub open spec fn revised(before: Model, after: Model, op: UpdateMemoryContentOp, r: Revision) -> bool {
    let id = op.memory_id;
    let embedded = op.embedding@.len() > 0;
    let q = after.payloads[id];
    &&& before.payloads.contains_key(id) ==> {
        &&& q == (MemoryPayload { content: op.content, embedding: q.embedding, ..before.payloads[id] })
        &&& q.embedding@ == if embedded {
            Seq::<u32>::empty()
        } else {
            before.payloads[id].embedding@
        }
        &&& r.realm@ == q.realm@
        &&& after == (Model { payloads: before.payloads.insert(id, q), ..before })
    }
    &&& !before.payloads.contains_key(id) ==> after == before && r.realm@.len() == 0
    &&& r.text@ == lossy_text(op.content@)
    &&& r.fx@.len() == if embedded {
        2
    } else {
        1nat
    }
    &&& embedded ==> (r.fx@[0] matches Effect::SemanticUpsert { memory_id, embedding, realm } && memory_id
        == id && embedding == op.embedding && realm@ == r.realm@)
    &&& r.fx@.last() matches Effect::KeywordIndex { memory_id, text } && memory_id == id && text@
        == r.text@
}

/// Writes new content to a memory.
pub fn revise(ctx: &mut Projections, op: UpdateMemoryContentOp) -> (r: Revision)
    requires
        old(ctx).wf(),
    ensures
        final(ctx).wf(),
        revised(old(ctx)@, final(ctx)@, op, r),
{
    broadcast use vstd::std_specs::btree::group_btree_axioms;

    let ghost before = ctx@;
    let UpdateMemoryContentOp { memory_id: id, content, embedding, op_ts_ms: _ } = op;
    let text = lossy(content.as_slice());
    let embedded: bool = embedding.len() > 0;
    let mut realm: String = String::new();
    let mut fx: Vec<Effect> = Vec::new();
    if let Some(mut payload) = ctx.payloads.remove(&id) {
        payload.content = content;
        if embedded {
            payload.embedding = Vec::new();
        }
        realm = payload.realm.clone();
        ctx.payloads.insert(id, payload);
        assert(ctx@.payloads =~= before.payloads.insert(id, ctx@.payloads[id]));
    } else {
        assert(ctx@.payloads =~= before.payloads);
    }
    if embedded {
        fx.push(Effect::SemanticUpsert { memory_id: id, embedding, realm: realm.clone() });
    }
    fx.push(Effect::KeywordIndex { memory_id: id, text: text.clone() });
    Revision { fx, text, realm }
}

/// A memory whose metadata is given out: it has a payload, and a state that is not deleted.
pub fn has_metadata(ctx: &Projections, id: u64) -> (r: bool)
    ensures
        r == (ctx@.payloads.contains_key(id) && ctx@.states.contains_key(id)
            && !ctx@.states[id].deleted),
{
    broadcast use vstd::std_specs::btree::group_btree_axioms;

    ctx.payloads.contains_key(&id) && live(&ctx.states, id)
}

/// The bit pattern of one thousand.
pub const GREATEST_AFFECT: u32 = 0x447A_0000;

/// A number that no affect has.
pub open spec fn wild(bits: u32) -> bool {
    !finite(bits) || magnitude(bits) > GREATEST_AFFECT
}

fn is_wild(bits: u32) -> (r: bool)
    ensures
        r == wild(bits),
{
    if !is_finite(bits) {
        return true;
    }
    if bits >= SIGN_BIT {
        bits - SIGN_BIT > GREATEST_AFFECT
    } else {
        bits > GREATEST_AFFECT
    }
}

/// A memory that is not deleted and either says nothing or has an affect that cannot be.
pub open spec fn corrupt(payload: MemoryPayload, states: Map<u64, MemoryState>, id: u64) -> bool {
    &&& states.contains_key(id) ==> !states[id].deleted
    &&& blank(text_or_empty(payload.content@)) || (states.contains_key(id) && (wild(
        states[id].affect_valence,
    ) || wild(states[id].affect_arousal)))
}

fn is_corrupt(payload: &MemoryPayload, states: &BTreeMap<u64, MemoryState>, id: u64) -> (r: bool)
    ensures
        r == corrupt(*payload, states@, id),
{
    broadcast use vstd::std_specs::btree::group_btree_axioms;

    let text = decode_or_empty(payload.content.as_slice());
    let says_nothing: bool = is_blank(text.as_str());
    match states.get(&id) {
        Some(s) => !s.deleted && (says_nothing || is_wild(s.affect_valence) || is_wild(s.affect_arousal)),
        None => says_nothing,
    }
}

/// `ids` lists the corrupt memories, by ascending id.
pub open spec fn lists_corrupt(
    ids: Seq<u64>,
    payloads: Map<u64, MemoryPayload>,
    states: Map<u64, MemoryState>,
) -> bool {
    &&& forall|i: int, j: int| 0 <= i < j < ids.len() ==> ids[i] < ids[j]
    &&& forall|id: u64|
        #![trigger ids.contains(id)]
        ids.contains(id) <==> payloads.contains_key(id) && corrupt(payloads[id], states, id)
}

/// The memories to purge.
pub fn corrupt_memories(ctx: &Projections) -> (r: Vec<u64>)
    ensures
        lists_corrupt(r@, ctx@.payloads, ctx@.states),
{
    broadcast use vstd::std_specs::btree::group_btree_axioms;

    let ids = key_list(&ctx.payloads);
    let mut r: Vec<u64> = Vec::new();
    let mut i: usize = 0;
    while i < ids.len()
        invariant
            i <= ids@.len(),
            lists_keys(ids@, ctx@.payloads),
            forall|a: int, b: int| 0 <= a < b < r@.len() ==> r@[a] < r@[b],
            forall|a: int| 0 <= a < r@.len() ==> exists|k: int| 0 <= k < i && ids@[k] == #[trigger] r@[a],
            forall|a: int|
                0 <= a < r@.len() ==> corrupt(ctx@.payloads[#[trigger] r@[a]], ctx@.states, r@[a]),
            forall|k: int|
                0 <= k < i && corrupt(ctx@.payloads[ids@[k]], ctx@.states, ids@[k]) ==> r@.contains(
                    #[trigger] ids@[k],
                ),
        decreases ids@.len() - i,
    {
        let id: u64 = ids[i];
        assert(ids@.contains(id));
        match ctx.payloads.get(&id) {
            Some(p) => {
                if is_corrupt(p, &ctx.states, id) {
                    let ghost was = r@;
                    r.push(id);
                    proof {
                        assert(r@.last() == id);
                        assert forall|x: u64| was.contains(x) implies r@.contains(x) by {
                            let a = was.index_of(x);
                            assert(r@[a] == x);
                        }
                        assert forall|a: int| 0 <= a < r@.len() implies exists|k: int|
                            0 <= k < i + 1 && ids@[k] == #[trigger] r@[a] by {
                            if a < was.len() {
                                assert(r@[a] == was[a]);
                            }
                        }
                    }
                }
            },
            None => {},
        }
        i = i + 1;
    }
    proof {
        assert forall|id: u64| #![trigger r@.contains(id)]
            r@.contains(id) <==> ctx@.payloads.contains_key(id) && corrupt(
                ctx@.payloads[id],
                ctx@.states,
                id,
            ) by {
            if r@.contains(id) {
                let a = r@.index_of(id);
                assert(r@[a] == id);
                assert(ids@.contains(id));
            }
            if ctx@.payloads.contains_key(id) && corrupt(ctx@.payloads[id], ctx@.states, id) {
                assert(ids@.contains(id));
                let k = ids@.index_of(id);
                assert(ids@[k] == id);
            }
        }
    }
    r
}

/// An index entry without a memory.
pub open spec fn orphan(payloads: Map<u64, MemoryPayload>) -> spec_fn(u64) -> bool {
    |id: u64| !payloads.contains_key(id)
}

/// The entries of the semantic index that no memory stands behind, in the index's order.
pub fn orphaned_entries(indexed: &Vec<u64>, payloads: &BTreeMap<u64, MemoryPayload>) -> (r: Vec<u64>)
    ensures
        r@ == indexed@.filter(orphan(payloads@)),
{
    broadcast use vstd::std_specs::btree::group_btree_axioms;

    let ghost pred = orphan(payloads@);
    let mut r: Vec<u64> = Vec::new();
    let mut i: usize = 0;
    while i < indexed.len()
        invariant
            i <= indexed@.len(),
            pred == orphan(payloads@),
            r@ == indexed@.take(i as int).filter(pred),
        decreases indexed@.len() - i,
    {
        proof {
            crate::seqs::filter_step(indexed@, pred, i as int);
        }
        if !payloads.contains_key(&indexed[i]) {
            r.push(indexed[i]);
        }
        i = i + 1;
    }
    proof {
        crate::seqs::filter_ends(indexed@, pred);
    }
    r
}

/// The operation that replaces the payload of a task. A task of no type is one that is not known.
pub fn task_payload_update(
    event_id: u64,
    task_type: &str,
    task_id: &str,
    payload: &str,
    now_ms: i64,
) -> (r: Result<TaskEventOp, FieldError>)
    ensures
        r is Ok <==> task_type@.len() > 0,
        r matches Err(e) ==> (e matches FieldError::Other(text) && text@ == "task not found"@),
        r matches Ok(op) ==> {
            &&& op.event_id == event_id && op.ts_ms == now_ms && op.fencing_token == 0
            &&& op.task_type@ == task_type@ && op.task_id@ == task_id@
            &&& op.kind@ == "update_payload"@ && op.realm@.len() == 0
            &&& op.payload_json@ == payload.spec_bytes()
        },
{
    if task_type.unicode_len() == 0 {
        return Err(FieldError::Other("task not found".to_owned()));
    }
    Ok(task_event(event_id, task_type, task_id, "update_payload", payload, now_ms, 0))
}

/// New content replaces the old and nothing else of the memory, except that an embedding which
/// comes with it makes the stored one void. Other memories are left alone. The text index is told
/// the new text, and the semantic index the new embedding when there is one.
pub proof fn revisions_replace_content(
    before: Model,
    after: Model,
    op: UpdateMemoryContentOp,
    r: Revision,
    other: u64,
)
    requires
        revised(before, after, op, r),
        before.payloads.contains_key(op.memory_id),
    ensures
        ({
            let p = before.payloads[op.memory_id];
            let q = after.payloads[op.memory_id];
            &&& after.payloads.contains_key(op.memory_id)
            &&& q.content@ == op.content@
            &&& q.kind@ == p.kind@ && q.realm@ == p.realm@
            &&& q.created_at_ms == p.created_at_ms && q.authored_at_ms == p.authored_at_ms
            &&& op.embedding@.len() > 0 ==> q.embedding@.len() == 0
            &&& op.embedding@.len() == 0 ==> q.embedding@ == p.embedding@
            &&& other != op.memory_id ==> (after.payloads.contains_key(other)
                <==> before.payloads.contains_key(other)) && (before.payloads.contains_key(other)
                ==> after.payloads[other] == before.payloads[other])
            &&& after.states == before.states
            &&& r.fx@.last() matches Effect::KeywordIndex { memory_id, text } && memory_id == op.memory_id
                && text@ == lossy_text(op.content@)
            &&& r.realm@ == p.realm@
            &&& r.fx@.len() == 1 <==> op.embedding@.len() == 0
            &&& op.embedding@.len() > 0 ==> (r.fx@[0] matches Effect::SemanticUpsert {
                memory_id,
                embedding,
                realm,
            } && memory_id == op.memory_id && embedding@ == op.embedding@ && realm@ == p.realm@)
        }),
{
}

/// Content for a memory that is not there changes nothing, and is still told to the text index.
pub proof fn unknown_memories_are_not_made(before: Model, after: Model, op: UpdateMemoryContentOp, r: Revision)
    requires
        revised(before, after, op, r),
        !before.payloads.contains_key(op.memory_id),
    ensures
        after == before,
        r.realm@.len() == 0,
        r.fx@.len() > 0,
{
}

/// A memory moves with all it has: nothing but its realm changes, and no other memory.
pub proof fn moving_changes_one_payload(before: Model, after: Model, id: u64, realm: Seq<char>, other: u64)
    requires
        before.payloads.contains_key(id),
        moved(before, after, id, realm),
    ensures
        after.payloads[id].realm@ == realm,
        after.payloads[id].content@ == before.payloads[id].content@,
        after.payloads[id].kind@ == before.payloads[id].kind@,
        after.states == before.states,
        after.kinds == before.kinds,
        other != id ==> (after.payloads.contains_key(other) <==> before.payloads.contains_key(other)) && (
        before.payloads.contains_key(other) ==> after.payloads[other] == before.payloads[other]),
{
}

/// Content without an embedding is always taken; an embedding has to have the right length.
pub proof fn lengths_are_checked(
    payloads: BTreeMap<u64, MemoryPayload>,
    op: UpdateMemoryContentOp,
    dim: usize,
    r: Result<bool, FieldError>,
)
    requires
        call_ensures(check_revision, (&payloads, &op, dim), r),
    ensures
        op.embedding@.len() == 0 ==> r is Ok,
        op.embedding@.len() == dim ==> r is Ok,
        op.embedding@.len() > 0 && op.embedding@.len() != dim ==> (r matches Err(FieldError::Other(m))
            && m@ == "embedding length "@ + numeral(op.embedding@.len() as int) + " != EMBED_DIM "@
            + numeral(dim as int)),
        r is Ok ==> r->Ok_0 == payloads@.contains_key(op.memory_id),
{
}

/// A memory is purged when it says nothing or when its valence or arousal is no number, or beyond
/// a thousand either way. A deleted memory, and one with text and a sound affect, stays.
pub proof fn only_corrupt_memories_are_purged(ctx: Projections, r: Vec<u64>, id: u64)
    requires
        call_ensures(corrupt_memories, (&ctx,), r),
        ctx@.payloads.contains_key(id),
        ctx@.states.contains_key(id),
    ensures
        ({
            let text = text_or_empty(ctx@.payloads[id].content@);
            let s = ctx@.states[id];
            let silent = forall|i: int| 0 <= i < text.len() ==> whitespace(#[trigger] text[i]);
            let wild = (s.affect_valence & 0x7fff_ffff) > 0x447A_0000 || (s.affect_arousal & 0x7fff_ffff)
                > 0x447A_0000;
            r@.contains(id) <==> !s.deleted && (silent || wild)
        }),
        forall|i: int, j: int| 0 <= i < j < r@.len() ==> r@[i] < r@[j],
{
    let s = ctx@.states[id];
    let (v, a) = (s.affect_valence, s.affect_arousal);
    let text = text_or_empty(ctx@.payloads[id].content@);
    let cut = trimming_takes_off_white_space(text);
    signs_are_set_aside(v);
    signs_are_set_aside(a);
    assert(blank(text) <==> forall|i: int| 0 <= i < text.len() ==> whitespace(#[trigger] text[i]));
    assert(wild(v) <==> (v & 0x7fff_ffff) > 0x447A_0000);
    assert(wild(a) <==> (a & 0x7fff_ffff) > 0x447A_0000);
}

proof fn signs_are_set_aside(bits: u32)
    ensures
        magnitude(bits) == bits & 0x7fff_ffff,
{
    assert(bits & 0x7fff_ffff == if bits >= 0x8000_0000u32 {
        (bits - 0x8000_0000u32) as u32
    } else {
        bits
    }) by (bit_vector);
}

/// An index entry is an orphan exactly when there is no memory for it.
pub proof fn orphans_have_no_memory(indexed: Vec<u64>, payloads: BTreeMap<u64, MemoryPayload>, r: Vec<u64>, id: u64)
    requires
        call_ensures(orphaned_entries, (&indexed, &payloads), r),
    ensures
        r@.contains(id) <==> indexed@.contains(id) && !payloads@.contains_key(id),
{
    filter_members(indexed@, orphan(payloads@));
}

/// A memory without a state is purged when it says nothing.
pub proof fn silent_memories_without_a_state_are_purged(ctx: Projections, r: Vec<u64>, id: u64)
    requires
        call_ensures(corrupt_memories, (&ctx,), r),
        ctx@.payloads.contains_key(id),
        !ctx@.states.contains_key(id),
    ensures
        ({
            let text = text_or_empty(ctx@.payloads[id].content@);
            r@.contains(id) <==> forall|i: int| 0 <= i < text.len() ==> whitespace(#[trigger] text[i])
        }),
{
    let text = text_or_empty(ctx@.payloads[id].content@);
    let cut = trimming_takes_off_white_space(text);
    assert(blank(text) <==> forall|i: int| 0 <= i < text.len() ==> whitespace(#[trigger] text[i]));
}

} // verus!
