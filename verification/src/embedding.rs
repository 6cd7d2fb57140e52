//! Which memories wait for an embedding, and what else is mended when a store is opened.
use crate::memory::{is_live, live, MemoryPayload, MemoryState};
use crate::order::{lists, sort_order, sorts_before, sorts_range};
use crate::seqs::{filter_keeps_order, filter_members};
use crate::table::{key_list, lists_keys};
use crate::text::{decode_or_empty, text_or_empty, views};
use crate::triplet::TripletStore;
use std::collections::{BTreeMap, BTreeSet};
use vstd::prelude::*;
use vstd::utf8::{encode_utf8, valid_utf8};

verus! {

/// Content shorter than this many bytes gets no embedding.
pub const MIN_EMBED_CHARS: usize = 20;

/// How many memories an event tape is made from at most.
pub const LEGACY_CAP: usize = 5000;

/// Why memories are queued for an embedding.
#[derive(Clone, Copy, Debug, PartialEq, Eq, Structural)]
pub enum Requeue {
    /// The embedding that the memory was written with was not loaded.
    Unloaded,
    /// The index has no embedding of the content.
    Missing,
    /// The content has an arrow, and is to be embedded with its gloss.
    Gloss,
    /// The length of embeddings has changed.
    Dimension,
}

/// An arrow stands in `bytes` at place `i`.
pub open spec fn arrow_at(bytes: Seq<u8>, i: int) -> bool {
    0 <= i && i + 3 <= bytes.len() && bytes[i] == 0xe2 && bytes[i + 1] == 0x86 && bytes[i + 2] == 0x92
}

pub open spec fn has_arrow(bytes: Seq<u8>) -> bool {
    exists|i: int| #[trigger] arrow_at(bytes, i)
}

/// The memory is queued. `indexed` says that the index has an embedding of it.
pub open spec fn due(why: Requeue, p: MemoryPayload, s: MemoryState, indexed: bool) -> bool {
    match why {
        Requeue::Unloaded => {
            &&& p.embedding@.len() == 0 && p.embedding_dim > 0 && !indexed
            &&& !s.deleted && p.content@.len() > 0
        },
        Requeue::Missing => {
            &&& p.content@.len() >= MIN_EMBED_CHARS && !indexed
            &&& !s.embed_pending && !s.deleted
        },
        Requeue::Gloss => has_arrow(p.content@) && !s.embed_pending && !s.deleted,
        Requeue::Dimension => {
            &&& p.content@.len() >= MIN_EMBED_CHARS
            &&& !s.embed_pending && !s.deleted
        },
    }
}

/// The memories that are queued.
pub open spec fn due_ids(
    why: Requeue,
    payloads: Map<u64, MemoryPayload>,
    states: Map<u64, MemoryState>,
    index: Set<u64>,
) -> Set<u64> {
    payloads.dom().filter(
        |id: u64|
            states.contains_key(id) && due(why, payloads[id], states[id], index.contains(id)),
    )
}

/// The state of a queued memory.
pub open spec fn queued(s: MemoryState) -> MemoryState {
    MemoryState { embed_pending: true, ..s }
}

/// The states after the memories `ids` were queued.
pub open spec fn all_queued(states: Map<u64, MemoryState>, ids: Set<u64>) -> Map<u64, MemoryState> {
    Map::new(
        |id: u64| states.contains_key(id),
        |id: u64|
            if ids.contains(id) {
                queued(states[id])
            } else {
                states[id]
            },
    )
}

fn arrow_in(bytes: &Vec<u8>) -> (r: bool)
    ensures
        r == has_arrow(bytes@),
{
    let n: usize = bytes.len();
    if n < 3 {
        return false;
    }
    let mut i: usize = 0;
    while i <= n - 3
        invariant
            n == bytes.len(),
            n >= 3,
            i <= n - 2,
            forall|k: int| 0 <= k < i ==> !#[trigger] arrow_at(bytes@, k),
        decreases n - i,
    {
        if bytes[i] == 0xe2 && bytes[i + 1] == 0x86 && bytes[i + 2] == 0x92 {
            assert(arrow_at(bytes@, i as int));
            return true;
        }
        i = i + 1;
    }
    false
}

fn is_due(why: Requeue, p: &MemoryPayload, s: &MemoryState, indexed: bool) -> (r: bool)
    ensures
        r == due(why, *p, *s, indexed),
{
    match why {
        Requeue::Unloaded => p.embedding.len() == 0 && p.embedding_dim > 0 && !indexed && !s.deleted
            && p.content.len() > 0,
        Requeue::Missing => p.content.len() >= MIN_EMBED_CHARS && !indexed && !s.embed_pending
            && !s.deleted,
        Requeue::Gloss => arrow_in(&p.content) && !s.embed_pending && !s.deleted,
        Requeue::Dimension => p.content.len() >= MIN_EMBED_CHARS && !s.embed_pending && !s.deleted,
    }
}

/// Marks memory `id` as waiting.
fn queue(states: &mut BTreeMap<u64, MemoryState>, id: u64)
    requires
        old(states)@.contains_key(id),
    ensures
        final(states)@ == old(states)@.insert(id, queued(old(states)@[id])),
{
    broadcast use vstd::std_specs::btree::group_btree_axioms;

    let ghost was = states@;
    match states.remove(&id) {
        Some(mut s) => {
            s.embed_pending = true;
            states.insert(id, s);
            assert(states@ =~= was.insert(id, queued(was[id])));
        },
        None => {},
    }
}

/// Queues the memories that are due, and says how many they are.
pub fn requeue(
    why: Requeue,
    payloads: &BTreeMap<u64, MemoryPayload>,
    states: &mut BTreeMap<u64, MemoryState>,
    index: &BTreeSet<u64>,
) -> (n: usize)
    ensures
        final(states)@ == all_queued(
            old(states)@,
            due_ids(why, payloads@, old(states)@, index@),
        ),
        n == due_ids(why, payloads@, old(states)@, index@).len(),
{
    broadcast use vstd::std_specs::btree::group_btree_axioms;

    let ids = key_list(payloads);
    let size: usize = ids.len();
    let ghost start = states@;
    let ghost want = due_ids(why, payloads@, start, index@);
    let ghost mut done = Set::<u64>::empty();
    let mut count: usize = 0;
    let mut i: usize = 0;
    assert(states@ =~= all_queued(start, done));
    while i < size
        invariant
            size == ids.len(),
            i <= size,
            lists_keys(ids@, payloads@),
            want == due_ids(why, payloads@, start, index@),
            done.finite(),
            count == done.len(),
            count <= i,
            forall|id: u64| #[trigger]
                done.contains(id) <==> want.contains(id) && ids@.take(i as int).contains(id),
            states@ == all_queued(start, done),
        decreases size - i,
    {
        let id: u64 = ids[i];
        proof {
            assert(payloads@.contains_key(ids@[i as int]));
            let less = ids@.take(i as int);
            let more = ids@.take(i + 1);
            assert(more =~= less.push(id));
            assert forall|x: u64| #[trigger] more.contains(x) <==> less.contains(x) || x == id by {
                if less.contains(x) {
                    let k = choose|k: int| 0 <= k < less.len() && less[k] == x;
                    assert(more[k] == x);
                }
                assert(more[i as int] == id);
            }
            assert(!less.contains(id)) by {
                if less.contains(id) {
                    let k = choose|k: int| 0 <= k < less.len() && less[k] == id;
                    assert(ids@[k] < ids@[i as int]);
                }
            }
            assert(!done.contains(id));
        }
        let indexed: bool = index.contains(&id);
        let hit: bool = match (payloads.get(&id), states.get(&id)) {
            (Some(p), Some(s)) => is_due(why, p, s, indexed),
            _ => false,
        };
        assert(hit == want.contains(id));
        if hit {
            queue(states, id);
            proof {
                done = done.insert(id);
                assert(states@ =~= all_queued(start, done));
            }
            count = count + 1;
        }
        i = i + 1;
    }
    proof {
        assert(ids@.take(size as int) =~= ids@);
        assert(done =~= want);
    }
    count
}

/// The memories `ids` that are live.
pub open spec fn live_among(ids: Seq<u64>, states: Map<u64, MemoryState>) -> Set<u64> {
    Set::new(|id: u64| ids.contains(id) && is_live(states, id))
}

/// Queues the memories whose embedding was thrown away.
pub fn requeue_purged(purged: &Vec<u64>, states: &mut BTreeMap<u64, MemoryState>)
    ensures
        final(states)@ == all_queued(old(states)@, live_among(purged@, old(states)@)),
{
    let n: usize = purged.len();
    let ghost start = states@;
    let mut i: usize = 0;
    assert(states@ =~= all_queued(start, live_among(purged@.take(0), start)));
    while i < n
        invariant
            n == purged.len(),
            i <= n,
            states@ == all_queued(start, live_among(purged@.take(i as int), start)),
        decreases n - i,
    {
        let id: u64 = purged[i];
        let ghost less = purged@.take(i as int);
        let ghost more = purged@.take(i + 1);
        proof {
            assert(more =~= less.push(id));
            assert forall|x: u64| #[trigger] more.contains(x) <==> less.contains(x) || x == id by {
                if less.contains(x) {
                    let k = choose|k: int| 0 <= k < less.len() && less[k] == x;
                    assert(more[k] == x);
                }
                assert(more[i as int] == id);
            }
        }
        if live(states, id) {
            queue(states, id);
        }
        assert(states@ =~= all_queued(start, live_among(more, start)));
        i = i + 1;
    }
    assert(purged@.take(n as int) =~= purged@);
}

/// After the missing embeddings were queued, every live memory with enough content either has an
/// embedding or waits for one, and queueing again queues nothing.
pub proof fn coverage_is_restored(
    payloads: Map<u64, MemoryPayload>,
    states: Map<u64, MemoryState>,
    index: Set<u64>,
)
    ensures
        ({
            let after = all_queued(states, due_ids(Requeue::Missing, payloads, states, index));
            &&& forall|id: u64|
                payloads.contains_key(id) && is_live(after, id) && payloads[id].content@.len()
                    >= MIN_EMBED_CHARS ==> #[trigger] index.contains(id) || after[id].embed_pending
            &&& due_ids(Requeue::Missing, payloads, after, index) == Set::<u64>::empty()
        }),
{
    let want = due_ids(Requeue::Missing, payloads, states, index);
    let after = all_queued(states, want);
    assert forall|id: u64|
        payloads.contains_key(id) && is_live(after, id) && payloads[id].content@.len() >= MIN_EMBED_CHARS
            implies #[trigger] index.contains(id) || after[id].embed_pending by {
        assert(want.contains(id) <==> due(
            Requeue::Missing,
            payloads[id],
            states[id],
            index.contains(id),
        ));
    }
    assert forall|id: u64| !due_ids(Requeue::Missing, payloads, after, index).contains(id) by {
        if payloads.contains_key(id) && states.contains_key(id) {
            assert(want.contains(id) <==> due(
                Requeue::Missing,
                payloads[id],
                states[id],
                index.contains(id),
            ));
        }
    }
    assert(due_ids(Requeue::Missing, payloads, after, index) =~= Set::<u64>::empty());
}

/// Queueing touches nothing but the mark of a waiting memory, and never wakes a deleted one.
pub proof fn queueing_only_marks(
    why: Requeue,
    payloads: Map<u64, MemoryPayload>,
    states: Map<u64, MemoryState>,
    index: Set<u64>,
    id: u64,
)
    requires
        states.contains_key(id),
    ensures
        ({
            let after = all_queued(states, due_ids(why, payloads, states, index));
            &&& after.contains_key(id)
            &&& after[id] == states[id] || after[id] == queued(states[id])
            &&& states[id].deleted ==> after[id] == states[id]
        }),
{
}

/// The graph covers every embedding, so that it is worth saving.
pub fn graph_is_complete(graph: usize, embeddings: usize) -> (r: bool)
    ensures
        r == (graph > 0 && graph == embeddings),
{
    graph > 0 && graph == embeddings
}

/// The time that belongs to a memory: when it was authored or else when it was created.
pub open spec fn true_time(p: MemoryPayload) -> i64 {
    if p.authored_at_ms != 0 {
        p.authored_at_ms
    } else {
        p.created_at_ms
    }
}

/// The entries among `ids` whose time can be mended.
pub open spec fn mendable(payloads: Map<u64, MemoryPayload>) -> spec_fn(u64) -> bool {
    |id: u64| payloads.contains_key(id) && true_time(payloads[id]) != 0
}

/// The entries of the time index that stand at time zero, with the time where they belong.
pub fn repair_temporal_entries(
    zero: &Vec<u64>,
    payloads: &BTreeMap<u64, MemoryPayload>,
) -> (r: Vec<(u64, i64)>)
    ensures
        r@ == zero@.filter(mendable(payloads@)).map_values(
            |id: u64| (id, true_time(payloads@[id])),
        ),
{
    broadcast use vstd::std_specs::btree::group_btree_axioms;

    let ghost keep = mendable(payloads@);
    let ghost mend = |id: u64| (id, true_time(payloads@[id]));
    let n: usize = zero.len();
    let mut out: Vec<(u64, i64)> = Vec::new();
    let mut i: usize = 0;
    proof {
        crate::seqs::filter_ends(zero@, keep);
        assert(zero@.take(0).filter(keep).map_values(mend) =~= Seq::<(u64, i64)>::empty());
    }
    while i < n
        invariant
            n == zero.len(),
            i <= n,
            keep == mendable(payloads@),
            mend == (|id: u64| (id, true_time(payloads@[id]))),
            out@ == zero@.take(i as int).filter(keep).map_values(mend),
        decreases n - i,
    {
        let id: u64 = zero[i];
        let ghost kept = zero@.take(i as int).filter(keep);
        proof {
            crate::seqs::filter_step(zero@, keep, i as int);
            assert(kept.push(id).map_values(mend) =~= kept.map_values(mend).push(mend(id)));
        }
        match payloads.get(&id) {
            Some(p) => {
                let ts: i64 = if p.authored_at_ms != 0 {
                    p.authored_at_ms
                } else {
                    p.created_at_ms
                };
                if ts != 0 {
                    out.push((id, ts));
                }
            },
            None => {},
        }
        i = i + 1;
    }
    out
}

/// A memory as an event on a tape.
pub struct Legacy {
    pub realm: String,
    pub at_ms: i64,
}

/// The event tape of an opened store.
pub enum Tape {
    /// The saved tape is used.
    Saved,
    /// A tape is made that knows these subjects and holds these events.
    Made { subjects: Vec<String>, events: Vec<Legacy> },
}

/// The live memories that have a payload.
pub open spec fn living(states: Map<u64, MemoryState>) -> spec_fn(u64) -> bool {
    |id: u64| is_live(states, id)
}

/// `events` are the latest of the memories `ids`, by the time when they were authored.
pub open spec fn latest_events(
    events: Seq<Legacy>,
    ids: Seq<u64>,
    payloads: Map<u64, MemoryPayload>,
) -> bool {
    let times = ids.map_values(|id: u64| payloads[id].authored_at_ms);
    exists|p: Seq<usize>|
        {
            &&& #[trigger] sorts_range(p, times, 0, times.len() as int)
            &&& events.len() == if ids.len() < LEGACY_CAP {
                ids.len() as int
            } else {
                LEGACY_CAP as int
            }
            &&& forall|i: int|
                0 <= i < events.len() ==> {
                    let id = ids[p[ids.len() - events.len() + i] as int];
                    &&& (#[trigger] events[i]).realm@ == payloads[id].realm@
                    &&& events[i].at_ms == payloads[id].authored_at_ms
                }
        }
}

/// The live memories of `payloads`, lowest id first.
pub fn live_memories(
    payloads: &BTreeMap<u64, MemoryPayload>,
    states: &BTreeMap<u64, MemoryState>,
) -> (r: Vec<u64>)
    ensures
        exists|all: Seq<u64>| #[trigger]
            lists_keys(all, payloads@) && r@ == all.filter(living(states@)),
        forall|i: int| 0 <= i < r@.len() ==> payloads@.contains_key(#[trigger] r@[i]),
{
    let all = key_list(payloads);
    let ghost keep = living(states@);
    let n: usize = all.len();
    let mut out: Vec<u64> = Vec::new();
    let mut i: usize = 0;
    proof {
        crate::seqs::filter_ends(all@, keep);
    }
    while i < n
        invariant
            n == all.len(),
            i <= n,
            lists_keys(all@, payloads@),
            keep == living(states@),
            out@ == all@.take(i as int).filter(keep),
            forall|k: int| 0 <= k < out@.len() ==> payloads@.contains_key(#[trigger] out@[k]),
        decreases n - i,
    {
        proof {
            crate::seqs::filter_step(all@, keep, i as int);
            assert(payloads@.contains_key(all@[i as int]));
        }
        if live(states, all[i]) {
            out.push(all[i]);
        }
        i = i + 1;
    }
    out
}

/// The event tape of an opened store: the saved one where it holds `saved` events, or one that is
/// made from the subjects of the facts and the latest live memories.
pub fn rebuild_event_organs(
    saved: usize,
    triplets: &TripletStore,
    payloads: &BTreeMap<u64, MemoryPayload>,
    states: &BTreeMap<u64, MemoryState>,
) -> (r: Tape)
    requires
        triplets.wf(),
    ensures
        saved > 0 ==> r is Saved,
        saved == 0 ==> (r matches Tape::Made { subjects, events } && views(
            subjects@,
        ).no_duplicates() && (forall|s: Seq<char>| #[trigger]
            views(subjects@).contains(s) <==> triplets.listed(s).len() > 0) && exists|all: Seq<u64>|
            #[trigger]
            lists_keys(all, payloads@) && latest_events(
                events@,
                all.filter(living(states@)),
                payloads@,
            )),
{
    broadcast use vstd::std_specs::btree::group_btree_axioms;

    if saved > 0 {
        return Tape::Saved;
    }
    let subjects = triplets.all_subjects();
    let ids = live_memories(payloads, states);
    let n: usize = ids.len();
    let mut times: Vec<i64> = Vec::new();
    let mut i: usize = 0;
    while i < n
        invariant
            n == ids.len(),
            i <= n,
            forall|k: int| 0 <= k < n ==> payloads@.contains_key(#[trigger] ids@[k]),
            times@.len() == i,
            forall|k: int|
                0 <= k < i ==> #[trigger] times@[k] == payloads@[ids@[k]].authored_at_ms,
        decreases n - i,
    {
        assert(payloads@.contains_key(ids@[i as int]));
        times.push(payloads.get(&ids[i]).unwrap().authored_at_ms);
        i = i + 1;
    }
    let ghost all_times = ids@.map_values(|id: u64| payloads@[id].authored_at_ms);
    assert(times@ =~= all_times);
    let p = sort_order(&times);
    let skip: usize = if n < LEGACY_CAP {
        0
    } else {
        n - LEGACY_CAP
    };
    let mut events: Vec<Legacy> = Vec::new();
    let mut k: usize = skip;
    while k < n
        invariant
            n == ids.len(),
            n == p.len(),
            skip <= k <= n,
            n == times@.len(),
            forall|j: int| 0 <= j < n ==> payloads@.contains_key(#[trigger] ids@[j]),
            sorts_range(p@, times@, 0, times@.len() as int),
            events@.len() == k - skip,
            forall|j: int|
                0 <= j < events@.len() ==> {
                    let id = ids@[p@[skip + j] as int];
                    &&& (#[trigger] events@[j]).realm@ == payloads@[id].realm@
                    &&& events@[j].at_ms == payloads@[id].authored_at_ms
                },
        decreases n - k,
    {
        let id: u64 = ids[p[k]];
        assert(payloads@.contains_key(ids@[p@[k as int] as int]));
        let q = payloads.get(&id).unwrap();
        events.push(Legacy { realm: q.realm.clone(), at_ms: q.authored_at_ms });
        k = k + 1;
    }
    assert(sorts_range(p@, all_times, 0, all_times.len() as int));
    assert(latest_events(events@, ids@, payloads@));
    Tape::Made { subjects, events }
}

/// What a similarity index is told of a memory.
pub struct IndexedText {
    pub id: u64,
    pub text: String,
    pub realm: String,
}

/// What a similarity index is rebuilt from: the live memories with their text, which is empty
/// where the content is not valid UTF-8.
pub fn index_entries(
    payloads: &BTreeMap<u64, MemoryPayload>,
    states: &BTreeMap<u64, MemoryState>,
) -> (r: Vec<IndexedText>)
    ensures
        exists|all: Seq<u64>|
            {
                &&& #[trigger] lists_keys(all, payloads@)
                &&& r@.len() == all.filter(living(states@)).len()
                &&& forall|i: int|
                    0 <= i < r@.len() ==> {
                        let id = all.filter(living(states@))[i];
                        &&& (#[trigger] r@[i]).id == id
                        &&& r@[i].text@ == text_or_empty(payloads@[id].content@)
                        &&& r@[i].realm@ == payloads@[id].realm@
                    }
            },
{
    broadcast use vstd::std_specs::btree::group_btree_axioms;

    let ids = live_memories(payloads, states);
    let n: usize = ids.len();
    let mut out: Vec<IndexedText> = Vec::new();
    let mut i: usize = 0;
    while i < n
        invariant
            n == ids.len(),
            i <= n,
            forall|j: int| 0 <= j < n ==> payloads@.contains_key(#[trigger] ids@[j]),
            out@.len() == i,
            forall|j: int|
                0 <= j < i ==> {
                    &&& (#[trigger] out@[j]).id == ids@[j]
                    &&& out@[j].text@ == text_or_empty(payloads@[ids@[j]].content@)
                    &&& out@[j].realm@ == payloads@[ids@[j]].realm@
                },
        decreases n - i,
    {
        let id: u64 = ids[i];
        assert(payloads@.contains_key(ids@[i as int]));
        let p = payloads.get(&id).unwrap();
        out.push(
            IndexedText { id, text: decode_or_empty(p.content.as_slice()), realm: p.realm.clone() },
        );
        i = i + 1;
    }
    out
}

/// A live memory is queued when its embedding was not loaded or is missing, when its content has
/// an arrow, or when the length of embeddings has changed; content that is too short is passed over.
pub proof fn memories_in_need_are_queued(
    payloads: Map<u64, MemoryPayload>,
    states: Map<u64, MemoryState>,
    index: Set<u64>,
    id: u64,
    at: int,
)
    requires
        payloads.contains_key(id),
        states.contains_key(id),
        !states[id].deleted,
        !states[id].embed_pending,
    ensures
        ({
            let p = payloads[id];
            let n = p.content@.len();
            let unloaded = all_queued(states, due_ids(Requeue::Unloaded, payloads, states, index));
            let missing = all_queued(states, due_ids(Requeue::Missing, payloads, states, index));
            let gloss = all_queued(states, due_ids(Requeue::Gloss, payloads, states, index));
            let dimension = all_queued(states, due_ids(Requeue::Dimension, payloads, states, index));
            &&& unloaded[id].embed_pending <==> n > 0 && p.embedding_dim > 0 && p.embedding@.len() == 0
                && !index.contains(id)
            &&& missing[id].embed_pending <==> n >= 20 && !index.contains(id)
            &&& dimension[id].embed_pending <==> n >= 20
            &&& 0 <= at <= n - 3 && p.content@.subrange(at, at + 3) == seq![0xe2u8, 0x86, 0x92]
                ==> gloss[id].embed_pending
            &&& n < 3 ==> !gloss[id].embed_pending
        }),
{
    let b = payloads[id].content@;
    if 0 <= at <= b.len() - 3 && b.subrange(at, at + 3) == seq![0xe2u8, 0x86, 0x92] {
        let cut = b.subrange(at, at + 3);
        assert(cut[0] == b[at] && cut[1] == b[at + 1] && cut[2] == b[at + 2]);
        assert(arrow_at(b, at));
    }
}

/// Every entry at time zero whose memory knows when it was authored, or else created, is mended to
/// that time, and nothing else is touched.
pub proof fn times_are_mended(
    zero: Vec<u64>,
    payloads: BTreeMap<u64, MemoryPayload>,
    r: Vec<(u64, i64)>,
    id: u64,
    k: int,
)
    requires
        call_ensures(repair_temporal_entries, (&zero, &payloads), r),
        zero@.contains(id),
        payloads@.contains_key(id),
    ensures
        payloads@[id].authored_at_ms != 0 ==> r@.contains((id, payloads@[id].authored_at_ms)),
        payloads@[id].authored_at_ms == 0 && payloads@[id].created_at_ms != 0 ==> r@.contains(
            (id, payloads@[id].created_at_ms),
        ),
        0 <= k < r@.len() ==> {
            let mended = payloads@[r@[k].0];
            &&& zero@.contains(r@[k].0)
            &&& payloads@.contains_key(r@[k].0)
            &&& r@[k].1 != 0
            &&& r@[k].1 == mended.authored_at_ms || (r@[k].1 == mended.created_at_ms
                && mended.authored_at_ms == 0)
        },
{
    let met = mendable(payloads@);
    let kept = zero@.filter(met);
    filter_members(zero@, met);
    if 0 <= k < r@.len() {
        assert(kept.contains(kept[k]));
        assert(r@[k] == (kept[k], true_time(payloads@[kept[k]])));
    }
    if true_time(payloads@[id]) != 0 {
        assert(met(id));
        assert(kept.contains(id));
        let i = kept.index_of(id);
        assert(r@[i] == (id, true_time(payloads@[id])));
    }
}

/// The live memories are listed, each once, by rising id.
pub proof fn every_live_memory_is_listed(
    payloads: BTreeMap<u64, MemoryPayload>,
    states: BTreeMap<u64, MemoryState>,
    r: Vec<u64>,
    id: u64,
)
    requires
        call_ensures(live_memories, (&payloads, &states), r),
    ensures
        r@.contains(id) <==> payloads@.contains_key(id) && states@.contains_key(id) && !states@[id].deleted,
        forall|i: int, j: int| 0 <= i < j < r@.len() ==> r@[i] < r@[j],
{
    let all = choose|all: Seq<u64>| #[trigger]
        lists_keys(all, payloads@) && r@ == all.filter(living(states@));
    filter_members(all, living(states@));
    filter_keeps_order(all, living(states@));
    if all.contains(id) {
        assert(payloads@.contains_key(all[all.index_of(id)]));
    }
}

/// A similarity index is told of every live memory, with its own text and realm, and of no other.
pub proof fn index_entries_cover_the_living(
    payloads: BTreeMap<u64, MemoryPayload>,
    states: BTreeMap<u64, MemoryState>,
    r: Vec<IndexedText>,
    id: u64,
    k: int,
)
    requires
        call_ensures(index_entries, (&payloads, &states), r),
    ensures
        payloads@.contains_key(id) && states@.contains_key(id) && !states@[id].deleted ==> exists|i: int|
            0 <= i < r@.len() && (#[trigger] r@[i]).id == id,
        0 <= k < r@.len() ==> {
            let told = payloads@[r@[k].id];
            &&& payloads@.contains_key(r@[k].id)
            &&& states@.contains_key(r@[k].id) && !states@[r@[k].id].deleted
            &&& r@[k].realm@ == told.realm@
            &&& valid_utf8(told.content@) ==> encode_utf8(r@[k].text@) == told.content@
            &&& !valid_utf8(told.content@) ==> r@[k].text@.len() == 0
        },
{
    broadcast use vstd::utf8::encode_utf8_decode_utf8, vstd::utf8::decode_utf8_encode_utf8;

    let all = choose|all: Seq<u64>|
        {
            &&& #[trigger] lists_keys(all, payloads@)
            &&& r@.len() == all.filter(living(states@)).len()
            &&& forall|i: int|
                0 <= i < r@.len() ==> {
                    let id = all.filter(living(states@))[i];
                    &&& (#[trigger] r@[i]).id == id
                    &&& r@[i].text@ == text_or_empty(payloads@[id].content@)
                    &&& r@[i].realm@ == payloads@[id].realm@
                }
        };
    let kept = all.filter(living(states@));
    filter_members(all, living(states@));
    if 0 <= k < r@.len() {
        assert(kept.contains(kept[k]));
        assert(r@[k].id == kept[k]);
        assert(payloads@.contains_key(all[all.index_of(kept[k])]));
    }
    if payloads@.contains_key(id) && states@.contains_key(id) && !states@[id].deleted {
        assert(all.contains(id));
        assert(living(states@)(id));
        assert(kept.contains(id));
        let i = kept.index_of(id);
        assert(r@[i].id == id);
    }
}

/// An event tape holds the memories in the order of their time, and none that is older than a
/// memory which it leaves out. It leaves none out while it has room.
pub proof fn tapes_hold_the_latest(
    events: Seq<Legacy>,
    ids: Seq<u64>,
    payloads: Map<u64, MemoryPayload>,
    i: int,
    j: int,
)
    requires
        latest_events(events, ids, payloads),
        0 <= i < j < events.len(),
    ensures
        events[i].at_ms <= events[j].at_ms,
        exists|m: int|
            0 <= m < ids.len() && #[trigger] payloads[ids[m]].authored_at_ms == events[i].at_ms
                && payloads[ids[m]].realm@ == events[i].realm@,
{
    let times = ids.map_values(|id: u64| payloads[id].authored_at_ms);
    let p = choose|p: Seq<usize>|
        {
            &&& #[trigger] sorts_range(p, times, 0, times.len() as int)
            &&& events.len() == if ids.len() < LEGACY_CAP {
                ids.len() as int
            } else {
                LEGACY_CAP as int
            }
            &&& forall|i: int|
                0 <= i < events.len() ==> {
                    let id = ids[p[ids.len() - events.len() + i] as int];
                    &&& (#[trigger] events[i]).realm@ == payloads[id].realm@
                    &&& events[i].at_ms == payloads[id].authored_at_ms
                }
        };
    let off = ids.len() - events.len();
    let a = p[off + i] as int;
    let b = p[off + j] as int;
    assert(sorts_before(times, a, b));
    assert(times[a] == events[i].at_ms);
    assert(times[b] == events[j].at_ms);
    assert(payloads[ids[a]].authored_at_ms == events[i].at_ms);
}

/// No memory that an event tape leaves out is later than one that it holds: every memory is at
/// most as late as the first event, or stands on the tape.
pub proof fn only_older_memories_are_left_out(
    events: Seq<Legacy>,
    ids: Seq<u64>,
    payloads: Map<u64, MemoryPayload>,
    m: int,
)
    requires
        latest_events(events, ids, payloads),
        0 <= m < ids.len(),
    ensures
        0 < events.len() <= 5000,
        ids.len() <= 5000 ==> events.len() == ids.len(),
        payloads[ids[m]].authored_at_ms <= events[0].at_ms || exists|i: int|
            0 <= i < events.len() && (#[trigger] events[i]).at_ms == payloads[ids[m]].authored_at_ms
                && events[i].realm@ == payloads[ids[m]].realm@,
{
    let times = ids.map_values(|id: u64| payloads[id].authored_at_ms);
    let p = choose|p: Seq<usize>|
        {
            &&& #[trigger] sorts_range(p, times, 0, times.len() as int)
            &&& events.len() == if ids.len() < LEGACY_CAP {
                ids.len() as int
            } else {
                LEGACY_CAP as int
            }
            &&& forall|i: int|
                0 <= i < events.len() ==> {
                    let id = ids[p[ids.len() - events.len() + i] as int];
                    &&& (#[trigger] events[i]).realm@ == payloads[id].realm@
                    &&& events[i].at_ms == payloads[id].authored_at_ms
                }
        };
    let off = ids.len() - events.len();
    assert(lists(p, m));
    let k = choose|k: int| 0 <= k < p.len() && #[trigger] p[k] == m;
    let first = p[off] as int;
    assert(events[0].at_ms == times[first]);
    if k < off {
        assert(sorts_before(times, p[k] as int, first));
        assert(times[m] <= times[first]);
    } else {
        assert(events[k - off].at_ms == times[m]);
    }
}

/// Of a store whose tape was not saved, the tape knows every subject of its facts.
pub proof fn tapes_know_every_subject(
    saved: usize,
    triplets: TripletStore,
    payloads: BTreeMap<u64, MemoryPayload>,
    states: BTreeMap<u64, MemoryState>,
    r: Tape,
    subject: Seq<char>,
)
    requires
        call_ensures(rebuild_event_organs, (saved, &triplets, &payloads, &states), r),
    ensures
        r is Saved <==> saved > 0,
        r matches Tape::Made { subjects, events } ==> (views(subjects@).contains(subject)
            <==> triplets.listed(subject).len() > 0),
{
}

} // verus!
