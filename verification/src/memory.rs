//! Memories: their payloads, their states, and the groups they belong to.
use crate::members::{joined, members_of, Members};
use crate::ops::{ArtifactRef, ChunkHash, PutPayloadOp, StateDeltaOp};
use crate::order::{sort_keeps_items, sorted_by, sorts_before, stable_sort, stable_sort_of};
use crate::table::{key_list, lists_keys};
use crate::weight::FIRST_NON_FINITE;
use std::collections::BTreeMap;
use vstd::prelude::*;

verus! {

/// How many access times a memory remembers.
pub const MAX_ACCESS_TIMES: usize = 16;

/// What a memory says.
pub struct MemoryPayload {
    pub kind: String,
    pub realm: String,
    pub content: Vec<u8>,
    /// Bit patterns; empty where the semantic index holds the embedding.
    pub embedding: Vec<u32>,
    /// Length of the embedding that the memory was written with.
    pub embedding_dim: u32,
    pub artifact_refs: Vec<ArtifactRef>,
    pub version: u64,
    pub chunk_hash: ChunkHash,
    pub created_at_ms: i64,
    pub authored_at_ms: i64,
}

/// The circumstances of one retrieval.
pub struct RetrievalContext {
    pub centroid_q: Vec<i8>,
    pub scale: u32,
    pub context_hash: u64,
    pub ts_ms: i64,
}

/// How a memory has fared. Real-valued quantities are bit patterns.
pub struct MemoryState {
    pub current_version: u64,
    pub current_chunk_hash: ChunkHash,
    pub created_at_ms: i64,
    pub strength: u32,
    pub confidence: u32,
    pub decay_rate: u32,
    pub affect_valence: u32,
    pub affect_arousal: u32,
    pub access_count: u32,
    pub last_accessed_ms: i64,
    pub last_strengthened_ms: i64,
    /// Time of the latest explicit state change.
    pub last_state_op_ts_ms: i64,
    pub access_timestamps: Vec<i64>,
    pub retrieval_history: Vec<RetrievalContext>,
    pub tier: u8,
    pub status: u8,
    pub pinned: bool,
    pub deleted: bool,
    /// Waiting for an embedding.
    pub embed_pending: bool,
}

/// Bit patterns that a new memory starts with.
#[derive(Clone, Copy, Debug)]
pub struct StateDefaults {
    pub strength: u32,
    pub confidence: u32,
    pub decay_rate: u32,
}

impl MemoryState {
    /// The state of a memory that was just written.
    pub fn new(defaults: &StateDefaults, chunk_hash: ChunkHash, version: u64, created_at_ms: i64) -> (r:
        Self)
        ensures
            r.current_version == version,
            r.current_chunk_hash == chunk_hash,
            r.created_at_ms == created_at_ms,
            r.fresh(*defaults),
    {
        MemoryState {
            current_version: version,
            current_chunk_hash: chunk_hash,
            created_at_ms,
            strength: defaults.strength,
            confidence: defaults.confidence,
            decay_rate: defaults.decay_rate,
            affect_valence: 0,
            affect_arousal: 0,
            access_count: 0,
            last_accessed_ms: 0,
            last_strengthened_ms: 0,
            last_state_op_ts_ms: 0,
            access_timestamps: Vec::new(),
            retrieval_history: Vec::new(),
            tier: 0,
            status: 0,
            pinned: false,
            deleted: false,
            embed_pending: false,
        }
    }

    /// Nothing has happened to the memory yet.
    pub open spec fn fresh(&self, defaults: StateDefaults) -> bool {
        &&& self.strength == defaults.strength
        &&& self.confidence == defaults.confidence
        &&& self.decay_rate == defaults.decay_rate
        &&& self.affect_valence == 0 && self.affect_arousal == 0
        &&& self.access_count == 0 && self.last_accessed_ms == 0 && self.last_strengthened_ms == 0
        &&& self.last_state_op_ts_ms == 0
        &&& self.access_timestamps@ == Seq::<i64>::empty()
        &&& self.retrieval_history@ == Seq::<RetrievalContext>::empty()
        &&& self.tier == 0 && self.status == 0
        &&& !self.pinned && !self.deleted && !self.embed_pending
    }
}

/// A rate that is not above zero counts as zero.
pub open spec fn rate_floor(bits: u32) -> u32 {
    if 0 < bits <= FIRST_NON_FINITE {
        bits
    } else {
        0
    }
}

pub fn floor_rate(bits: u32) -> (r: u32)
    ensures
        r == rate_floor(bits),
{
    if 0 < bits && bits <= FIRST_NON_FINITE {
        bits
    } else {
        0
    }
}

/// The access may set the decay rate: it is no older than the latest access and the latest
/// explicit change.
pub open spec fn access_is_current(s: MemoryState, op_ts_ms: i64) -> bool {
    op_ts_ms >= s.last_accessed_ms && op_ts_ms >= s.last_state_op_ts_ms
}

/// The last `n` items of `s`.
pub open spec fn last_items(s: Seq<i64>, n: int) -> Seq<i64> {
    if s.len() > n {
        s.subrange(s.len() - n, s.len() as int)
    } else {
        s
    }
}

/// `times` is what one more access makes of the remembered times: rising, the latest kept.
pub open spec fn times_after(times: Seq<i64>, before: Seq<i64>, ts_ms: i64) -> bool {
    exists|all: Seq<i64>| #[trigger]
        stable_sort_of(all, before.push(ts_ms)) && times == last_items(all, MAX_ACCESS_TIMES as int)
}

/// `after` is what an access makes of `before`.
pub open spec fn accessed(after: MemoryState, before: MemoryState, delta: StateDeltaOp) -> bool {
    &&& after.access_count == if before.access_count < u32::MAX {
        (before.access_count + 1) as u32
    } else {
        u32::MAX
    }
    &&& after.decay_rate == if access_is_current(before, delta.op_ts_ms)
        && delta.decay_rate is Some {
        rate_floor(delta.decay_rate->0)
    } else {
        before.decay_rate
    }
    &&& after.last_accessed_ms == if before.last_accessed_ms < delta.op_ts_ms {
        delta.op_ts_ms
    } else {
        before.last_accessed_ms
    }
    &&& times_after(after.access_timestamps@, before.access_timestamps@, delta.op_ts_ms)
    &&& after == (MemoryState {
        access_count: after.access_count,
        decay_rate: after.decay_rate,
        last_accessed_ms: after.last_accessed_ms,
        access_timestamps: after.access_timestamps,
        ..before
    })
}

/// Counts an access. Accesses add up; they never move the time of the latest access back and
/// never advance the time of the latest explicit change.
pub fn apply_access_delta(state: &mut MemoryState, delta: &StateDeltaOp)
    ensures
        accessed(*final(state), *old(state), *delta),
{
    let ghost before = *state;
    state.access_count = state.access_count.saturating_add(1);
    if delta.op_ts_ms >= state.last_accessed_ms && delta.op_ts_ms >= state.last_state_op_ts_ms {
        match delta.decay_rate {
            Some(rate) => {
                state.decay_rate = floor_rate(rate);
            },
            None => {},
        }
    }
    if state.last_accessed_ms < delta.op_ts_ms {
        state.last_accessed_ms = delta.op_ts_ms;
    }
    let mut times: Vec<i64> = Vec::new();
    core::mem::swap(&mut times, &mut state.access_timestamps);
    times.push(delta.op_ts_ms);
    assert(times@ == before.access_timestamps@.push(delta.op_ts_ms));
    let mut sorted = stable_sort(times);
    let ghost all = sorted@;
    if sorted.len() > MAX_ACCESS_TIMES {
        let start: usize = sorted.len() - MAX_ACCESS_TIMES;
        let tail = sorted.split_off(start);
        assert(tail@ =~= last_items(all, MAX_ACCESS_TIMES as int));
        state.access_timestamps = tail;
    } else {
        state.access_timestamps = sorted;
    }
}

/// The remembered access times are in rising order and at most `MAX_ACCESS_TIMES`.
pub proof fn access_times_bounded(times: Seq<i64>, before: Seq<i64>, ts_ms: i64)
    requires
        times_after(times, before, ts_ms),
    ensures
        times.len() <= MAX_ACCESS_TIMES,
        forall|i: int, j: int| 0 <= i < j < times.len() ==> times[i] <= times[j],
{
    let all = choose|all: Seq<i64>| #[trigger]
        stable_sort_of(all, before.push(ts_ms)) && times == last_items(all, MAX_ACCESS_TIMES as int);
    sorted_is_rising(all, before.push(ts_ms));
}

pub open spec fn rising(s: Seq<i64>) -> bool {
    forall|i: int, j: int| 0 <= i < j < s.len() ==> s[i] <= s[j]
}

proof fn sorted_is_rising(all: Seq<i64>, v: Seq<i64>)
    requires
        stable_sort_of(all, v),
    ensures
        rising(all),
        all.len() == v.len(),
        all.to_multiset() == v.to_multiset(),
{
    sort_keeps_items(all, v);
    let p = choose|p: Seq<usize>| #[trigger] sorted_by(all, v, p);
    assert forall|i: int, j: int| 0 <= i < j < all.len() implies all[i] <= all[j] by {
        assert(sorts_before(v, p[i] as int, p[j] as int));
        assert(all[i] == v[p[i] as int]);
        assert(all[j] == v[p[j] as int]);
    }
}

/// Times that rise are determined by which times they are.
proof fn rising_is_unique(x: Seq<i64>, y: Seq<i64>)
    requires
        rising(x),
        rising(y),
        x.to_multiset() == y.to_multiset(),
    ensures
        x == y,
{
    let leq = |a: i64, b: i64| a <= b;
    assert(vstd::relations::sorted_by(x, leq));
    assert(vstd::relations::sorted_by(y, leq));
    vstd::seq_lib::lemma_sorted_unique(x, y, leq);
}

/// All of `v` in rising order.
proof fn rising_order_of(v: Seq<i64>) -> (r: Seq<i64>)
    ensures
        rising(r),
        r.to_multiset() == v.to_multiset(),
        r.len() == v.len(),
{
    broadcast use vstd::seq_lib::group_to_multiset_ensures;

    let leq = |x: i64, y: i64| x <= y;
    v.lemma_sort_by_ensures(leq);
    let r = v.sort_by(leq);
    assert forall|i: int, j: int| 0 <= i < j < r.len() implies r[i] <= r[j] by {
        assert(leq(r[i], r[j]));
    }
    assert(r.len() == r.to_multiset().len());
    assert(v.len() == v.to_multiset().len());
    r
}

/// Two accesses leave the latest times among all that there were.
proof fn latest_of_all(kept: Seq<i64>, start: Seq<i64>, a: i64, b: i64, between: Seq<i64>, u: Seq<i64>)
    requires
        times_after(between, start, a),
        times_after(kept, between, b),
        rising(u),
        u.to_multiset() == start.push(a).push(b).to_multiset(),
    ensures
        kept == last_items(u, MAX_ACCESS_TIMES as int),
{
    broadcast use vstd::seq_lib::group_to_multiset_ensures;

    let n = MAX_ACCESS_TIMES as int;
    let s = choose|all: Seq<i64>| #[trigger]
        stable_sort_of(all, start.push(a)) && between == last_items(all, n);
    let t = choose|all: Seq<i64>| #[trigger]
        stable_sort_of(all, between.push(b)) && kept == last_items(all, n);
    sorted_is_rising(s, start.push(a));
    sorted_is_rising(t, between.push(b));
    let gone = if s.len() > n {
        s.take(s.len() - n)
    } else {
        Seq::empty()
    };
    assert(s =~= gone + between);
    vstd::seq_lib::lemma_multiset_commutative(gone, between);
    assert(u.to_multiset() =~= gone.to_multiset().add(between.to_multiset()).insert(b));
    assert(t.to_multiset() =~= between.to_multiset().insert(b));
    if gone.len() == 0 || gone.last() <= b {
        let w = gone + t;
        vstd::seq_lib::lemma_multiset_commutative(gone, t);
        assert(w.to_multiset() =~= u.to_multiset());
        assert forall|i: int, j: int| 0 <= i < j < w.len() implies w[i] <= w[j] by {
            if i < gone.len() && j >= gone.len() {
                let x = t[j - gone.len()];
                assert(t.contains(x));
                assert(t.to_multiset().count(x) > 0);
                assert(between.push(b).contains(x));
                let k = choose|k: int| 0 <= k < between.push(b).len() && between.push(b)[k] == x;
                assert(s[i] <= s[gone.len() - 1]);
                if k < between.len() {
                    assert(s[gone.len() + k] == between[k]);
                    assert(s[i] <= s[gone.len() + k]);
                }
            } else if j < gone.len() {
                assert(s[i] <= s[j]);
            }
        }
        rising_is_unique(w, u);
        assert(last_items(w, n) =~= last_items(t, n));
    } else {
        let low = rising_order_of(gone.push(b));
        let w = low + between;
        vstd::seq_lib::lemma_multiset_commutative(low, between);
        assert(w.to_multiset() =~= u.to_multiset());
        assert forall|i: int, j: int| 0 <= i < j < w.len() implies w[i] <= w[j] by {
            if i < low.len() && j >= low.len() {
                let x = low[i];
                assert(low.contains(x));
                assert(low.to_multiset().count(x) > 0);
                assert(gone.push(b).contains(x));
                let k = choose|k: int| 0 <= k < gone.push(b).len() && gone.push(b)[k] == x;
                let m = gone.len() + (j - low.len());
                assert(s[m] == w[j]);
                assert(s[gone.len() - 1] <= s[m]);
                if k < gone.len() {
                    assert(s[k] <= s[m]);
                }
            } else if i >= low.len() {
                assert(s[gone.len() + (i - low.len())] <= s[gone.len() + (j - low.len())]);
            }
        }
        rising_is_unique(w, u);
        let v = seq![b] + between;
        vstd::seq_lib::lemma_multiset_commutative(seq![b], between);
        assert(seq![b] =~= Seq::<i64>::empty().push(b));
        assert(v.to_multiset() =~= t.to_multiset());
        assert forall|i: int, j: int| 0 <= i < j < v.len() implies v[i] <= v[j] by {
            assert(s[gone.len() + j - 1] == v[j]);
            if i == 0 {
                assert(s[gone.len() - 1] <= s[gone.len() + j - 1]);
            } else {
                assert(s[gone.len() + i - 1] <= s[gone.len() + j - 1]);
            }
        }
        rising_is_unique(v, t);
        assert(last_items(v, n) =~= between);
        assert(last_items(w, n) =~= between);
    }
}

/// Two accesses leave the same state in either order, except that the decay rate depends on the
/// order where one of them sets it.
pub proof fn accesses_commute(
    start: MemoryState,
    a: StateDeltaOp,
    b: StateDeltaOp,
    after_a: MemoryState,
    after_ab: MemoryState,
    after_b: MemoryState,
    after_ba: MemoryState,
)
    requires
        accessed(after_a, start, a),
        accessed(after_ab, after_a, b),
        accessed(after_b, start, b),
        accessed(after_ba, after_b, a),
    ensures
        after_ab.access_count == after_ba.access_count,
        after_ab.last_accessed_ms == after_ba.last_accessed_ms,
        after_ab.last_accessed_ms >= start.last_accessed_ms,
        after_ab.access_timestamps@ == after_ba.access_timestamps@,
        a.decay_rate is None && b.decay_rate is None ==> after_ab.decay_rate == start.decay_rate
            && after_ba.decay_rate == start.decay_rate,
        after_ab == (MemoryState {
            access_count: after_ab.access_count,
            decay_rate: after_ab.decay_rate,
            last_accessed_ms: after_ab.last_accessed_ms,
            access_timestamps: after_ab.access_timestamps,
            ..start
        }),
        after_ba == (MemoryState {
            access_count: after_ba.access_count,
            decay_rate: after_ba.decay_rate,
            last_accessed_ms: after_ba.last_accessed_ms,
            access_timestamps: after_ba.access_timestamps,
            ..start
        }),
{
    broadcast use vstd::seq_lib::group_to_multiset_ensures;

    let times = start.access_timestamps@;
    let (ta, tb) = (a.op_ts_ms, b.op_ts_ms);
    let u = rising_order_of(times.push(ta).push(tb));
    assert(times.push(ta).push(tb).to_multiset() =~= times.push(tb).push(ta).to_multiset());
    latest_of_all(after_ab.access_timestamps@, times, ta, tb, after_a.access_timestamps@, u);
    latest_of_all(after_ba.access_timestamps@, times, tb, ta, after_b.access_timestamps@, u);
}

/// The memory has a state and is not deleted.
pub open spec fn is_live(states: Map<u64, MemoryState>, id: u64) -> bool {
    states.contains_key(id) && !states[id].deleted
}

pub fn live(states: &BTreeMap<u64, MemoryState>, id: u64) -> (r: bool)
    ensures
        r == is_live(states@, id),
{
    broadcast use vstd::std_specs::btree::group_btree_axioms;

    match states.get(&id) {
        Some(s) => !s.deleted,
        None => false,
    }
}

/// The payloads that a written memory gets: the embedding goes to the semantic index.
pub open spec fn stored_payload(after: MemoryPayload, put: PutPayloadOp) -> bool {
    &&& after.kind == put.kind
    &&& after.realm == put.realm
    &&& after.content == put.content
    &&& after.embedding@ == Seq::<u32>::empty()
    &&& after.embedding_dim == put.embedding@.len() as u32
    &&& after.artifact_refs == put.artifact_refs
    &&& after.version == put.version
    &&& after.chunk_hash == put.chunk_hash
    &&& after.created_at_ms == put.created_at_ms
    &&& after.authored_at_ms == put.authored_at_ms
}

/// `groups` has, under each name, the live memories that `name_of` gives that name.
pub open spec fn groups_live(
    groups: Map<Seq<char>, Set<u64>>,
    payloads: Map<u64, MemoryPayload>,
    states: Map<u64, MemoryState>,
    name_of: spec_fn(MemoryPayload) -> Seq<char>,
) -> bool {
    &&& forall|name: Seq<char>, id: u64| #[trigger]
        members_of(groups, name).contains(id) <==> payloads.contains_key(id) && is_live(states, id)
            && name_of(payloads[id]) == name
    &&& forall|name: Seq<char>| #[trigger]
        groups.contains_key(name) ==> exists|id: u64| #[trigger] groups[name].contains(id)
}

/// `groups` gathers the first `n` of the memories `ids`.
spec fn gathers(
    groups: Map<Seq<char>, Set<u64>>,
    ids: Seq<u64>,
    n: int,
    payloads: Map<u64, MemoryPayload>,
    states: Map<u64, MemoryState>,
    name_of: spec_fn(MemoryPayload) -> Seq<char>,
) -> bool {
    &&& forall|name: Seq<char>, id: u64| #[trigger]
        members_of(groups, name).contains(id) <==> payloads.contains_key(id) && is_live(states, id)
            && name_of(payloads[id]) == name && ids.take(n).contains(id)
    &&& forall|name: Seq<char>| #[trigger]
        groups.contains_key(name) ==> exists|id: u64| #[trigger] groups[name].contains(id)
}

proof fn gathers_step(
    groups: Map<Seq<char>, Set<u64>>,
    ids: Seq<u64>,
    n: int,
    payloads: Map<u64, MemoryPayload>,
    states: Map<u64, MemoryState>,
    name_of: spec_fn(MemoryPayload) -> Seq<char>,
)
    requires
        0 <= n < ids.len(),
        payloads.contains_key(ids[n]),
        gathers(groups, ids, n, payloads, states, name_of),
    ensures
        gathers(
            if is_live(states, ids[n]) {
                joined(groups, name_of(payloads[ids[n]]), ids[n])
            } else {
                groups
            },
            ids,
            n + 1,
            payloads,
            states,
            name_of,
        ),
{
    let more = ids.take(n + 1);
    let less = ids.take(n);
    let it = ids[n];
    assert(more =~= less.push(it));
    assert forall|id: u64| #[trigger] more.contains(id) <==> less.contains(id) || id == it by {
        if less.contains(id) {
            let k = choose|k: int| 0 <= k < less.len() && less[k] == id;
            assert(more[k] == id);
        }
        assert(more[n] == it);
    }
    let after = if is_live(states, it) {
        joined(groups, name_of(payloads[it]), it)
    } else {
        groups
    };
    let own = name_of(payloads[it]);
    assert forall|name: Seq<char>, id: u64| #[trigger]
        members_of(after, name).contains(id) <==> payloads.contains_key(id) && is_live(states, id)
            && name_of(payloads[id]) == name && more.contains(id) by {
        assert(members_of(groups, name).contains(id) <==> payloads.contains_key(id) && is_live(
            states,
            id,
        ) && name_of(payloads[id]) == name && less.contains(id));
    }
    assert forall|name: Seq<char>| #[trigger] after.contains_key(name) implies exists|id: u64| #[trigger]
        after[name].contains(id) by {
        if is_live(states, it) && name == own {
            assert(after[name].contains(it));
        } else {
            assert(groups.contains_key(name));
        }
    }
}

proof fn gathers_all(
    groups: Map<Seq<char>, Set<u64>>,
    ids: Seq<u64>,
    payloads: Map<u64, MemoryPayload>,
    states: Map<u64, MemoryState>,
    name_of: spec_fn(MemoryPayload) -> Seq<char>,
)
    requires
        lists_keys(ids, payloads),
        gathers(groups, ids, ids.len() as int, payloads, states, name_of),
    ensures
        groups_live(groups, payloads, states, name_of),
{
    assert(ids.take(ids.len() as int) =~= ids);
    assert forall|name: Seq<char>, id: u64| #[trigger]
        members_of(groups, name).contains(id) <==> payloads.contains_key(id) && is_live(states, id)
            && name_of(payloads[id]) == name by {
        assert(payloads.contains_key(id) ==> ids.contains(id));
    }
}

/// The live memories of each realm.
pub fn build_realm_members(
    payloads: &BTreeMap<u64, MemoryPayload>,
    states: &BTreeMap<u64, MemoryState>,
) -> (r: Members)
    ensures
        r.wf(),
        groups_live(r@, payloads@, states@, |p: MemoryPayload| p.realm@),
{
    broadcast use vstd::std_specs::btree::group_btree_axioms;

    let ids = key_list(payloads);
    let ghost name_of = |p: MemoryPayload| p.realm@;
    let mut out = Members::new();
    let n: usize = ids.len();
    let mut i: usize = 0;
    assert(ids@.take(0) =~= Seq::<u64>::empty());
    while i < n
        invariant
            n == ids.len(),
            i <= n,
            name_of == (|p: MemoryPayload| p.realm@),
            lists_keys(ids@, payloads@),
            out.wf(),
            gathers(out@, ids@, i as int, payloads@, states@, name_of),
        decreases n - i,
    {
        let id: u64 = ids[i];
        proof {
            assert(payloads@.contains_key(ids@[i as int]));
            gathers_step(out@, ids@, i as int, payloads@, states@, name_of);
        }
        if live(states, id) {
            match payloads.get(&id) {
                Some(p) => {
                    out.join(p.realm.as_str(), id);
                },
                None => {},
            }
        }
        i = i + 1;
    }
    proof {
        gathers_all(out@, ids@, payloads@, states@, name_of);
    }
    out
}

/// The live memories of each kind.
pub fn build_kind_members(
    payloads: &BTreeMap<u64, MemoryPayload>,
    states: &BTreeMap<u64, MemoryState>,
) -> (r: Members)
    ensures
        r.wf(),
        groups_live(r@, payloads@, states@, |p: MemoryPayload| p.kind@),
{
    broadcast use vstd::std_specs::btree::group_btree_axioms;

    let ids = key_list(payloads);
    let ghost name_of = |p: MemoryPayload| p.kind@;
    let mut out = Members::new();
    let n: usize = ids.len();
    let mut i: usize = 0;
    assert(ids@.take(0) =~= Seq::<u64>::empty());
    while i < n
        invariant
            n == ids.len(),
            i <= n,
            name_of == (|p: MemoryPayload| p.kind@),
            lists_keys(ids@, payloads@),
            out.wf(),
            gathers(out@, ids@, i as int, payloads@, states@, name_of),
        decreases n - i,
    {
        let id: u64 = ids[i];
        proof {
            assert(payloads@.contains_key(ids@[i as int]));
            gathers_step(out@, ids@, i as int, payloads@, states@, name_of);
        }
        if live(states, id) {
            match payloads.get(&id) {
                Some(p) => {
                    out.join(p.kind.as_str(), id);
                },
                None => {},
            }
        }
        i = i + 1;
    }
    proof {
        gathers_all(out@, ids@, payloads@, states@, name_of);
    }
    out
}

/// An access counts one more, up to the end of the counter's range, and moves the time of the latest
/// access forward only. The decay rate follows an access that is no older than the latest access
/// and the latest explicit change, a rate that is not above zero counting as zero; nothing else changes.
pub proof fn an_access_counts(after: MemoryState, before: MemoryState, delta: StateDeltaOp)
    requires
        accessed(after, before, delta),
    ensures
        before.access_count < u32::MAX ==> after.access_count == before.access_count + 1,
        before.access_count == u32::MAX ==> after.access_count == u32::MAX,
        after.last_accessed_ms >= before.last_accessed_ms && after.last_accessed_ms >= delta.op_ts_ms,
        after.last_accessed_ms == before.last_accessed_ms || after.last_accessed_ms == delta.op_ts_ms,
        after.last_state_op_ts_ms == before.last_state_op_ts_ms,
        after.strength == before.strength && after.confidence == before.confidence && after.deleted
            == before.deleted && after.pinned == before.pinned && after.tier == before.tier
            && after.retrieval_history == before.retrieval_history,
        delta.decay_rate is None ==> after.decay_rate == before.decay_rate,
        delta.op_ts_ms < before.last_accessed_ms || delta.op_ts_ms < before.last_state_op_ts_ms
            ==> after.decay_rate == before.decay_rate,
        delta.decay_rate is Some && delta.op_ts_ms >= before.last_accessed_ms && delta.op_ts_ms
            >= before.last_state_op_ts_ms && 0 < delta.decay_rate->0 <= 0x7f80_0000 ==> after.decay_rate
            == delta.decay_rate->0,
        delta.decay_rate is Some && delta.op_ts_ms >= before.last_accessed_ms && delta.op_ts_ms
            >= before.last_state_op_ts_ms && (delta.decay_rate->0 == 0 || delta.decay_rate->0 > 0x7f80_0000)
            ==> after.decay_rate == 0,
        after == (MemoryState {
            access_count: after.access_count,
            decay_rate: after.decay_rate,
            last_accessed_ms: after.last_accessed_ms,
            access_timestamps: after.access_timestamps,
            ..before
        }),
{
}

/// An access time is forgotten only when sixteen later ones are remembered, and no time is made up.
pub proof fn latest_times_are_remembered(times: Seq<i64>, before: Seq<i64>, ts_ms: i64)
    requires
        times_after(times, before, ts_ms),
    ensures
        forall|t: i64| #[trigger]
            before.push(ts_ms).contains(t) && !times.contains(t) ==> times.len() == 16 && forall|i: int|
                0 <= i < times.len() ==> t <= #[trigger] times[i],
        forall|i: int| 0 <= i < times.len() ==> before.push(ts_ms).contains(#[trigger] times[i]),
        before.len() < 16 ==> times.len() == before.len() + 1,
        before.len() >= 16 ==> times.len() == 16,
{
    broadcast use vstd::seq_lib::group_to_multiset_ensures;

    let all = choose|all: Seq<i64>| #[trigger]
        stable_sort_of(all, before.push(ts_ms)) && times == last_items(all, MAX_ACCESS_TIMES as int);
    sorted_is_rising(all, before.push(ts_ms));
    let gone = all.len() - times.len();
    assert forall|i: int| 0 <= i < times.len() implies before.push(ts_ms).contains(#[trigger] times[i]) by {
        assert(times[i] == all[gone + i]);
        assert(all.contains(times[i]));
        assert(all.to_multiset().count(times[i]) > 0);
    }
    assert forall|t: i64| #[trigger] before.push(ts_ms).contains(t) && !times.contains(t) implies times.len()
        == 16 && forall|i: int| 0 <= i < times.len() ==> t <= #[trigger] times[i] by {
        assert(before.push(ts_ms).to_multiset().count(t) > 0);
        assert(all.contains(t));
        let k = choose|k: int| 0 <= k < all.len() && all[k] == t;
        if k >= gone {
            assert(times[k - gone] == t);
        }
        assert forall|i: int| 0 <= i < times.len() implies t <= #[trigger] times[i] by {
            assert(all[k] <= all[gone + i]);
        }
    }
}

/// A new state has its defaults, its version and its times, and nothing has happened to it.
pub proof fn new_states_are_fresh(defaults: StateDefaults, chunk_hash: ChunkHash, version: u64, created_at_ms: i64)
    ensures
        forall|s: MemoryState| #[trigger]
            call_ensures(MemoryState::new, (&defaults, chunk_hash, version, created_at_ms), s) ==> {
                &&& s.strength == defaults.strength && s.confidence == defaults.confidence && s.decay_rate
                    == defaults.decay_rate
                &&& s.current_version == version && s.current_chunk_hash == chunk_hash
                &&& s.created_at_ms == created_at_ms && s.access_count == 0 && s.last_accessed_ms == 0
                &&& !s.deleted && !s.pinned && !s.embed_pending && s.tier == 0 && s.status == 0
                &&& s.access_timestamps@.len() == 0 && s.retrieval_history@.len() == 0
            },
{
}

} // verus!
