//! Keyed lanes: from keys that memories carry in their content to those memories.
use crate::memory::{MemoryPayload, MemoryState};
use crate::order::{lists, sort_order, sorts_before, sorts_range, Dated, Ranked};
use crate::table::{key_list, lists_keys, Named};
use crate::text::str_eq;
use std::collections::BTreeMap;
use vstd::prelude::*;
use vstd::string::*;

verus! {

/// The kinds of memories that are found by key.
#[derive(Clone, Copy, Debug, PartialEq, Eq, Structural)]
pub enum Lane {
    /// Signals that report something done.
    Provenance,
    Correction,
    Task,
}

/// The memory is not known to be deleted.
pub open spec fn undeleted(states: Map<u64, MemoryState>, id: u64) -> bool {
    states.contains_key(id) ==> !states[id].deleted
}

/// `bytes` begin with `lead`.
pub open spec fn leads(bytes: Seq<u8>, lead: Seq<u8>) -> bool {
    lead.len() <= bytes.len() && bytes.take(lead.len() as int) == lead
}

/// An ASCII letter in lower case; any other byte as it is.
pub open spec fn lower(b: u8) -> u8 {
    if 65 <= b <= 90 {
        (b + 32) as u8
    } else {
        b
    }
}

/// `[done]`
pub open spec fn done_lead() -> Seq<u8> {
    seq![91, 100, 111, 110, 101, 93]
}

/// `[correction`
pub open spec fn correction_lead() -> Seq<u8> {
    seq![91, 99, 111, 114, 114, 101, 99, 116, 105, 111, 110]
}

/// `[task]`
pub open spec fn task_lead() -> Seq<u8> {
    seq![91, 116, 97, 115, 107, 93]
}

/// The payload belongs to the lane.
pub open spec fn in_lane(lane: Lane, p: MemoryPayload) -> bool {
    match lane {
        Lane::Provenance => p.kind@ == "signal"@ && leads(p.content@, done_lead()),
        Lane::Correction => p.content@.len() >= 11 && forall|i: int|
            0 <= i < 11 ==> lower(#[trigger] p.content@[i]) == correction_lead()[i],
        Lane::Task => leads(p.content@, task_lead()),
    }
}

fn has_lead(bytes: &Vec<u8>, lead: &Vec<u8>) -> (r: bool)
    ensures
        r == leads(bytes@, lead@),
{
    let n: usize = lead.len();
    if bytes.len() < n {
        return false;
    }
    let mut i: usize = 0;
    while i < n
        invariant
            n == lead@.len(),
            n <= bytes@.len(),
            i <= n,
            forall|k: int| 0 <= k < i ==> bytes@[k] == lead@[k],
        decreases n - i,
    {
        if bytes[i] != lead[i] {
            assert(bytes@.take(n as int)[i as int] != lead@[i as int]);
            return false;
        }
        i = i + 1;
    }
    assert(bytes@.take(n as int) =~= lead@);
    true
}

fn is_correction(bytes: &Vec<u8>) -> (r: bool)
    ensures
        r == (bytes@.len() >= 11 && forall|i: int|
            0 <= i < 11 ==> lower(#[trigger] bytes@[i]) == correction_lead()[i]),
{
    let lead: Vec<u8> = vec![91, 99, 111, 114, 114, 101, 99, 116, 105, 111, 110];
    assert(lead@ =~= correction_lead());
    if bytes.len() < 11 {
        return false;
    }
    let mut i: usize = 0;
    while i < 11
        invariant
            lead@ == correction_lead(),
            bytes@.len() >= 11,
            i <= 11,
            forall|k: int| 0 <= k < i ==> lower(#[trigger] bytes@[k]) == correction_lead()[k],
        decreases 11 - i,
    {
        let b: u8 = bytes[i];
        let low: u8 = if 65 <= b && b <= 90 {
            b + 32
        } else {
            b
        };
        if low != lead[i] {
            assert(lower(bytes@[i as int]) != correction_lead()[i as int]);
            return false;
        }
        i = i + 1;
    }
    true
}

/// Whether the payload belongs to the lane.
pub fn belongs(lane: Lane, p: &MemoryPayload) -> (r: bool)
    ensures
        r == in_lane(lane, *p),
{
    match lane {
        Lane::Provenance => {
            let lead: Vec<u8> = vec![91, 100, 111, 110, 101, 93];
            assert(lead@ =~= done_lead());
            str_eq(p.kind.as_str(), "signal") && has_lead(&p.content, &lead)
        },
        Lane::Correction => is_correction(&p.content),
        Lane::Task => {
            let lead: Vec<u8> = vec![91, 116, 97, 115, 107, 93];
            assert(lead@ =~= task_lead());
            has_lead(&p.content, &lead)
        },
    }
}

/// Memory `id` stands in the lane.
pub open spec fn stands_in(
    lane: Lane,
    payloads: Map<u64, MemoryPayload>,
    states: Map<u64, MemoryState>,
    id: u64,
) -> bool {
    payloads.contains_key(id) && in_lane(lane, payloads[id]) && undeleted(states, id)
}

/// Memory `a` was created before memory `b`; among memories of one age the lower id counts as
/// the earlier.
pub open spec fn older(payloads: Map<u64, MemoryPayload>, a: u64, b: u64) -> bool {
    payloads[a].created_at_ms < payloads[b].created_at_ms || (payloads[a].created_at_ms
        == payloads[b].created_at_ms && a < b)
}

/// `ids` lists the memories of a lane, oldest first.
pub open spec fn lists_lane(
    ids: Seq<u64>,
    lane: Lane,
    payloads: Map<u64, MemoryPayload>,
    states: Map<u64, MemoryState>,
) -> bool {
    &&& forall|id: u64| ids.contains(id) <==> #[trigger] stands_in(lane, payloads, states, id)
    &&& forall|i: int, j: int| 0 <= i < j < ids.len() ==> older(payloads, ids[i], ids[j])
}

/// The memories of a lane, oldest first.
pub fn lane_memories(
    lane: Lane,
    payloads: &BTreeMap<u64, MemoryPayload>,
    states: &BTreeMap<u64, MemoryState>,
) -> (r: Vec<u64>)
    ensures
        lists_lane(r@, lane, payloads@, states@),
{
    broadcast use vstd::std_specs::btree::group_btree_axioms;

    let ids = key_list(payloads);
    let n: usize = ids.len();
    let mut found: Vec<Dated> = Vec::new();
    let mut i: usize = 0;
    while i < n
        invariant
            n == ids.len(),
            i <= n,
            lists_keys(ids@, payloads@),
            forall|k: int|
                0 <= k < found@.len() ==> {
                    &&& stands_in(lane, payloads@, states@, (#[trigger] found@[k]).id)
                    &&& found@[k].at_ms == payloads@[found@[k].id].created_at_ms
                    &&& i < n ==> found@[k].id < ids@[i as int]
                },
            forall|k: int|
                0 <= k < i && stands_in(lane, payloads@, states@, #[trigger] ids@[k]) ==> holds_id(
                    found@,
                    ids@[k],
                ),
            forall|j: int, k: int| 0 <= j < k < found@.len() ==> found@[j].id < found@[k].id,
        decreases n - i,
    {
        let id: u64 = ids[i];
        let ghost was = found@;
        assert(payloads@.contains_key(ids@[i as int]));
        let gone: bool = match states.get(&id) {
            Some(s) => s.deleted,
            None => false,
        };
        match payloads.get(&id) {
            Some(p) => {
                if !gone && belongs(lane, p) {
                    let d = Dated { at_ms: p.created_at_ms, id };
                    found.push(d);
                    assert(found@[was.len() as int] == d);
                }
            },
            None => {},
        }
        proof {
            assert forall|k: int|
                0 <= k < i + 1 && stands_in(lane, payloads@, states@, #[trigger] ids@[k])
                implies holds_id(found@, ids@[k]) by {
                if k < i {
                    let j = choose|j: int| 0 <= j < was.len() && (#[trigger] was[j]).id == ids@[k];
                    assert(found@[j].id == ids@[k]);
                }
            }
            if i + 1 < n {
                assert(ids@[i as int] < ids@[i + 1]);
            }
        }
        i = i + 1;
    }
    let p = sort_order(&found);
    let mut out: Vec<u64> = Vec::new();
    let m: usize = p.len();
    let mut k: usize = 0;
    while k < m
        invariant
            m == p.len(),
            k <= m,
            sorts_range(p@, found@, 0, found@.len() as int),
            out@.len() == k,
            forall|j: int| 0 <= j < k ==> #[trigger] out@[j] == found@[p@[j] as int].id,
        decreases m - k,
    {
        out.push(found[p[k]].id);
        k = k + 1;
    }
    proof {
        assert forall|id: u64| out@.contains(id) <==> #[trigger] stands_in(
            lane,
            payloads@,
            states@,
            id,
        ) by {
            if out@.contains(id) {
                let j = choose|j: int| 0 <= j < out@.len() && out@[j] == id;
                assert(found@[p@[j] as int].id == id);
            }
            if stands_in(lane, payloads@, states@, id) {
                let k = choose|k: int| 0 <= k < ids@.len() && ids@[k] == id;
                assert(holds_id(found@, ids@[k]));
                let j = choose|j: int| 0 <= j < found@.len() && (#[trigger] found@[j]).id == id;
                assert(lists(p@, j));
                let i = choose|i: int| 0 <= i < p@.len() && #[trigger] p@[i] == j;
                assert(out@[i] == id);
            }
        }
        assert forall|i: int, j: int| 0 <= i < j < out@.len() implies older(
            payloads@,
            out@[i],
            out@[j],
        ) by {
            let a = p@[i] as int;
            let b = p@[j] as int;
            assert(sorts_before(found@, a, b));
            assert(found@[a].at_ms == payloads@[found@[a].id].created_at_ms);
            assert(found@[b].at_ms == payloads@[found@[b].id].created_at_ms);
            if a < b {
                assert(found@[a].id < found@[b].id);
            } else if b < a {
                assert(found@[b].id < found@[a].id);
            }
        }
    }
    out
}

spec fn holds_id(found: Seq<Dated>, id: u64) -> bool {
    exists|j: int| 0 <= j < found.len() && (#[trigger] found[j]).id == id
}

/// A key in the content of memory `id`.
pub struct KeyOf {
    pub key: String,
    pub id: u64,
}

/// The memory that first brought each key, of the first `n`.
pub open spec fn earliest(keys: Seq<KeyOf>, n: int) -> Map<Seq<char>, u64>
    decreases n,
{
    if n <= 0 {
        Map::empty()
    } else {
        let m = earliest(keys, n - 1);
        if m.contains_key(keys[n - 1].key@) {
            m
        } else {
            m.insert(keys[n - 1].key@, keys[n - 1].id)
        }
    }
}

/// The memory that last brought each key, of the first `n`.
pub open spec fn latest(keys: Seq<KeyOf>, n: int) -> Map<Seq<char>, u64>
    decreases n,
{
    if n <= 0 {
        Map::empty()
    } else {
        latest(keys, n - 1).insert(keys[n - 1].key@, keys[n - 1].id)
    }
}

/// The memories that brought a key, of the first `n`, in order and each once.
pub open spec fn holders(keys: Seq<KeyOf>, key: Seq<char>, n: int) -> Seq<u64>
    decreases n,
{
    if n <= 0 {
        Seq::empty()
    } else {
        let before = holders(keys, key, n - 1);
        if keys[n - 1].key@ == key && !before.contains(keys[n - 1].id) {
            before.push(keys[n - 1].id)
        } else {
            before
        }
    }
}

/// From each key to the memory that first brought it.
pub fn index_earliest(keys: &Vec<KeyOf>) -> (r: Named<u64>)
    ensures
        r.wf(),
        r@ == earliest(keys@, keys@.len() as int),
{
    let mut r: Named<u64> = Named::new();
    let n: usize = keys.len();
    let mut i: usize = 0;
    while i < n
        invariant
            n == keys.len(),
            i <= n,
            r.wf(),
            r@ == earliest(keys@, i as int),
        decreases n - i,
    {
        if r.get(keys[i].key.as_str()).is_none() {
            r.insert(keys[i].key.clone(), keys[i].id);
        }
        i = i + 1;
    }
    r
}

/// From each key to the memory that last brought it.
pub fn index_latest(keys: &Vec<KeyOf>) -> (r: Named<u64>)
    ensures
        r.wf(),
        r@ == latest(keys@, keys@.len() as int),
{
    let mut r: Named<u64> = Named::new();
    let n: usize = keys.len();
    let mut i: usize = 0;
    while i < n
        invariant
            n == keys.len(),
            i <= n,
            r.wf(),
            r@ == latest(keys@, i as int),
        decreases n - i,
    {
        r.insert(keys[i].key.clone(), keys[i].id);
        i = i + 1;
    }
    r
}

/// `m` gives each key the memories that brought it, of the first `n`.
pub open spec fn gathers(m: Map<Seq<char>, Vec<u64>>, keys: Seq<KeyOf>, n: int) -> bool {
    forall|key: Seq<char>|
        {
            &&& #[trigger] m.contains_key(key) <==> holders(keys, key, n).len() > 0
            &&& m.contains_key(key) ==> m[key]@ == holders(keys, key, n)
        }
}

/// From each key to all memories that brought it, in order.
pub fn index_all(keys: &Vec<KeyOf>) -> (r: Named<Vec<u64>>)
    ensures
        r.wf(),
        gathers(r@, keys@, keys@.len() as int),
{
    let mut r: Named<Vec<u64>> = Named::new();
    let n: usize = keys.len();
    let mut i: usize = 0;
    while i < n
        invariant
            n == keys.len(),
            i <= n,
            r.wf(),
            gathers(r@, keys@, i as int),
        decreases n - i,
    {
        let ghost was = r@;
        let id: u64 = keys[i].id;
        assert(was.contains_key(keys@[i as int].key@) <==> holders(keys@, keys@[i as int].key@, i as int).len() > 0);
        let mut ids: Vec<u64> = match r.remove(keys[i].key.as_str()) {
            Some(v) => v,
            None => Vec::new(),
        };
        assert(ids@ =~= holders(keys@, keys@[i as int].key@, i as int));
        if !has_id(&ids, id) {
            ids.push(id);
        }
        assert(ids@ == holders(keys@, keys@[i as int].key@, i + 1));
        assert(ids@.len() > 0) by {
            if holders(keys@, keys@[i as int].key@, i as int).contains(id) {
            }
        }
        r.insert(keys[i].key.clone(), ids);
        proof {
            assert forall|key: Seq<char>|
                {
                    &&& #[trigger] r@.contains_key(key) <==> holders(keys@, key, i + 1).len() > 0
                    &&& r@.contains_key(key) ==> r@[key]@ == holders(keys@, key, i + 1)
                } by {
                assert(was.contains_key(key) <==> holders(keys@, key, i as int).len() > 0);
            }
        }
        i = i + 1;
    }
    r
}

fn has_id(ids: &Vec<u64>, id: u64) -> (r: bool)
    ensures
        r == ids@.contains(id),
{
    let n: usize = ids.len();
    let mut i: usize = 0;
    while i < n
        invariant
            n == ids.len(),
            i <= n,
            forall|k: int| 0 <= k < i ==> ids@[k] != id,
        decreases n - i,
    {
        if ids[i] == id {
            assert(ids@[i as int] == id);
            return true;
        }
        i = i + 1;
    }
    false
}

/// From the fingerprint of a content to a memory that has it, of the first `n`.
pub open spec fn fingerprinted(prints: Seq<(u64, u64)>, n: int) -> Map<u64, u64>
    decreases n,
{
    if n <= 0 {
        Map::empty()
    } else {
        fingerprinted(prints, n - 1).insert(prints[n - 1].0, prints[n - 1].1)
    }
}

/// From the fingerprints of contents to the memories that have them.
pub fn index_fingerprints(prints: &Vec<(u64, u64)>) -> (r: BTreeMap<u64, u64>)
    ensures
        r@ == fingerprinted(prints@, prints@.len() as int),
{
    broadcast use vstd::std_specs::btree::group_btree_axioms;

    let mut r: BTreeMap<u64, u64> = BTreeMap::new();
    let n: usize = prints.len();
    let mut i: usize = 0;
    assert(r@ =~= Map::<u64, u64>::empty());
    while i < n
        invariant
            n == prints.len(),
            i <= n,
            r@ == fingerprinted(prints@, i as int),
        decreases n - i,
    {
        r.insert(prints[i].0, prints[i].1);
        i = i + 1;
    }
    r
}

/// A key leads to the memory that brought it first, and to no other.
pub proof fn earliest_wins(keys: Seq<KeyOf>, n: int, i: int)
    requires
        0 <= i < n <= keys.len(),
        forall|j: int| 0 <= j < i ==> (#[trigger] keys[j]).key@ != keys[i].key@,
    ensures
        earliest(keys, n).contains_key(keys[i].key@),
        earliest(keys, n)[keys[i].key@] == keys[i].id,
    decreases n,
{
    if i < n - 1 {
        earliest_wins(keys, n - 1, i);
    } else {
        earliest_needs_a_key(keys, n - 1, keys[i].key@);
    }
}

proof fn earliest_needs_a_key(keys: Seq<KeyOf>, n: int, key: Seq<char>)
    requires
        0 <= n <= keys.len(),
        forall|j: int| 0 <= j < n ==> (#[trigger] keys[j]).key@ != key,
    ensures
        !earliest(keys, n).contains_key(key),
    decreases n,
{
    if n > 0 {
        earliest_needs_a_key(keys, n - 1, key);
    }
}

/// A key leads to the memory that brought it last, and to no other.
pub proof fn latest_wins(keys: Seq<KeyOf>, n: int, i: int)
    requires
        0 <= i < n <= keys.len(),
        forall|j: int| i < j < n ==> (#[trigger] keys[j]).key@ != keys[i].key@,
    ensures
        latest(keys, n).contains_key(keys[i].key@),
        latest(keys, n)[keys[i].key@] == keys[i].id,
    decreases n,
{
    if i < n - 1 {
        latest_wins(keys, n - 1, i);
        assert(keys[n - 1].key@ != keys[i].key@);
    }
}

/// Every memory that brought a key is among those that the key leads to.
pub proof fn no_holder_is_lost(keys: Seq<KeyOf>, n: int, i: int)
    requires
        0 <= i < n <= keys.len(),
    ensures
        holders(keys, keys[i].key@, n).contains(keys[i].id),
    decreases n,
{
    let key = keys[i].key@;
    let before = holders(keys, key, n - 1);
    let now = holders(keys, key, n);
    if i < n - 1 {
        no_holder_is_lost(keys, n - 1, i);
        let k = choose|k: int| 0 <= k < before.len() && before[k] == keys[i].id;
        assert(now[k] == keys[i].id);
    } else if !before.contains(keys[i].id) {
        assert(now[before.len() as int] == keys[i].id);
    }
}

/// The lanes are told apart by what the content of a memory begins with; a correction may be
/// written in capitals, and a memory of provenance is a signal.
pub proof fn lanes_go_by_the_lead(lane: Lane, p: MemoryPayload, r: bool)
    requires
        call_ensures(belongs, (lane, &p), r),
    ensures
        lane == Lane::Task ==> (r <==> p.content@.len() >= 6 && forall|i: int|
            0 <= i < 6 ==> #[trigger] p.content@[i] as int == "[task]"@[i] as int),
        lane == Lane::Provenance ==> (r <==> p.kind@ == "signal"@ && p.content@.len() >= 6 && forall|
            i: int,
        |
            0 <= i < 6 ==> #[trigger] p.content@[i] as int == "[done]"@[i] as int),
        lane == Lane::Correction && p.content@.len() >= 11 && (forall|i: int|
            0 <= i < 11 ==> #[trigger] p.content@[i] as int == "[correction"@[i] as int) ==> r,
        lane == Lane::Correction && p.content@.len() >= 11 && (forall|i: int|
            0 <= i < 11 ==> #[trigger] p.content@[i] as int == "[CORRECTION"@[i] as int) ==> r,
        lane == Lane::Correction && r ==> p.content@.len() >= 11 && forall|i: int|
            0 <= i < 11 ==> #[trigger] p.content@[i] as int == "[correction"@[i] as int || p.content@[i] as int
                == "[CORRECTION"@[i] as int,
{
    reveal_strlit("[task]");
    reveal_strlit("[done]");
    reveal_strlit("[correction");
    reveal_strlit("[CORRECTION");
    let c = p.content@;
    match lane {
        Lane::Task => {
            if c.len() >= 6 {
                let head = c.take(6);
                if leads(c, task_lead()) {
                    assert(forall|i: int| 0 <= i < 6 ==> #[trigger] c[i] == head[i]);
                }
                if forall|i: int| 0 <= i < 6 ==> #[trigger] c[i] as int == "[task]"@[i] as int {
                    assert(head =~= task_lead());
                }
            }
        },
        Lane::Provenance => {
            if c.len() >= 6 {
                let head = c.take(6);
                if leads(c, done_lead()) {
                    assert(forall|i: int| 0 <= i < 6 ==> #[trigger] c[i] == head[i]);
                }
                if forall|i: int| 0 <= i < 6 ==> #[trigger] c[i] as int == "[done]"@[i] as int {
                    assert(head =~= done_lead());
                }
            }
        },
        Lane::Correction => {},
    }
}

/// Memories of a lane come in the order in which they were created, each once.
pub proof fn lanes_run_from_old_to_new(
    ids: Seq<u64>,
    lane: Lane,
    payloads: Map<u64, MemoryPayload>,
    states: Map<u64, MemoryState>,
    i: int,
    j: int,
)
    requires
        lists_lane(ids, lane, payloads, states),
        0 <= i < j < ids.len(),
    ensures
        ids[i] != ids[j],
        payloads[ids[i]].created_at_ms <= payloads[ids[j]].created_at_ms,
        payloads[ids[i]].created_at_ms == payloads[ids[j]].created_at_ms ==> ids[i] < ids[j],
        payloads.contains_key(ids[i]),
        states.contains_key(ids[i]) ==> !states[ids[i]].deleted,
{
    assert(older(payloads, ids[i], ids[j]));
    assert(ids.contains(ids[i]));
    assert(stands_in(lane, payloads, states, ids[i]));
}

/// A key that no memory brought leads nowhere, and one that it leads to did bring it.
pub proof fn keys_lead_to_their_memories(keys: Seq<KeyOf>, n: int, key: Seq<char>, id: u64)
    requires
        0 <= n <= keys.len(),
    ensures
        (forall|j: int| 0 <= j < n ==> (#[trigger] keys[j]).key@ != key) ==> {
            &&& !earliest(keys, n).contains_key(key)
            &&& !latest(keys, n).contains_key(key)
            &&& holders(keys, key, n).len() == 0
        },
        holders(keys, key, n).contains(id) <==> exists|j: int|
            0 <= j < n && (#[trigger] keys[j]).key@ == key && keys[j].id == id,
        holders(keys, key, n).no_duplicates(),
    decreases n,
{
    if n > 0 {
        keys_lead_to_their_memories(keys, n - 1, key, id);
        keys_lead_to_their_memories(keys, n - 1, key, keys[n - 1].id);
        let before = holders(keys, key, n - 1);
        let after = holders(keys, key, n);
        if after != before {
            assert(after == before.push(keys[n - 1].id));
            assert forall|x: u64| #[trigger] after.contains(x) <==> before.contains(x) || x == keys[n - 1].id by {
                if before.contains(x) {
                    assert(after[before.index_of(x)] == x);
                }
                assert(after[before.len() as int] == keys[n - 1].id);
            }
        }
        assert(keys[n - 1].key@ == key && keys[n - 1].id == id ==> after.contains(id));
    }
}

/// A fingerprint leads to the memory that had it last.
pub proof fn latest_print_wins(prints: Seq<(u64, u64)>, n: int, i: int)
    requires
        0 <= i < n <= prints.len(),
        forall|j: int| i < j < n ==> (#[trigger] prints[j]).0 != prints[i].0,
    ensures
        fingerprinted(prints, n).contains_key(prints[i].0),
        fingerprinted(prints, n)[prints[i].0] == prints[i].1,
    decreases n,
{
    if i < n - 1 {
        assert(prints[n - 1].0 != prints[i].0);
        latest_print_wins(prints, n - 1, i);
    }
}

/// A fingerprint that no content has leads nowhere.
pub proof fn unknown_prints_lead_nowhere(prints: Seq<(u64, u64)>, n: int, print: u64)
    requires
        0 <= n <= prints.len(),
        forall|j: int| 0 <= j < n ==> (#[trigger] prints[j]).0 != print,
    ensures
        !fingerprinted(prints, n).contains_key(print),
    decreases n,
{
    if n > 0 {
        unknown_prints_lead_nowhere(prints, n - 1, print);
    }
}

/// A memory without a state stands in its lane like one that is live; a deleted one does not.
pub proof fn stateless_memories_stand_in_their_lane(
    ids: Seq<u64>,
    lane: Lane,
    payloads: Map<u64, MemoryPayload>,
    states: Map<u64, MemoryState>,
    id: u64,
)
    requires
        lists_lane(ids, lane, payloads, states),
        payloads.contains_key(id),
        in_lane(lane, payloads[id]),
    ensures
        !states.contains_key(id) ==> ids.contains(id),
        states.contains_key(id) ==> (ids.contains(id) <==> !states[id].deleted),
{
    assert(stands_in(lane, payloads, states, id) <==> undeleted(states, id));
}

} // verus!
