//! Listings of memories: filters, orders, pages and counts.
use crate::decimal::{numeral, u64_text};
use crate::memory::{is_live, MemoryPayload, MemoryState};
use crate::order::{lists, sort_order, sorts_before, sorts_range, Ranked};
use crate::seqs::{filter_keeps_order, filter_members};
use crate::table::{key_list, lists_keys, Named};
use crate::text::{is_text_before, str_eq, text_before, views, views_push};
use crate::triplet::{TripletEntry, TripletStore};
use crate::weight::{below, is_below, is_nan, nan, real_rank, real_rank_of};
use std::collections::{BTreeMap, BTreeSet};
use vstd::prelude::*;
use vstd::string::*;

verus! {

/// An item with a score; higher scores come first.
#[derive(Clone, Copy, Debug)]
pub struct Scored {
    pub score: i64,
}

impl Ranked for Scored {
    open spec fn ahead(&self, other: &Self) -> bool {
        self.score > other.score
    }

    proof fn ahead_asymmetric(a: &Self, b: &Self) {
    }

    proof fn ahead_transitive(a: &Self, b: &Self, c: &Self) {
    }

    proof fn tie_transitive(a: &Self, b: &Self, c: &Self) {
    }

    fn is_ahead(&self, other: &Self) -> (r: bool) {
        self.score > other.score
    }
}

/// Which memories are listed. What is missing admits every memory; numbers are bit patterns.
pub struct MemoryFilter {
    pub kind: Option<String>,
    pub realm: Option<String>,
    pub min_confidence: Option<u32>,
    pub min_strength: Option<u32>,
}

/// The strength of a memory as of now.
pub open spec fn strength_of(strengths: Map<u64, u32>, id: u64) -> u32 {
    if strengths.contains_key(id) {
        strengths[id]
    } else {
        0
    }
}

fn strength_in(strengths: &BTreeMap<u64, u32>, id: u64) -> (r: u32)
    ensures
        r == strength_of(strengths@, id),
{
    broadcast use vstd::std_specs::btree::group_btree_axioms;

    match strengths.get(&id) {
        Some(s) => *s,
        None => 0,
    }
}

/// The memory is live and meets the filter.
pub open spec fn admitted(
    q: MemoryFilter,
    payloads: Map<u64, MemoryPayload>,
    states: Map<u64, MemoryState>,
    strengths: Map<u64, u32>,
) -> spec_fn(u64) -> bool {
    |id: u64|
        {
            &&& is_live(states, id)
            &&& q.min_confidence matches Some(m) ==> !below(states[id].confidence, m)
            &&& q.min_strength matches Some(m) ==> !below(strength_of(strengths, id), m)
            &&& q.kind matches Some(k) ==> payloads[id].kind@ == k@
            &&& q.realm matches Some(r) ==> payloads[id].realm@ == r@
        }
}

fn is_admitted(q: &MemoryFilter, p: &MemoryPayload, s: &MemoryState, strength: u32) -> (r: bool)
    ensures
        r == ({
            &&& !s.deleted
            &&& q.min_confidence matches Some(m) ==> !below(s.confidence, m)
            &&& q.min_strength matches Some(m) ==> !below(strength, m)
            &&& q.kind matches Some(k) ==> p.kind@ == k@
            &&& q.realm matches Some(r) ==> p.realm@ == r@
        }),
{
    if s.deleted {
        return false;
    }
    match q.min_confidence {
        Some(m) => {
            if is_below(s.confidence, m) {
                return false;
            }
        },
        None => {},
    }
    match q.min_strength {
        Some(m) => {
            if is_below(strength, m) {
                return false;
            }
        },
        None => {},
    }
    match &q.kind {
        Some(k) => {
            if !str_eq(p.kind.as_str(), k.as_str()) {
                return false;
            }
        },
        None => {},
    }
    match &q.realm {
        Some(r) => {
            if !str_eq(p.realm.as_str(), r.as_str()) {
                return false;
            }
        },
        None => {},
    }
    true
}

/// `ids` lists the memories that a filter admits, lowest id first.
pub open spec fn lists_admitted(
    ids: Seq<u64>,
    q: MemoryFilter,
    payloads: Map<u64, MemoryPayload>,
    states: Map<u64, MemoryState>,
    strengths: Map<u64, u32>,
) -> bool {
    exists|all: Seq<u64>| #[trigger]
        lists_keys(all, payloads) && ids == all.filter(admitted(q, payloads, states, strengths))
}

/// The memories that a filter admits, lowest id first.
pub fn select_memories(
    q: &MemoryFilter,
    payloads: &BTreeMap<u64, MemoryPayload>,
    states: &BTreeMap<u64, MemoryState>,
    strengths: &BTreeMap<u64, u32>,
) -> (r: Vec<u64>)
    ensures
        lists_admitted(r@, *q, payloads@, states@, strengths@),
        forall|i: int|
            0 <= i < r@.len() ==> payloads@.contains_key(#[trigger] r@[i]) && is_live(states@, r@[i]),
{
    broadcast use vstd::std_specs::btree::group_btree_axioms;

    let all = key_list(payloads);
    let ghost keep = admitted(*q, payloads@, states@, strengths@);
    let n: usize = all.len();
    let mut out: Vec<u64> = Vec::new();
    let mut i: usize = 0;
    proof {
        crate::seqs::filter_ends(all@, keep);
    }
    while i < n
        invariant
            n == all.len(),
            i <= n,
            lists_keys(all@, payloads@),
            keep == admitted(*q, payloads@, states@, strengths@),
            out@ == all@.take(i as int).filter(keep),
            forall|k: int|
                0 <= k < out@.len() ==> payloads@.contains_key(#[trigger] out@[k]) && is_live(
                    states@,
                    out@[k],
                ),
        decreases n - i,
    {
        let id: u64 = all[i];
        proof {
            crate::seqs::filter_step(all@, keep, i as int);
            assert(payloads@.contains_key(all@[i as int]));
        }
        match (payloads.get(&id), states.get(&id)) {
            (Some(p), Some(s)) => {
                if is_admitted(q, p, s, strength_in(strengths, id)) {
                    out.push(id);
                }
            },
            _ => {},
        }
        i = i + 1;
    }
    out
}

/// What a listing is ordered by; the greatest comes first.
#[derive(Clone, Copy, Debug, PartialEq, Eq, Structural)]
pub enum SortBy {
    Recency,
    Strength,
    Confidence,
}

/// The order with a name; recency where there is no name, or another one.
pub fn sort_by(name: Option<&str>) -> (r: SortBy)
    ensures
        r == match name {
            Some(s) => if s@ == "strength"@ {
                SortBy::Strength
            } else if s@ == "confidence"@ {
                SortBy::Confidence
            } else {
                SortBy::Recency
            },
            None => SortBy::Recency,
        },
{
    match name {
        Some(s) => {
            if str_eq(s, "strength") {
                SortBy::Strength
            } else if str_eq(s, "confidence") {
                SortBy::Confidence
            } else {
                SortBy::Recency
            }
        },
        None => SortBy::Recency,
    }
}

/// The score of a memory in an order.
pub open spec fn score_of(
    by: SortBy,
    payloads: Map<u64, MemoryPayload>,
    states: Map<u64, MemoryState>,
    strengths: Map<u64, u32>,
    id: u64,
) -> i64 {
    match by {
        SortBy::Recency => payloads[id].created_at_ms,
        SortBy::Strength => real_rank(strength_of(strengths, id)) as i64,
        SortBy::Confidence => real_rank(states[id].confidence) as i64,
    }
}

/// The scores of a listing.
pub open spec fn scores_in(
    by: SortBy,
    payloads: Map<u64, MemoryPayload>,
    states: Map<u64, MemoryState>,
    strengths: Map<u64, u32>,
    ids: Seq<u64>,
) -> Seq<Scored> {
    ids.map_values(|id: u64| Scored { score: score_of(by, payloads, states, strengths, id) })
}

/// `page` is the part of the listing `ids` that begins at `offset` and has at most `limit` items,
/// the listing being ordered by the scores, and by id among equal scores.
pub open spec fn is_page(
    page: Seq<u64>,
    ids: Seq<u64>,
    scores: Seq<Scored>,
    offset: int,
    limit: int,
) -> bool {
    let left = if offset < ids.len() {
        ids.len() - offset
    } else {
        0
    };
    &&& page.len() == if limit < left {
        limit
    } else {
        left
    }
    &&& exists|p: Seq<usize>|
        {
            &&& #[trigger] sorts_range(p, scores, 0, scores.len() as int)
            &&& forall|i: int| 0 <= i < page.len() ==> #[trigger] page[i] == ids[p[offset + i] as int]
        }
}

fn page_of(ids: &Vec<u64>, scores: &Vec<Scored>, offset: usize, limit: usize) -> (page: Vec<u64>)
    requires
        scores@.len() == ids@.len(),
    ensures
        is_page(page@, ids@, scores@, offset as int, limit as int),
        forall|i: int| 0 <= i < page@.len() ==> ids@.contains(#[trigger] page@[i]),
{
    let p = sort_order(scores);
    let n: usize = ids.len();
    let left: usize = if offset < n {
        n - offset
    } else {
        0
    };
    let count: usize = if limit < left {
        limit
    } else {
        left
    };
    let mut page: Vec<u64> = Vec::new();
    let mut i: usize = 0;
    while i < count
        invariant
            n == ids.len(),
            n == scores@.len(),
            n == p.len(),
            i <= count,
            i < count ==> offset < n,
            count <= n - offset || count == 0,
            sorts_range(p@, scores@, 0, scores@.len() as int),
            page@.len() == i,
            forall|k: int| 0 <= k < i ==> #[trigger] page@[k] == ids@[p@[offset + k] as int],
            forall|k: int| 0 <= k < i ==> ids@.contains(#[trigger] page@[k]),
        decreases count - i,
    {
        assert(ids@.contains(ids@[p@[offset + i] as int]));
        page.push(ids[p[offset + i]]);
        i = i + 1;
    }
    page
}

/// A page of the memories that a filter admits.
pub fn list_memories(
    q: &MemoryFilter,
    by: SortBy,
    payloads: &BTreeMap<u64, MemoryPayload>,
    states: &BTreeMap<u64, MemoryState>,
    strengths: &BTreeMap<u64, u32>,
    offset: usize,
    limit: usize,
) -> (page: Vec<u64>)
    ensures
        exists|ids: Seq<u64>|
            {
                &&& #[trigger] lists_admitted(ids, *q, payloads@, states@, strengths@)
                &&& is_page(
                    page@,
                    ids,
                    scores_in(by, payloads@, states@, strengths@, ids),
                    offset as int,
                    limit as int,
                )
            },
        forall|i: int|
            0 <= i < page@.len() ==> payloads@.contains_key(#[trigger] page@[i]) && is_live(
                states@,
                page@[i],
            ),
{
    broadcast use vstd::std_specs::btree::group_btree_axioms;

    let ids = select_memories(q, payloads, states, strengths);
    let n: usize = ids.len();
    let ghost want = scores_in(by, payloads@, states@, strengths@, ids@);
    let mut scores: Vec<Scored> = Vec::new();
    let mut i: usize = 0;
    while i < n
        invariant
            n == ids.len(),
            i <= n,
            forall|k: int|
                0 <= k < n ==> payloads@.contains_key(#[trigger] ids@[k]) && is_live(states@, ids@[k]),
            scores@.len() == i,
            forall|k: int|
                0 <= k < i ==> (#[trigger] scores@[k]).score == score_of(
                    by,
                    payloads@,
                    states@,
                    strengths@,
                    ids@[k],
                ),
        decreases n - i,
    {
        let id: u64 = ids[i];
        assert(payloads@.contains_key(ids@[i as int]));
        let score: i64 = match by {
            SortBy::Recency => payloads.get(&id).unwrap().created_at_ms,
            SortBy::Strength => real_rank_of(strength_in(strengths, id)),
            SortBy::Confidence => real_rank_of(states.get(&id).unwrap().confidence),
        };
        scores.push(Scored { score });
        i = i + 1;
    }
    assert(scores@ =~= want);
    let page = page_of(&ids, &scores, offset, limit);
    proof {
        assert forall|i: int| 0 <= i < page@.len() implies payloads@.contains_key(#[trigger] page@[i])
            && is_live(states@, page@[i]) by {
            assert(ids@.contains(page@[i]));
            let k = choose|k: int| 0 <= k < ids@.len() && ids@[k] == page@[i];
            assert(payloads@.contains_key(ids@[k]));
        }
    }
    page
}

/// Consecutive pages of a listing hold different memories, and together all of them.
pub proof fn pages_partition_a_listing(
    first: Seq<u64>,
    second: Seq<u64>,
    both: Seq<u64>,
    ids: Seq<u64>,
    scores: Seq<Scored>,
    offset: int,
    limit: int,
    more: int,
)
    requires
        0 <= offset,
        0 <= limit,
        0 <= more,
        scores.len() == ids.len(),
        first.len() == limit,
        is_page(first, ids, scores, offset, limit),
        is_page(second, ids, scores, offset + limit, more),
        is_page(both, ids, scores, offset, limit + more),
    ensures
        both == first + second,
{
    let p = choose|p: Seq<usize>|
        {
            &&& #[trigger] sorts_range(p, scores, 0, scores.len() as int)
            &&& forall|i: int| 0 <= i < first.len() ==> #[trigger] first[i] == ids[p[offset + i] as int]
        };
    let q = choose|q: Seq<usize>|
        {
            &&& #[trigger] sorts_range(q, scores, 0, scores.len() as int)
            &&& forall|i: int|
                0 <= i < second.len() ==> #[trigger] second[i] == ids[q[offset + limit + i] as int]
        };
    let r = choose|r: Seq<usize>|
        {
            &&& #[trigger] sorts_range(r, scores, 0, scores.len() as int)
            &&& forall|i: int| 0 <= i < both.len() ==> #[trigger] both[i] == ids[r[offset + i] as int]
        };
    crate::order::order_is_unique(p, r, scores);
    crate::order::order_is_unique(q, r, scores);
    assert forall|i: int| 0 <= i < both.len() implies both[i] == (first + second)[i] by {
        if i >= limit {
            assert(second[i - limit] == ids[q[offset + limit + (i - limit)] as int]);
        } else {
            assert(first[i] == ids[p[offset + i] as int]);
        }
    }
    assert(both =~= first + second);
}

/// The first memories that a filter admits, at least one of them where there is one.
pub fn recall_filtered(
    q: &MemoryFilter,
    payloads: &BTreeMap<u64, MemoryPayload>,
    states: &BTreeMap<u64, MemoryState>,
    strengths: &BTreeMap<u64, u32>,
    limit: usize,
) -> (r: Vec<u64>)
    ensures
        exists|ids: Seq<u64>|
            {
                &&& #[trigger] lists_admitted(ids, *q, payloads@, states@, strengths@)
                &&& r@ == ids.take(first_few(ids.len() as int, limit as int))
            },
{
    let ids = select_memories(q, payloads, states, strengths);
    let n: usize = ids.len();
    let cap: usize = if limit == 0 {
        1
    } else {
        limit
    };
    let count: usize = if cap < n {
        cap
    } else {
        n
    };
    let mut r: Vec<u64> = Vec::new();
    let mut i: usize = 0;
    while i < count
        invariant
            n == ids.len(),
            count <= n,
            i <= count,
            r@ == ids@.take(i as int),
        decreases count - i,
    {
        r.push(ids[i]);
        assert(ids@.take(i + 1) =~= ids@.take(i as int).push(ids@[i as int]));
        i = i + 1;
    }
    r
}

/// How many of `n` items a recall gives, which stops once it has `limit`.
pub open spec fn first_few(n: int, limit: int) -> int {
    let cap = if limit <= 0 {
        1
    } else {
        limit
    };
    if cap < n {
        cap
    } else {
        n
    }
}

/// The bit pattern that a confidence is compared by; what is no number counts as zero.
pub open spec fn confidence_bits(s: MemoryState) -> u32 {
    if nan(s.confidence) {
        0
    } else {
        s.confidence
    }
}

/// A recalled memory, with the bit pattern of its confidence.
#[derive(Clone, Copy, Debug, PartialEq, Eq, Structural)]
pub struct Confident {
    pub id: u64,
    pub confidence: u32,
}

/// `ids` lists the live memories among `members`, lowest id first.
pub open spec fn lists_live(ids: Seq<u64>, members: Set<u64>, states: Map<u64, MemoryState>) -> bool {
    &&& forall|i: int, j: int| 0 <= i < j < ids.len() ==> ids[i] < ids[j]
    &&& forall|id: u64| #[trigger] ids.contains(id) <==> members.contains(id) && is_live(states, id)
}

pub open spec fn confidence_scores(states: Map<u64, MemoryState>, ids: Seq<u64>) -> Seq<Scored> {
    ids.map_values(|id: u64| Scored { score: confidence_bits(states[id]) as i64 })
}

/// The most confident live members of a kind that have a payload: of the first `limit`, those.
pub fn recall_by_kind(
    members: &BTreeSet<u64>,
    payloads: &BTreeMap<u64, MemoryPayload>,
    states: &BTreeMap<u64, MemoryState>,
    limit: usize,
) -> (r: Vec<Confident>)
    ensures
        exists|ids: Seq<u64>, top: Seq<u64>|
            {
                &&& #[trigger] lists_live(ids, members@, states@)
                &&& #[trigger] is_page(
                    top,
                    ids,
                    confidence_scores(states@, ids),
                    0,
                    limit as int,
                )
                &&& r@ == top.filter(|id: u64| payloads@.contains_key(id)).map_values(
                    |id: u64| Confident { id, confidence: confidence_bits(states@[id]) },
                )
            },
{
    broadcast use vstd::std_specs::btree::group_btree_axioms;

    let all = key_list(states);
    let size: usize = all.len();
    let mut ids: Vec<u64> = Vec::new();
    let mut scores: Vec<Scored> = Vec::new();
    let mut i: usize = 0;
    while i < size
        invariant
            size == all.len(),
            i <= size,
            lists_keys(all@, states@),
            scores@.len() == ids@.len(),
            forall|k: int|
                0 <= k < ids@.len() ==> {
                    &&& members@.contains(#[trigger] ids@[k]) && is_live(states@, ids@[k])
                    &&& scores@[k].score == confidence_bits(states@[ids@[k]])
                    &&& i < size ==> ids@[k] < all@[i as int]
                },
            forall|j: int, k: int| 0 <= j < k < ids@.len() ==> ids@[j] < ids@[k],
            forall|k: int|
                0 <= k < i && members@.contains(#[trigger] all@[k]) && is_live(states@, all@[k])
                    ==> ids@.contains(all@[k]),
        decreases size - i,
    {
        let id: u64 = all[i];
        let ghost was = ids@;
        assert(states@.contains_key(all@[i as int]));
        let s = states.get(&id).unwrap();
        if !s.deleted && members.contains(&id) {
            let bits: u32 = if is_nan(s.confidence) {
                0
            } else {
                s.confidence
            };
            ids.push(id);
            scores.push(Scored { score: bits as i64 });
            assert(ids@[was.len() as int] == id);
            assert(ids@.contains(id));
        }
        proof {
            assert forall|k: int|
                0 <= k < i + 1 && members@.contains(#[trigger] all@[k]) && is_live(states@, all@[k])
                implies ids@.contains(all@[k]) by {
                if k < i {
                    let j = choose|j: int| 0 <= j < was.len() && was[j] == all@[k];
                    assert(ids@[j] == all@[k]);
                }
            }
            if i + 1 < size {
                assert(all@[i as int] < all@[i + 1]);
            }
        }
        i = i + 1;
    }
    proof {
        assert forall|id: u64| #[trigger] ids@.contains(id) <==> members@.contains(id) && is_live(
            states@,
            id,
        ) by {
            if members@.contains(id) && is_live(states@, id) {
                let k = choose|k: int| 0 <= k < all@.len() && all@[k] == id;
                assert(members@.contains(all@[k]));
            }
        }
        assert(lists_live(ids@, members@, states@));
        assert(scores@ =~= confidence_scores(states@, ids@));
    }
    let top = page_of(&ids, &scores, 0, limit);
    let ghost has = |id: u64| payloads@.contains_key(id);
    let ghost show = |id: u64| Confident { id, confidence: confidence_bits(states@[id]) };
    let n: usize = top.len();
    let mut r: Vec<Confident> = Vec::new();
    let mut k: usize = 0;
    proof {
        crate::seqs::filter_ends(top@, has);
        assert(top@.take(0).filter(has).map_values(show) =~= Seq::<Confident>::empty());
    }
    while k < n
        invariant
            n == top.len(),
            k <= n,
            has == (|id: u64| payloads@.contains_key(id)),
            show == (|id: u64| Confident { id, confidence: confidence_bits(states@[id]) }),
            forall|j: int| 0 <= j < ids@.len() ==> is_live(states@, #[trigger] ids@[j]),
            forall|j: int| 0 <= j < n ==> ids@.contains(#[trigger] top@[j]),
            r@ == top@.take(k as int).filter(has).map_values(show),
        decreases n - k,
    {
        let id: u64 = top[k];
        let ghost kept = top@.take(k as int).filter(has);
        proof {
            crate::seqs::filter_step(top@, has, k as int);
            assert(kept.push(id).map_values(show) =~= kept.map_values(show).push(show(id)));
            assert(ids@.contains(top@[k as int]));
            let j = choose|j: int| 0 <= j < ids@.len() && ids@[j] == id;
            assert(is_live(states@, ids@[j]));
        }
        if payloads.contains_key(&id) {
            let s = states.get(&id).unwrap();
            let confidence: u32 = if is_nan(s.confidence) {
                0
            } else {
                s.confidence
            };
            r.push(Confident { id, confidence });
        }
        k = k + 1;
    }
    r
}

/// The facts that tag a memory.
pub open spec fn tagging() -> spec_fn(TripletEntry) -> bool {
    |e: TripletEntry| e.predicate@ == "tagged"@
}

/// The tags of a memory: what the unexpired facts about its id say it is tagged with.
pub fn tags_of(store: &TripletStore, id: u64, now_ms: i64) -> (r: Vec<String>)
    requires
        store.wf(),
    ensures
        views(r@) == store.live(numeral(id as int), now_ms).filter(tagging()).map_values(
            |e: TripletEntry| e.object@,
        ),
{
    let name = u64_text(id);
    let found = store.query_subject(name.as_str(), now_ms);
    let ghost all = store.live(numeral(id as int), now_ms);
    let ghost tag = |e: TripletEntry| e.object@;
    let n: usize = found.len();
    let mut out: Vec<String> = Vec::new();
    let mut i: usize = 0;
    proof {
        crate::seqs::filter_ends(all, tagging());
        assert(views(out@) =~= all.take(0).filter(tagging()).map_values(tag));
    }
    while i < n
        invariant
            n == found.len(),
            n == all.len(),
            i <= n,
            forall|k: int| 0 <= k < n ==> *(#[trigger] found@[k]) == all[k],
            tag == (|e: TripletEntry| e.object@),
            views(out@) == all.take(i as int).filter(tagging()).map_values(tag),
        decreases n - i,
    {
        let e = found[i];
        let ghost kept = all.take(i as int).filter(tagging());
        proof {
            crate::seqs::filter_step(all, tagging(), i as int);
            assert(*found@[i as int] == all[i as int]);
            assert(kept.push(all[i as int]).map_values(tag) =~= kept.map_values(tag).push(
                all[i as int].object@,
            ));
        }
        if str_eq(e.predicate.as_str(), "tagged") {
            let ghost was = out@;
            let copy = e.object.clone();
            out.push(copy);
            proof {
                views_push(was, copy);
            }
        }
        i = i + 1;
    }
    out
}

/// How many of the memories `ids` have each kind.
pub open spec fn kind_counts(payloads: Map<u64, MemoryPayload>, ids: Seq<u64>) -> Map<Seq<char>, nat>
    decreases ids.len(),
{
    if ids.len() == 0 {
        Map::empty()
    } else {
        let m = kind_counts(payloads, ids.drop_last());
        let k = payloads[ids.last()].kind@;
        m.insert(
            k,
            if m.contains_key(k) {
                m[k] + 1
            } else {
                1
            },
        )
    }
}

/// The counts of a table.
pub open spec fn counts(m: Map<Seq<char>, usize>) -> Map<Seq<char>, nat> {
    m.map_values(|n: usize| n as nat)
}

/// The filter that admits the memories of a realm, or all.
pub open spec fn by_realm(realm: Option<String>) -> MemoryFilter {
    MemoryFilter { kind: None, realm, min_confidence: None, min_strength: None }
}

/// Counts the live memories of a realm, or of all realms, by kind. The memories come with it.
pub fn count_by_kind(
    realm: Option<String>,
    payloads: &BTreeMap<u64, MemoryPayload>,
    states: &BTreeMap<u64, MemoryState>,
) -> (r: (Vec<u64>, Named<usize>))
    ensures
        lists_admitted(r.0@, by_realm(realm), payloads@, states@, Map::empty()),
        r.1.wf(),
        counts(r.1@) == kind_counts(payloads@, r.0@),
{
    broadcast use vstd::std_specs::btree::group_btree_axioms;

    let q = MemoryFilter { kind: None, realm, min_confidence: None, min_strength: None };
    let none: BTreeMap<u64, u32> = BTreeMap::new();
    let ids = select_memories(&q, payloads, states, &none);
    assert(none@ =~= Map::<u64, u32>::empty());
    assert(q == by_realm(realm));
    let n: usize = ids.len();
    let mut table: Named<usize> = Named::new();
    let mut i: usize = 0;
    assert(ids@.take(0) =~= Seq::<u64>::empty());
    assert(counts(table@) =~= Map::<Seq<char>, nat>::empty());
    while i < n
        invariant
            n == ids.len(),
            i <= n,
            forall|k: int| 0 <= k < n ==> payloads@.contains_key(#[trigger] ids@[k]),
            table.wf(),
            counts(table@) == kind_counts(payloads@, ids@.take(i as int)),
            forall|k: Seq<char>| #[trigger] table@.contains_key(k) ==> table@[k] <= i,
        decreases n - i,
    {
        let ghost was = table@;
        assert(payloads@.contains_key(ids@[i as int]));
        let p = payloads.get(&ids[i]).unwrap();
        let seen: usize = match table.get(p.kind.as_str()) {
            Some(c) => *c,
            None => 0,
        };
        table.insert(p.kind.clone(), seen + 1);
        proof {
            let now = ids@.take(i + 1);
            assert(now.drop_last() =~= ids@.take(i as int));
            assert(now.last() == ids@[i as int]);
            assert(counts(was).contains_key(p.kind@) <==> was.contains_key(p.kind@));
            assert(counts(table@) =~= kind_counts(payloads@, now));
        }
        i = i + 1;
    }
    assert(ids@.take(n as int) =~= ids@);
    (ids, table)
}

/// The counts by kind add up to the number of memories.
pub proof fn kind_counts_add_up(payloads: Map<u64, MemoryPayload>, ids: Seq<u64>, kind: Seq<char>)
    ensures
        ({
            let m = kind_counts(payloads, ids);
            let n = ids.filter(|id: u64| payloads[id].kind@ == kind).len();
            &&& m.contains_key(kind) <==> n > 0
            &&& m.contains_key(kind) ==> m[kind] == n
        }),
    decreases ids.len(),
{
    let same = |id: u64| payloads[id].kind@ == kind;
    if ids.len() > 0 {
        kind_counts_add_up(payloads, ids.drop_last(), kind);
        crate::seqs::filter_push(ids.drop_last(), ids.last(), same);
        assert(ids.drop_last().push(ids.last()) =~= ids);
    } else {
        crate::seqs::filter_ends(ids, same);
        assert(ids.take(0) =~= ids);
    }
}

/// A realm of some live memory.
pub open spec fn realm_in_use(
    payloads: Map<u64, MemoryPayload>,
    states: Map<u64, MemoryState>,
    realm: Seq<char>,
) -> bool {
    exists|id: u64|
        payloads.contains_key(id) && #[trigger] is_live(states, id) && payloads[id].realm@ == realm
}

/// Names in order, each once.
pub open spec fn in_order(names: Seq<Seq<char>>) -> bool {
    forall|i: int, j: int| 0 <= i < j < names.len() ==> text_before(names[i], names[j])
}

/// Puts a name where it belongs, unless it is there.
fn place_name(names: &mut Vec<String>, name: &String)
    requires
        in_order(views(old(names)@)),
    ensures
        in_order(views(final(names)@)),
        forall|s: Seq<char>| #[trigger]
            views(final(names)@).contains(s) <==> views(old(names)@).contains(s) || s == name@,
{
    let n: usize = names.len();
    let ghost before = views(names@);
    let mut i: usize = 0;
    while i < n && is_text_before(names[i].as_str(), name.as_str())
        invariant
            n == names.len(),
            i <= n,
            *names == *old(names),
            before == views(names@),
            in_order(before),
            forall|k: int| 0 <= k < i ==> text_before(#[trigger] before[k], name@),
        decreases n - i,
    {
        assert(before[i as int] == names@[i as int]@);
        i = i + 1;
    }
    if i < n && str_eq(names[i].as_str(), name.as_str()) {
        assert(before[i as int] == name@);
        return;
    }
    let copy = name.clone();
    names.insert(i, copy);
    proof {
        let after = views(names@);
        assert(after =~= before.insert(i as int, name@));
        if i < n {
            assert(before[i as int] == old(names)@[i as int]@);
            crate::text::text_order_total(before[i as int], name@);
            assert(text_before(name@, before[i as int]));
        }
        assert forall|a: int, b: int| 0 <= a < b < after.len() implies text_before(after[a], after[b]) by {
            if a == i {
                if b - 1 > i {
                    assert(text_before(before[i as int], before[b - 1]));
                    crate::text::text_order_transitive(name@, before[i as int], before[b - 1]);
                }
            } else if b == i {
                assert(text_before(before[a], name@));
            } else {
                let a2 = if a < i { a } else { a - 1 };
                let b2 = if b < i { b } else { b - 1 };
                assert(text_before(before[a2], before[b2]));
            }
        }
        assert forall|s: Seq<char>| #[trigger] after.contains(s) <==> before.contains(s) || s == name@ by {
            if after.contains(s) {
                let k = choose|k: int| 0 <= k < after.len() && after[k] == s;
                if k < i {
                    assert(before[k] == s);
                } else if k > i {
                    assert(before[k - 1] == s);
                }
            }
            if before.contains(s) {
                let k = choose|k: int| 0 <= k < before.len() && before[k] == s;
                if k < i {
                    assert(after[k] == s);
                } else {
                    assert(after[k + 1] == s);
                }
            }
            assert(after[i as int] == name@);
        }
    }
}

/// The realms of live memories, in order.
pub fn realm_list(
    payloads: &BTreeMap<u64, MemoryPayload>,
    states: &BTreeMap<u64, MemoryState>,
) -> (r: Vec<String>)
    ensures
        in_order(views(r@)),
        forall|s: Seq<char>| #[trigger]
            views(r@).contains(s) <==> realm_in_use(payloads@, states@, s),
{
    broadcast use vstd::std_specs::btree::group_btree_axioms;

    let ids = key_list(payloads);
    let n: usize = ids.len();
    let mut names: Vec<String> = Vec::new();
    let mut i: usize = 0;
    while i < n
        invariant
            n == ids.len(),
            i <= n,
            lists_keys(ids@, payloads@),
            in_order(views(names@)),
            forall|s: Seq<char>| #[trigger]
                views(names@).contains(s) ==> realm_in_use(payloads@, states@, s),
            forall|k: int|
                0 <= k < i && is_live(states@, #[trigger] ids@[k]) ==> views(names@).contains(
                    payloads@[ids@[k]].realm@,
                ),
        decreases n - i,
    {
        let id: u64 = ids[i];
        assert(payloads@.contains_key(ids@[i as int]));
        if crate::memory::live(states, id) {
            let p = payloads.get(&id).unwrap();
            assert(realm_in_use(payloads@, states@, p.realm@));
            place_name(&mut names, &p.realm);
        }
        i = i + 1;
    }
    proof {
        assert forall|s: Seq<char>| realm_in_use(payloads@, states@, s) implies #[trigger] views(
            names@,
        ).contains(s) by {
            let id = choose|id: u64|
                payloads@.contains_key(id) && #[trigger] is_live(states@, id) && payloads@[id].realm@
                    == s;
            let k = choose|k: int| 0 <= k < ids@.len() && ids@[k] == id;
            assert(is_live(states@, ids@[k]));
        }
    }
    names
}

/// A filter admits exactly the live memories that have the kind and the realm it asks for and that
/// are not below its thresholds. They are listed by rising id, each once.
pub proof fn filters_admit_what_they_ask_for(
    q: MemoryFilter,
    payloads: BTreeMap<u64, MemoryPayload>,
    states: BTreeMap<u64, MemoryState>,
    strengths: BTreeMap<u64, u32>,
    r: Vec<u64>,
    id: u64,
)
    requires
        call_ensures(select_memories, (&q, &payloads, &states, &strengths), r),
        payloads@.contains_key(id),
        states@.contains_key(id),
    ensures
        ({
            let strength = if strengths@.contains_key(id) {
                strengths@[id]
            } else {
                0
            };
            r@.contains(id) <==> {
                &&& !states@[id].deleted
                &&& q.kind is Some ==> payloads@[id].kind@ == q.kind->0@
                &&& q.realm is Some ==> payloads@[id].realm@ == q.realm->0@
                &&& q.min_confidence is Some ==> !below(states@[id].confidence, q.min_confidence->0)
                &&& q.min_strength is Some ==> !below(strength, q.min_strength->0)
            }
        }),
        forall|i: int, j: int| 0 <= i < j < r@.len() ==> r@[i] < r@[j],
{
    let met = admitted(q, payloads@, states@, strengths@);
    let all = choose|all: Seq<u64>| #[trigger] lists_keys(all, payloads@) && r@ == all.filter(met);
    filter_members(all, met);
    filter_keeps_order(all, met);
    assert(all.contains(id));
    assert(r@.contains(id) <==> met(id));
}

proof fn admitted_are_there(
    ids: Seq<u64>,
    q: MemoryFilter,
    payloads: Map<u64, MemoryPayload>,
    states: Map<u64, MemoryState>,
    strengths: Map<u64, u32>,
)
    requires
        lists_admitted(ids, q, payloads, states, strengths),
    ensures
        forall|id: u64| #[trigger] ids.contains(id) <==> payloads.contains_key(id) && admitted(
            q,
            payloads,
            states,
            strengths,
        )(id),
        forall|i: int, j: int| 0 <= i < j < ids.len() ==> ids[i] < ids[j],
{
    let met = admitted(q, payloads, states, strengths);
    let all = choose|all: Seq<u64>| #[trigger] lists_keys(all, payloads) && ids == all.filter(met);
    filter_members(all, met);
    filter_keeps_order(all, met);
    assert forall|id: u64| #[trigger] ids.contains(id) <==> payloads.contains_key(id) && met(id) by {
        if all.contains(id) {
            assert(payloads.contains_key(all[all.index_of(id)]));
        }
    }
}

/// Of two memories on a page the one in front is the later, the stronger or the more confident
/// one; of two that are equal in that, the one with the lower id.
pub proof fn pages_are_in_order(
    page: Seq<u64>,
    ids: Seq<u64>,
    by: SortBy,
    q: MemoryFilter,
    payloads: Map<u64, MemoryPayload>,
    states: Map<u64, MemoryState>,
    strengths: Map<u64, u32>,
    offset: int,
    limit: int,
    i: int,
    j: int,
)
    requires
        lists_admitted(ids, q, payloads, states, strengths),
        is_page(page, ids, scores_in(by, payloads, states, strengths, ids), offset, limit),
        0 <= offset,
        0 <= i < j < page.len(),
    ensures
        page[i] != page[j],
        by == SortBy::Recency ==> payloads[page[i]].created_at_ms >= payloads[page[j]].created_at_ms,
        by == SortBy::Recency && payloads[page[i]].created_at_ms == payloads[page[j]].created_at_ms
            ==> page[i] < page[j],
        by == SortBy::Strength && strengths.contains_key(page[i]) && strengths.contains_key(page[j])
            ==> real_rank(strengths[page[i]]) >= real_rank(strengths[page[j]]),
        by == SortBy::Confidence ==> real_rank(states[page[i]].confidence) >= real_rank(
            states[page[j]].confidence,
        ),
{
    admitted_are_there(ids, q, payloads, states, strengths);
    let scores = scores_in(by, payloads, states, strengths, ids);
    let p = choose|p: Seq<usize>|
        {
            &&& #[trigger] sorts_range(p, scores, 0, scores.len() as int)
            &&& forall|i: int| 0 <= i < page.len() ==> #[trigger] page[i] == ids[p[offset + i] as int]
        };
    let (a, b) = (p[offset + i] as int, p[offset + j] as int);
    assert(page[i] == ids[a] && page[j] == ids[b]);
    assert(sorts_before(scores, a, b));
    assert(a != b);
    assert(scores[a].score == score_of(by, payloads, states, strengths, ids[a]));
    assert(scores[b].score == score_of(by, payloads, states, strengths, ids[b]));
}

/// A page that begins at the front leaves a memory out only when it is full, and then all on it
/// are at least as late, as strong or as confident.
pub proof fn first_pages_hold_the_best(
    page: Seq<u64>,
    ids: Seq<u64>,
    by: SortBy,
    q: MemoryFilter,
    payloads: Map<u64, MemoryPayload>,
    states: Map<u64, MemoryState>,
    strengths: Map<u64, u32>,
    limit: int,
    id: u64,
    i: int,
)
    requires
        lists_admitted(ids, q, payloads, states, strengths),
        is_page(page, ids, scores_in(by, payloads, states, strengths, ids), 0, limit),
        0 <= limit,
        payloads.contains_key(id),
        admitted(q, payloads, states, strengths)(id),
    ensures
        page.contains(id) || page.len() == limit,
        !page.contains(id) && 0 <= i < page.len() ==> {
            &&& by == SortBy::Recency ==> payloads[page[i]].created_at_ms >= payloads[id].created_at_ms
            &&& by == SortBy::Confidence ==> real_rank(states[page[i]].confidence) >= real_rank(
                states[id].confidence,
            )
            &&& by == SortBy::Strength && strengths.contains_key(page[i]) && strengths.contains_key(id)
                ==> real_rank(strengths[page[i]]) >= real_rank(strengths[id])
        },
{
    admitted_are_there(ids, q, payloads, states, strengths);
    let scores = scores_in(by, payloads, states, strengths, ids);
    let p = choose|p: Seq<usize>|
        {
            &&& #[trigger] sorts_range(p, scores, 0, scores.len() as int)
            &&& forall|i: int| 0 <= i < page.len() ==> #[trigger] page[i] == ids[p[0 + i] as int]
        };
    assert(ids.contains(id));
    let k = ids.index_of(id);
    assert(lists(p, k));
    let at = choose|at: int| 0 <= at < p.len() && #[trigger] p[at] == k;
    if at < page.len() {
        assert(page[at] == ids[p[0 + at] as int]);
        assert(page[at] == id);
    } else if 0 <= i < page.len() {
        let a = p[i] as int;
        assert(page[i] == ids[p[0 + i] as int]);
        assert(sorts_before(scores, a, k));
        assert(scores[a].score == score_of(by, payloads, states, strengths, ids[a]));
        assert(scores[k].score == score_of(by, payloads, states, strengths, ids[k]));
    }
}

/// A filtered recall gives admitted memories only, and the first of them; it gives all of them
/// unless it has as many as it was asked for.
pub proof fn filtered_recalls_take_the_first(
    q: MemoryFilter,
    payloads: BTreeMap<u64, MemoryPayload>,
    states: BTreeMap<u64, MemoryState>,
    strengths: BTreeMap<u64, u32>,
    limit: usize,
    r: Vec<u64>,
    id: u64,
)
    requires
        call_ensures(recall_filtered, (&q, &payloads, &states, &strengths, limit), r),
    ensures
        r@.contains(id) ==> payloads@.contains_key(id) && admitted(q, payloads@, states@, strengths@)(id),
        payloads@.contains_key(id) && admitted(q, payloads@, states@, strengths@)(id) ==> r@.contains(id)
            || (r@.len() > 0 && r@.len() >= limit && forall|i: int| 0 <= i < r@.len() ==> r@[i] < id),
        r@.len() <= limit || r@.len() == 1,
        forall|i: int, j: int| 0 <= i < j < r@.len() ==> r@[i] < r@[j],
{
    let ids = choose|ids: Seq<u64>|
        {
            &&& #[trigger] lists_admitted(ids, q, payloads@, states@, strengths@)
            &&& r@ == ids.take(first_few(ids.len() as int, limit as int))
        };
    admitted_are_there(ids, q, payloads@, states@, strengths@);
    if r@.contains(id) {
        assert(ids[r@.index_of(id)] == id);
        assert(ids.contains(id));
    }
    if ids.contains(id) {
        let k = ids.index_of(id);
        if k < r@.len() {
            assert(r@[k] == id);
        }
    }
}

/// A recall by kind gives live members that have a payload, with their own confidence, the more
/// confident ones first and never more than it was asked for.
pub proof fn recalls_by_kind_go_by_confidence(
    members: BTreeSet<u64>,
    payloads: BTreeMap<u64, MemoryPayload>,
    states: BTreeMap<u64, MemoryState>,
    limit: usize,
    r: Vec<Confident>,
    k: int,
)
    requires
        call_ensures(recall_by_kind, (&members, &payloads, &states, limit), r),
        0 <= k < r@.len(),
    ensures
        r@.len() <= limit,
        members@.contains(r@[k].id),
        payloads@.contains_key(r@[k].id),
        states@.contains_key(r@[k].id) && !states@[r@[k].id].deleted,
        !nan(states@[r@[k].id].confidence) ==> r@[k].confidence == states@[r@[k].id].confidence,
        nan(states@[r@[k].id].confidence) ==> r@[k].confidence == 0,
{
    let (ids, top) = choose|ids: Seq<u64>, top: Seq<u64>|
        {
            &&& #[trigger] lists_live(ids, members@, states@)
            &&& #[trigger] is_page(top, ids, confidence_scores(states@, ids), 0, limit as int)
            &&& r@ == top.filter(|id: u64| payloads@.contains_key(id)).map_values(
                |id: u64| Confident { id, confidence: confidence_bits(states@[id]) },
            )
        };
    let met = |id: u64| payloads@.contains_key(id);
    let kept = top.filter(met);
    filter_members(top, met);
    top.lemma_filter_len(met);
    assert(r@[k].id == kept[k]);
    assert(kept.contains(kept[k]));
    let at = top.index_of(kept[k]);
    let scores = confidence_scores(states@, ids);
    let p = choose|p: Seq<usize>|
        {
            &&& #[trigger] sorts_range(p, scores, 0, scores.len() as int)
            &&& forall|i: int| 0 <= i < top.len() ==> #[trigger] top[i] == ids[p[0 + i] as int]
        };
    assert(top[at] == ids[p[0 + at] as int]);
    assert(ids.contains(ids[p[at] as int]));
}

/// A live member with a payload is recalled by its kind, unless the recall was cut short.
pub proof fn members_are_recalled_by_kind(
    members: BTreeSet<u64>,
    payloads: BTreeMap<u64, MemoryPayload>,
    states: BTreeMap<u64, MemoryState>,
    limit: usize,
    r: Vec<Confident>,
    id: u64,
)
    requires
        call_ensures(recall_by_kind, (&members, &payloads, &states, limit), r),
        members@.contains(id),
        payloads@.contains_key(id),
        states@.contains_key(id) && !states@[id].deleted,
    ensures
        (exists|k: int| 0 <= k < r@.len() && (#[trigger] r@[k]).id == id) || exists|top: Seq<u64>|
            {
                &&& top.len() == limit
                &&& forall|i: int|
                    0 <= i < top.len() ==> members@.contains(#[trigger] top[i]) && top[i] != id
                        && confidence_bits(states@[top[i]]) >= confidence_bits(states@[id])
                &&& #[trigger] top.no_duplicates()
            },
{
    let (ids, top) = choose|ids: Seq<u64>, top: Seq<u64>|
        {
            &&& #[trigger] lists_live(ids, members@, states@)
            &&& #[trigger] is_page(top, ids, confidence_scores(states@, ids), 0, limit as int)
            &&& r@ == top.filter(|id: u64| payloads@.contains_key(id)).map_values(
                |id: u64| Confident { id, confidence: confidence_bits(states@[id]) },
            )
        };
    let met = |id: u64| payloads@.contains_key(id);
    let kept = top.filter(met);
    filter_members(top, met);
    let scores = confidence_scores(states@, ids);
    let p = choose|p: Seq<usize>|
        {
            &&& #[trigger] sorts_range(p, scores, 0, scores.len() as int)
            &&& forall|i: int| 0 <= i < top.len() ==> #[trigger] top[i] == ids[p[0 + i] as int]
        };
    assert(ids.contains(id));
    let place = ids.index_of(id);
    assert(lists(p, place));
    let at = choose|at: int| 0 <= at < p.len() && #[trigger] p[at] == place;
    if at < top.len() {
        assert(top[at] == ids[p[0 + at] as int]);
        assert(top.contains(id));
        assert(kept.contains(id));
        let k = kept.index_of(id);
        assert(r@[k].id == id);
    } else {
        assert forall|i: int| 0 <= i < top.len() implies members@.contains(#[trigger] top[i]) && top[i]
            != id && confidence_bits(states@[top[i]]) >= confidence_bits(states@[id]) by {
            assert(top[i] == ids[p[0 + i] as int]);
            assert(ids.contains(top[i]));
            assert(sorts_before(scores, p[i] as int, p[at] as int));
        }
        assert forall|i: int, j: int| 0 <= i < j < top.len() implies top[i] != top[j] by {
            assert(top[i] == ids[p[0 + i] as int]);
            assert(top[j] == ids[p[0 + j] as int]);
            assert(sorts_before(scores, p[i] as int, p[j] as int));
            assert(p[i] != p[j]);
        }
        assert(top.no_duplicates());
    }
}

/// The tags of a memory are what the unexpired facts that name its id and tag it say, and all of
/// them.
pub proof fn tags_come_from_facts(store: TripletStore, id: u64, now_ms: i64, r: Vec<String>, tag: Seq<char>)
    requires
        call_ensures(tags_of, (&store, id, now_ms), r),
    ensures
        views(r@).contains(tag) <==> exists|k: int|
            {
                &&& 0 <= k < store.live(numeral(id as int), now_ms).len()
                &&& (#[trigger] store.live(numeral(id as int), now_ms)[k]).predicate@ == "tagged"@
                &&& store.live(numeral(id as int), now_ms)[k].object@ == tag
            },
{
    let facts = store.live(numeral(id as int), now_ms);
    let kept = facts.filter(tagging());
    filter_members(facts, tagging());
    if views(r@).contains(tag) {
        let i = views(r@).index_of(tag);
        assert(kept[i].object@ == tag);
        assert(kept.contains(kept[i]));
        let k = facts.index_of(kept[i]);
        assert(facts[k].predicate@ == "tagged"@);
    }
    if exists|k: int|
        {
            &&& 0 <= k < facts.len()
            &&& (#[trigger] facts[k]).predicate@ == "tagged"@
            &&& facts[k].object@ == tag
        } {
        let k = choose|k: int|
            {
                &&& 0 <= k < facts.len()
                &&& (#[trigger] facts[k]).predicate@ == "tagged"@
                &&& facts[k].object@ == tag
            };
        assert(facts.contains(facts[k]));
        assert(tagging()(facts[k]));
        assert(kept.contains(facts[k]));
        let i = kept.index_of(facts[k]);
        assert(views(r@)[i] == tag);
    }
}

/// The memories that are counted are the live ones of the realm, and a kind is in the table with
/// as many as have it.
pub proof fn live_memories_are_counted_by_kind(
    realm: Option<String>,
    payloads: BTreeMap<u64, MemoryPayload>,
    states: BTreeMap<u64, MemoryState>,
    r: (Vec<u64>, Named<usize>),
    id: u64,
    kind: Seq<char>,
)
    requires
        call_ensures(count_by_kind, (realm, &payloads, &states), r),
    ensures
        r.0@.contains(id) <==> {
            &&& payloads@.contains_key(id)
            &&& states@.contains_key(id) && !states@[id].deleted
            &&& realm is Some ==> payloads@[id].realm@ == realm->0@
        },
        ({
            let n = r.0@.filter(|id: u64| payloads@[id].kind@ == kind).len();
            &&& r.1@.contains_key(kind) <==> n > 0
            &&& n > 0 ==> r.1@[kind] == n
        }),
{
    admitted_are_there(r.0@, by_realm(realm), payloads@, states@, Map::empty());
    kind_counts_add_up(payloads@, r.0@, kind);
    assert(counts(r.1@).contains_key(kind) <==> r.1@.contains_key(kind));
}

/// A realm is listed when, and only when, a live memory is in it.
pub proof fn realms_in_use_are_listed(
    payloads: BTreeMap<u64, MemoryPayload>,
    states: BTreeMap<u64, MemoryState>,
    r: Vec<String>,
    id: u64,
    k: int,
)
    requires
        call_ensures(realm_list, (&payloads, &states), r),
    ensures
        payloads@.contains_key(id) && states@.contains_key(id) && !states@[id].deleted ==> views(
            r@,
        ).contains(payloads@[id].realm@),
        0 <= k < r@.len() ==> exists|m: u64|
            {
                &&& #[trigger] payloads@.contains_key(m)
                &&& states@.contains_key(m) && !states@[m].deleted
                &&& payloads@[m].realm@ == r@[k]@
            },
        forall|i: int, j: int| 0 <= i < j < r@.len() ==> text_before(r@[i]@, r@[j]@),
{
    if payloads@.contains_key(id) && states@.contains_key(id) && !states@[id].deleted {
        assert(is_live(states@, id));
        assert(realm_in_use(payloads@, states@, payloads@[id].realm@));
    }
    if 0 <= k < r@.len() {
        assert(views(r@)[k] == r@[k]@);
        assert(views(r@).contains(r@[k]@));
        assert(realm_in_use(payloads@, states@, r@[k]@));
    }
    assert forall|i: int, j: int| 0 <= i < j < r@.len() implies text_before(r@[i]@, r@[j]@) by {
        assert(text_before(views(r@)[i], views(r@)[j]));
    }
}

} // verus!
