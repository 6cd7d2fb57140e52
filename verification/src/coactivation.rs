//! How often, and in how many contexts, pairs of memories were retrieved together.
use crate::order::{lists, order_exists, sort_order, sorts_before, sorts_range, Ranked};
use crate::table::{key_list, lists_keys, lists_wide_keys, wide_key_list};
use std::collections::BTreeMap;
use vstd::prelude::*;

verus! {

/// How many distinct contexts a pair remembers.
pub const MAX_HASHES: usize = 64;

/// The largest Hebbian multiplier.
pub const MAX_MULTIPLIER: u32 = 16;

/// Co-retrieval statistics of a pair of memories.
#[derive(Debug)]
pub struct CoActivationStats {
    /// Number of co-retrievals.
    pub sim_count: u32,
    /// The distinct contexts seen last, oldest first.
    pub recent_context_hashes: Vec<u64>,
    /// Number of distinct contexts remembered.
    pub diversity_count: u16,
    pub last_seen_ms: i64,
}

/// A counter after one more event; it wraps around at the end of its range.
pub open spec fn bumped(count: u32) -> u32 {
    if count < u32::MAX {
        (count + 1) as u32
    } else {
        0
    }
}

/// The contexts remembered after one more is seen.
pub open spec fn contexts_after(seen: Seq<u64>, context_hash: u64) -> Seq<u64> {
    if seen.contains(context_hash) {
        seen
    } else if seen.len() >= MAX_HASHES {
        seen.subrange(1, seen.len() as int).push(context_hash)
    } else {
        seen.push(context_hash)
    }
}

impl Default for CoActivationStats {
    fn default() -> (r: Self)
        ensures
            r.wf(),
            blank(r),
    {
        CoActivationStats::new()
    }
}

impl CoActivationStats {
    /// At most `MAX_HASHES` contexts, none twice, and their number recorded.
    pub open spec fn wf(&self) -> bool {
        &&& self.recent_context_hashes@.len() <= MAX_HASHES
        &&& self.recent_context_hashes@.no_duplicates()
        &&& self.diversity_count == self.recent_context_hashes@.len()
    }

    /// `self` is what a co-retrieval makes of `before`.
    pub open spec fn records(&self, before: Self, context_hash: u64, ts_ms: i64) -> bool {
        &&& self.sim_count == bumped(before.sim_count)
        &&& self.last_seen_ms == ts_ms
        &&& self.recent_context_hashes@ == contexts_after(
            before.recent_context_hashes@,
            context_hash,
        )
        &&& self.diversity_count == self.recent_context_hashes@.len() as u16
    }

    pub fn new() -> (r: Self)
        ensures
            r.wf(),
            r.sim_count == 0,
            r.recent_context_hashes@ == Seq::<u64>::empty(),
            r.last_seen_ms == 0,
    {
        CoActivationStats {
            sim_count: 0,
            recent_context_hashes: Vec::new(),
            diversity_count: 0,
            last_seen_ms: 0,
        }
    }

    /// Records a co-retrieval.
    pub fn record(&mut self, context_hash: u64, ts_ms: i64)
        ensures
            final(self).records(*old(self), context_hash, ts_ms),
            old(self).wf() ==> final(self).wf(),
    {
        let ghost seen = self.recent_context_hashes@;
        self.sim_count = self.sim_count.wrapping_add(1);
        self.last_seen_ms = ts_ms;
        let n: usize = self.recent_context_hashes.len();
        let mut i: usize = 0;
        while i < n && self.recent_context_hashes[i] != context_hash
            invariant
                n == self.recent_context_hashes.len(),
                i <= n,
                self.recent_context_hashes@ == seen,
                forall|j: int| 0 <= j < i ==> seen[j] != context_hash,
            decreases n - i,
        {
            i = i + 1;
        }
        if i == n {
            if n >= MAX_HASHES {
                self.recent_context_hashes.remove(0);
                assert(self.recent_context_hashes@ =~= seen.subrange(1, seen.len() as int));
            }
            self.recent_context_hashes.push(context_hash);
        } else {
            assert(seen[i as int] == context_hash);
        }
        self.diversity_count = self.recent_context_hashes.len() as u16;
        assert(self.recent_context_hashes@ =~= contexts_after(seen, context_hash));
    }

    /// The Hebbian multiplier: retrievals times contexts, up to `MAX_MULTIPLIER`.
    pub fn hebbian_multiplier(&self) -> (r: u32)
        ensures
            r == if self.sim_count * self.diversity_count < MAX_MULTIPLIER {
                self.sim_count * self.diversity_count
            } else {
                MAX_MULTIPLIER as int
            },
    {
        let a: u64 = self.sim_count as u64;
        let b: u64 = self.diversity_count as u64;
        assert(0 <= a * b <= 0xffff_ffff * 0xffff) by (nonlinear_arith)
            requires
                a <= 0xffff_ffff,
                b <= 0xffff,
        ;
        let raw: u64 = a * b;
        if raw < MAX_MULTIPLIER as u64 {
            raw as u32
        } else {
            MAX_MULTIPLIER
        }
    }
}

/// The key of the pair `(a, b)`.
pub open spec fn pair_key(a: u64, b: u64) -> u128 {
    (a * 0x1_0000_0000_0000_0000 + b) as u128
}

pub open spec fn key_first(k: u128) -> u64 {
    (k / 0x1_0000_0000_0000_0000) as u64
}

pub open spec fn key_second(k: u128) -> u64 {
    (k % 0x1_0000_0000_0000_0000) as u64
}

proof fn pair_key_parts(a: u64, b: u64)
    ensures
        key_first(pair_key(a, b)) == a,
        key_second(pair_key(a, b)) == b,
        pair_key(a, b) == a * 0x1_0000_0000_0000_0000 + b,
{
}

proof fn key_parts_pair(k: u128)
    ensures
        pair_key(key_first(k), key_second(k)) == k,
{
}

fn make_key(a: u64, b: u64) -> (r: u128)
    ensures
        r == pair_key(a, b),
{
    (a as u128) * 0x1_0000_0000_0000_0000 + (b as u128)
}

/// Statistics of pairs of memories.
pub struct CoActivation {
    table: BTreeMap<u128, CoActivationStats>,
}

impl View for CoActivation {
    type V = Map<(u64, u64), CoActivationStats>;

    closed spec fn view(&self) -> Map<(u64, u64), CoActivationStats> {
        Map::new(
            |p: (u64, u64)| self.table@.contains_key(pair_key(p.0, p.1)),
            |p: (u64, u64)| self.table@[pair_key(p.0, p.1)],
        )
    }
}

/// The statistics of a pair; those of a pair that was never seen are blank.
pub open spec fn blank(s: CoActivationStats) -> bool {
    s.sim_count == 0 && s.recent_context_hashes@ == Seq::<u64>::empty() && s.diversity_count == 0
        && s.last_seen_ms == 0
}

/// `after` is `before` with one more co-retrieval of `p`.
pub open spec fn pair_recorded(
    before: Map<(u64, u64), CoActivationStats>,
    after: Map<(u64, u64), CoActivationStats>,
    p: (u64, u64),
    context_hash: u64,
    ts_ms: i64,
) -> bool {
    &&& after.contains_key(p)
    &&& after.remove(p) == before.remove(p)
    &&& if before.contains_key(p) {
        after[p].records(before[p], context_hash, ts_ms)
    } else {
        exists|s: CoActivationStats| #[trigger] blank(s) && after[p].records(s, context_hash, ts_ms)
    }
}

/// A pair in the list of one of its memories.
#[derive(Clone, Copy)]
pub struct PairStrength {
    pub first: u64,
    pub second: u64,
    pub sim_count: u32,
}

impl Ranked for PairStrength {
    open spec fn ahead(&self, other: &Self) -> bool {
        self.sim_count > other.sim_count
    }

    proof fn ahead_asymmetric(a: &Self, b: &Self) {
    }

    proof fn ahead_transitive(a: &Self, b: &Self, c: &Self) {
    }

    proof fn tie_transitive(a: &Self, b: &Self, c: &Self) {
    }

    fn is_ahead(&self, other: &Self) -> (r: bool) {
        self.sim_count > other.sim_count
    }
}

/// The pairs of memory `m` among `keys`, in the order of `keys`.
pub open spec fn appearances(
    keys: Seq<(u64, u64)>,
    stats: Map<(u64, u64), CoActivationStats>,
    m: u64,
) -> Seq<PairStrength>
    decreases keys.len(),
{
    if keys.len() == 0 {
        Seq::empty()
    } else {
        let p = keys.last();
        let item = PairStrength { first: p.0, second: p.1, sim_count: stats[p].sim_count };
        let front = appearances(keys.drop_last(), stats, m);
        if p.0 == m || p.1 == m {
            front.push(item)
        } else {
            front
        }
    }
}

/// The pair `p` stands beyond the first `max` places of the list of `m`, strongest pairs first.
pub open spec fn beyond(
    keys: Seq<(u64, u64)>,
    stats: Map<(u64, u64), CoActivationStats>,
    max: int,
    m: u64,
    p: (u64, u64),
) -> bool {
    let all = appearances(keys, stats, m);
    exists|order: Seq<usize>, i: int|
        {
            &&& #[trigger] sorts_range(order, all, 0, all.len() as int)
            &&& max <= i < order.len()
            &&& (#[trigger] all[order[i] as int]).first == p.0
            &&& all[order[i] as int].second == p.1
        }
}

/// `keys` lists the pairs of `stats`, each once, in rising order.
pub open spec fn lists_pairs(
    keys: Seq<(u64, u64)>,
    stats: Map<(u64, u64), CoActivationStats>,
) -> bool {
    &&& forall|i: int, j: int|
        0 <= i < j < keys.len() ==> {
            ||| (#[trigger] keys[i]).0 < (#[trigger] keys[j]).0
            ||| keys[i].0 == keys[j].0 && keys[i].1 < keys[j].1
        }
    &&& forall|i: int| 0 <= i < keys.len() ==> stats.contains_key(#[trigger] keys[i])
    &&& forall|p: (u64, u64)| #[trigger] stats.contains_key(p) ==> keys.contains(p)
}

proof fn appearances_step(
    keys: Seq<(u64, u64)>,
    stats: Map<(u64, u64), CoActivationStats>,
    m: u64,
    i: int,
)
    requires
        0 <= i < keys.len(),
    ensures
        ({
            let p = keys[i];
            let item = PairStrength { first: p.0, second: p.1, sim_count: stats[p].sim_count };
            let front = appearances(keys.take(i), stats, m);
            appearances(keys.take(i + 1), stats, m) == if p.0 == m || p.1 == m {
                front.push(item)
            } else {
                front
            }
        }),
{
    assert(keys.take(i + 1).drop_last() =~= keys.take(i));
}

/// The list of a memory holds pairs of that memory only.
proof fn appearances_belong(
    keys: Seq<(u64, u64)>,
    stats: Map<(u64, u64), CoActivationStats>,
    m: u64,
    k: int,
)
    requires
        0 <= k < appearances(keys, stats, m).len(),
    ensures
        appearances(keys, stats, m)[k].first == m || appearances(keys, stats, m)[k].second == m,
    decreases keys.len(),
{
    if keys.len() > 0 {
        let front = appearances(keys.drop_last(), stats, m);
        if k < front.len() {
            appearances_belong(keys.drop_last(), stats, m, k);
        }
    }
}

/// The list of a memory.
spec fn list_of(lists: Map<u64, Vec<PairStrength>>, m: u64) -> Seq<PairStrength> {
    if lists.contains_key(m) {
        lists[m]@
    } else {
        Seq::empty()
    }
}

fn add_appearance(lists: &mut BTreeMap<u64, Vec<PairStrength>>, m: u64, item: PairStrength)
    ensures
        forall|x: u64| #[trigger]
            list_of(final(lists)@, x) == if x == m {
                list_of(old(lists)@, x).push(item)
            } else {
                list_of(old(lists)@, x)
            },
{
    broadcast use vstd::std_specs::btree::group_btree_axioms;

    let mut v: Vec<PairStrength> = match lists.remove(&m) {
        Some(v) => v,
        None => Vec::new(),
    };
    v.push(item);
    lists.insert(m, v);
}

impl CoActivation {
    /// The number of pairs.
    pub closed spec fn size(&self) -> nat {
        self.table@.len()
    }

    pub proof fn size_counts_pairs(&self)
        ensures
            self.size() == self@.len(),
            self@.dom().finite(),
    {
        broadcast use vstd::std_specs::btree::group_btree_axioms;

        let parts = |k: u128| (key_first(k), key_second(k));
        let keys = self.table@.dom();
        assert forall|a: u128, b: u128| #[trigger] parts(a) == #[trigger] parts(b) implies a == b by {
            key_parts_pair(a);
            key_parts_pair(b);
        }
        assert(keys.map(parts) =~= self@.dom()) by {
            assert forall|p: (u64, u64)| keys.map(parts).contains(p) <==> self@.dom().contains(p) by {
                if keys.map(parts).contains(p) {
                    let k = choose|k: u128| keys.contains(k) && p == parts(k);
                    key_parts_pair(k);
                }
                if self@.dom().contains(p) {
                    pair_key_parts(p.0, p.1);
                    assert(keys.contains(pair_key(p.0, p.1)));
                    assert(parts(pair_key(p.0, p.1)) == p);
                }
            }
        }
        vstd::set_lib::lemma_map_size(keys, self@.dom(), parts);
    }

    pub fn new() -> (r: Self)
        ensures
            r@ == Map::<(u64, u64), CoActivationStats>::empty(),
    {
        let r = CoActivation { table: BTreeMap::new() };
        assert(r@ =~= Map::<(u64, u64), CoActivationStats>::empty());
        r
    }

    pub fn len(&self) -> (r: usize)
        ensures
            r == self@.len(),
    {
        broadcast use vstd::std_specs::btree::group_btree_axioms;

        proof {
            self.size_counts_pairs();
        }
        self.table.len()
    }

    pub fn get(&self, a: u64, b: u64) -> (r: Option<&CoActivationStats>)
        ensures
            r is Some <==> self@.contains_key((a, b)),
            r matches Some(s) ==> *s == self@[(a, b)],
    {
        broadcast use vstd::std_specs::btree::group_btree_axioms;

        self.table.get(&make_key(a, b))
    }

    /// Records a co-retrieval of the pair `(a, b)` and returns the Hebbian multiplier that the
    /// pair then has.
    pub fn record(&mut self, a: u64, b: u64, context_hash: u64, ts_ms: i64) -> (multiplier: u32)
        ensures
            pair_recorded(old(self)@, final(self)@, (a, b), context_hash, ts_ms),
            multiplier == multiplier_of(final(self)@[(a, b)]),
    {
        broadcast use vstd::std_specs::btree::group_btree_axioms;

        let ghost before = self@;
        let key: u128 = make_key(a, b);
        let mut stats: CoActivationStats = match self.table.remove(&key) {
            Some(s) => s,
            None => CoActivationStats::new(),
        };
        assert(!before.contains_key((a, b)) ==> blank(stats));
        stats.record(context_hash, ts_ms);
        let multiplier: u32 = stats.hebbian_multiplier();
        self.table.insert(key, stats);
        proof {
            assert forall|p: (u64, u64)| p != (a, b) implies pair_key(p.0, p.1) != key by {
                pair_key_parts(p.0, p.1);
                pair_key_parts(a, b);
            }
            assert(self@.remove((a, b)) =~= before.remove((a, b)));
        }
        multiplier
    }

    /// Forgets every pair of a memory.
    pub fn forget(&mut self, id: u64)
        ensures
            forall|p: (u64, u64)| #[trigger]
                final(self)@.contains_key(p) <==> old(self)@.contains_key(p) && p.0 != id && p.1 != id,
            forall|p: (u64, u64)| #[trigger]
                final(self)@.contains_key(p) ==> final(self)@[p] == old(self)@[p],
    {
        broadcast use vstd::std_specs::btree::group_btree_axioms;

        let ghost before = self.table@;
        let keys = wide_key_list(&self.table);
        let n: usize = keys.len();
        let mut i: usize = 0;
        while i < n
            invariant
                n == keys.len(),
                i <= n,
                lists_wide_keys(keys@, before),
                forall|k: u128| #[trigger] self.table@.contains_key(k) ==> before.contains_key(k)
                    && self.table@[k] == before[k],
                forall|j: int|
                    0 <= j < i ==> (self.table@.contains_key(#[trigger] keys@[j]) <==> key_first(keys@[j])
                        != id && key_second(keys@[j]) != id),
                forall|j: int| i <= j < n ==> self.table@.contains_key(#[trigger] keys@[j]),
            decreases n - i,
        {
            let k: u128 = keys[i];
            let a: u64 = (k / 0x1_0000_0000_0000_0000) as u64;
            let b: u64 = (k % 0x1_0000_0000_0000_0000) as u64;
            if a == id || b == id {
                self.table.remove(&k);
            }
            i = i + 1;
        }
        proof {
            assert forall|p: (u64, u64)| #[trigger]
                self@.contains_key(p) <==> old(self)@.contains_key(p) && p.0 != id && p.1 != id by {
                let k = pair_key(p.0, p.1);
                pair_key_parts(p.0, p.1);
                if before.contains_key(k) {
                    let j = choose|j: int| 0 <= j < keys@.len() && keys@[j] == k;
                    assert(self.table@.contains_key(keys@[j]) <==> key_first(keys@[j]) != id
                        && key_second(keys@[j]) != id);
                }
            }
        }
    }
}

/// The multiplier of a pair.
pub open spec fn multiplier_of(s: CoActivationStats) -> int {
    if s.sim_count * s.diversity_count < MAX_MULTIPLIER {
        s.sim_count * s.diversity_count
    } else {
        MAX_MULTIPLIER as int
    }
}

/// `after` keeps those pairs of `before` that are among the `max` strongest of both their memories.
pub open spec fn pruned(
    before: Map<(u64, u64), CoActivationStats>,
    after: Map<(u64, u64), CoActivationStats>,
    max: int,
) -> bool {
    &&& exists|keys: Seq<(u64, u64)>|
        #![trigger lists_pairs(keys, before)]
        {
            &&& lists_pairs(keys, before)
            &&& forall|p: (u64, u64)| #[trigger]
                after.contains_key(p) <==> {
                    &&& before.contains_key(p)
                    &&& !beyond(keys, before, max, p.0, p)
                    &&& !beyond(keys, before, max, p.1, p)
                }
        }
    &&& forall|p: (u64, u64)| #[trigger] after.contains_key(p) ==> after[p] == before[p]
}

/// The pairs of `stats` that memory `m` is part of.
pub open spec fn pairs_with(stats: Map<(u64, u64), CoActivationStats>, m: u64) -> Set<(u64, u64)> {
    stats.dom().filter(|p: (u64, u64)| p.0 == m || p.1 == m)
}

/// The list of a memory holds each of its pairs once.
proof fn appearances_complete(
    keys: Seq<(u64, u64)>,
    stats: Map<(u64, u64), CoActivationStats>,
    m: u64,
)
    requires
        keys.no_duplicates(),
    ensures
        ({
            let with = Set::new(|p: (u64, u64)| keys.contains(p) && (p.0 == m || p.1 == m));
            let all = appearances(keys, stats, m);
            &&& with.finite()
            &&& all.len() == with.len()
            &&& all.len() <= keys.len()
            &&& forall|p: (u64, u64)| #[trigger]
                with.contains(p) ==> exists|k: int|
                    0 <= k < all.len() && (#[trigger] all[k]).first == p.0 && all[k].second == p.1
        }),
    decreases keys.len(),
{
    let with = Set::new(|p: (u64, u64)| keys.contains(p) && (p.0 == m || p.1 == m));
    let all = appearances(keys, stats, m);
    if keys.len() == 0 {
        assert(with =~= Set::empty());
    } else {
        let front = keys.drop_last();
        let last = keys.last();
        let before = Set::new(|p: (u64, u64)| front.contains(p) && (p.0 == m || p.1 == m));
        let shorter = appearances(front, stats, m);
        appearances_complete(front, stats, m);
        assert(!front.contains(last));
        assert forall|p: (u64, u64)| keys.contains(p) <==> front.contains(p) || p == last by {
            if front.contains(p) {
                let k = choose|k: int| 0 <= k < front.len() && front[k] == p;
                assert(keys[k] == p);
            }
            if keys.contains(p) && p != last {
                let k = choose|k: int| 0 <= k < keys.len() && keys[k] == p;
                assert(front[k] == p);
            }
            if p == last {
                assert(keys[keys.len() - 1] == p);
            }
        }
        if last.0 == m || last.1 == m {
            assert(with =~= before.insert(last));
            assert forall|p: (u64, u64)| #[trigger] with.contains(p) implies exists|k: int|
                0 <= k < all.len() && (#[trigger] all[k]).first == p.0 && all[k].second == p.1 by {
                if p == last {
                    assert(all[all.len() - 1].first == p.0);
                } else {
                    assert(before.contains(p));
                    let k = choose|k: int|
                        0 <= k < shorter.len() && (#[trigger] shorter[k]).first == p.0
                            && shorter[k].second == p.1;
                    assert(all[k] == shorter[k]);
                }
            }
        } else {
            assert(with =~= before);
        }
    }
}

proof fn listed_pairs_with(
    keys: Seq<(u64, u64)>,
    stats: Map<(u64, u64), CoActivationStats>,
    m: u64,
)
    requires
        lists_pairs(keys, stats),
    ensures
        keys.no_duplicates(),
        pairs_with(stats, m).finite(),
        appearances(keys, stats, m).len() == pairs_with(stats, m).len(),
        forall|p: (u64, u64)| #[trigger]
            pairs_with(stats, m).contains(p) ==> exists|k: int|
                0 <= k < appearances(keys, stats, m).len() && (#[trigger] appearances(
                    keys,
                    stats,
                    m,
                )[k]).first == p.0 && appearances(keys, stats, m)[k].second == p.1,
        stats.dom().finite(),
        keys.len() == stats.len(),
{
    assert(keys.no_duplicates()) by {
        assert forall|i: int, j: int| 0 <= i < keys.len() && 0 <= j < keys.len() && i != j implies keys[i]
            != keys[j] by {
            if i < j {
                assert(keys[i].0 < keys[j].0 || keys[i].1 < keys[j].1);
            } else {
                assert(keys[j].0 < keys[i].0 || keys[j].1 < keys[i].1);
            }
        }
    }
    assert(stats.dom() =~= keys.to_set()) by {
        assert forall|p: (u64, u64)| keys.contains(p) implies stats.contains_key(p) by {
            let k = choose|k: int| 0 <= k < keys.len() && keys[k] == p;
            assert(stats.contains_key(keys[k]));
        }
    }
    keys.unique_seq_to_set();
    appearances_complete(keys, stats, m);
    let with = Set::new(|p: (u64, u64)| keys.contains(p) && (p.0 == m || p.1 == m));
    assert(with =~= pairs_with(stats, m));
}

/// After pruning no memory has more pairs than it may keep.
pub proof fn pruning_caps(
    before: Map<(u64, u64), CoActivationStats>,
    after: Map<(u64, u64), CoActivationStats>,
    max: int,
    m: u64,
)
    requires
        pruned(before, after, max),
        before.len() <= usize::MAX,
        0 <= max,
    ensures
        pairs_with(after, m).finite(),
        pairs_with(after, m).len() <= max,
{
    let keys = choose|keys: Seq<(u64, u64)>|
        #![trigger lists_pairs(keys, before)]
        {
            &&& lists_pairs(keys, before)
            &&& forall|p: (u64, u64)| #[trigger]
                after.contains_key(p) <==> {
                    &&& before.contains_key(p)
                    &&& !beyond(keys, before, max, p.0, p)
                    &&& !beyond(keys, before, max, p.1, p)
                }
        };
    listed_pairs_with(keys, before, m);
    let all = appearances(keys, before, m);
    appearances_complete(keys, before, m);
    let order = order_exists(all);
    let places = vstd::set_lib::set_int_range(0, max);
    let pair_at = |i: int| (all[order[i] as int].first, all[order[i] as int].second);
    vstd::set_lib::lemma_int_range(0, max);
    vstd::set_lib::lemma_map_size_bound(places, places.map(pair_at), pair_at);
    assert forall|p: (u64, u64)| pairs_with(after, m).contains(p) implies places.map(pair_at).contains(
        p,
    ) by {
        assert(pairs_with(before, m).contains(p));
        let k = choose|k: int|
            0 <= k < all.len() && (#[trigger] all[k]).first == p.0 && all[k].second == p.1;
        assert(lists(order, k));
        let i = choose|i: int| 0 <= i < order.len() && #[trigger] order[i] == k;
        if i >= max {
            assert(all[order[i] as int].first == p.0);
            assert(beyond(keys, before, max, m, p));
        }
        assert(places.contains(i) && pair_at(i) == p);
    }
    vstd::set_lib::lemma_len_subset(pairs_with(after, m), places.map(pair_at));
}

/// Pruning spares a pair whose memories have no more pairs than they may keep.
pub proof fn pruning_spares(
    before: Map<(u64, u64), CoActivationStats>,
    after: Map<(u64, u64), CoActivationStats>,
    max: int,
    p: (u64, u64),
)
    requires
        pruned(before, after, max),
        before.contains_key(p),
        pairs_with(before, p.0).len() <= max,
        pairs_with(before, p.1).len() <= max,
    ensures
        after.contains_key(p),
        after[p] == before[p],
{
    let keys = choose|keys: Seq<(u64, u64)>|
        #![trigger lists_pairs(keys, before)]
        {
            &&& lists_pairs(keys, before)
            &&& forall|p: (u64, u64)| #[trigger]
                after.contains_key(p) <==> {
                    &&& before.contains_key(p)
                    &&& !beyond(keys, before, max, p.0, p)
                    &&& !beyond(keys, before, max, p.1, p)
                }
        };
    listed_pairs_with(keys, before, p.0);
    listed_pairs_with(keys, before, p.1);
}

/// Keeps, for each memory, its `max_per_memory` strongest pairs: a pair stays when it is among the
/// strongest of both its memories. Returns the number of pairs removed.
pub fn prune_coactivation_stats(stats: &mut CoActivation, max_per_memory: usize) -> (removed: usize)
    ensures
        removed == old(stats)@.len() - final(stats)@.len(),
        pruned(old(stats)@, final(stats)@, max_per_memory as int),
{
    broadcast use vstd::std_specs::btree::group_btree_axioms;

    let ghost before = stats@;
    let ghost table = stats.table@;
    let total: usize = stats.table.len();
    let keys = wide_key_list(&stats.table);
    let ghost pairs = keys@.map_values(|k: u128| (key_first(k), key_second(k)));
    let ghost max = max_per_memory as int;
    proof {
        wide_keys_list_pairs(*stats, keys@);
    }
    let mut lists: BTreeMap<u64, Vec<PairStrength>> = BTreeMap::new();
    let n: usize = keys.len();
    let mut i: usize = 0;
    while i < n
        invariant
            n == keys.len(),
            i <= n,
            stats.table@ == table,
            stats@ == before,
            lists_wide_keys(keys@, table),
            pairs == keys@.map_values(|k: u128| (key_first(k), key_second(k))),
            forall|m: u64| #[trigger]
                list_of(lists@, m) == appearances(pairs.take(i as int), before, m),
        decreases n - i,
    {
        let k: u128 = keys[i];
        let a: u64 = (k / 0x1_0000_0000_0000_0000) as u64;
        let b: u64 = (k % 0x1_0000_0000_0000_0000) as u64;
        proof {
            key_parts_pair(k);
            assert(pairs[i as int] == (a, b));
            assert(table.contains_key(keys@[i as int]));
            assert(before[(a, b)] == table[k]);
        }
        let sim_count: u32 = match stats.table.get(&k) {
            Some(s) => s.sim_count,
            None => 0,
        };
        let item = PairStrength { first: a, second: b, sim_count };
        add_appearance(&mut lists, a, item);
        if b != a {
            add_appearance(&mut lists, b, item);
        }
        proof {
            assert forall|m: u64| #[trigger] list_of(lists@, m) == appearances(
                pairs.take(i + 1),
                before,
                m,
            ) by {
                appearances_step(pairs, before, m, i as int);
            }
        }
        i = i + 1;
    }
    assert(pairs.take(n as int) =~= pairs);
    let mems = key_list(&lists);
    let mut removed: usize = 0;
    let count: usize = mems.len();
    let mut j: usize = 0;
    while j < count
        invariant
            count == mems.len(),
            j <= count,
            lists_keys(mems@, lists@),
            max == max_per_memory,
            forall|m: u64| #[trigger] list_of(lists@, m) == appearances(pairs, before, m),
            forall|k: u128| #[trigger] stats.table@.contains_key(k) ==> table.contains_key(k)
                && stats.table@[k] == table[k],
            forall|k: u128| #[trigger] table.contains_key(k) ==> (stats.table@.contains_key(k)
                <==> !exists|x: int|
                0 <= x < j && beyond(
                    pairs,
                    before,
                    max,
                    #[trigger] mems@[x],
                    (key_first(k), key_second(k)),
                )),
            stats.table@.len() + removed == table.len(),
            table.len() == total,
        decreases count - j,
    {
        let m: u64 = mems[j];
        let ghost all = appearances(pairs, before, m);
        let ghost at_start = stats.table@;
        assert(lists@.contains_key(mems@[j as int]));
        assert(list_of(lists@, m) == all);
        match lists.get(&m) {
            Some(list) => {
                assert(list@ == all);
                let order = sort_order(list);
                let len: usize = order.len();
                let mut q: usize = max_per_memory;
                while q < len
                    invariant
                        len == order.len(),
                        len == list.len(),
                        list@ == all,
                        all == appearances(pairs, before, m),
                        max == max_per_memory,
                        max_per_memory <= q,
                        sorts_range(order@, all, 0, all.len() as int),
                        forall|k: u128| #[trigger]
                            stats.table@.contains_key(k) ==> at_start.contains_key(k)
                                && stats.table@[k] == at_start[k],
                        forall|k: u128| #[trigger]
                            at_start.contains_key(k) ==> (stats.table@.contains_key(k) <==> !exists|x: int|
                                max <= x < q && x < len && is_pair(
                                    #[trigger] all[order@[x] as int],
                                    (key_first(k), key_second(k)),
                                )),
                        stats.table@.len() + removed == table.len(),
                        table.len() == total,
                    decreases len - q,
                {
                    let place: usize = order[q];
                    let item: PairStrength = list[place];
                    let key: u128 = make_key(item.first, item.second);
                    let ghost was = stats.table@;
                    let ghost shown = all[order@[q as int] as int];
                    proof {
                        pair_key_parts(item.first, item.second);
                        assert(shown == item);
                    }
                    match stats.table.remove(&key) {
                        Some(_) => {
                            assert(was.contains_key(key));
                            assert(stats.table@ == was.remove(key));
                            assert(was.len() >= 1) by {
                                assert(was.dom().contains(key));
                                vstd::set_lib::lemma_set_empty_equivalency_len(was.dom());
                            }
                            removed = removed + 1;
                        },
                        None => {
                            assert(stats.table@ =~= was);
                        },
                    }
                    proof {
                        assert(stats.table@ =~= was.remove(key));
                        assert forall|k: u128| #[trigger] at_start.contains_key(k) implies (
                        stats.table@.contains_key(k) <==> !exists|x: int|
                            max <= x < q + 1 && x < len && is_pair(
                                #[trigger] all[order@[x] as int],
                                (key_first(k), key_second(k)),
                            )) by {
                            key_parts_pair(k);
                            if k == key {
                                assert(is_pair(
                                    all[order@[q as int] as int],
                                    (key_first(k), key_second(k)),
                                ));
                            } else if exists|x: int|
                                max <= x < q + 1 && x < len && is_pair(
                                    #[trigger] all[order@[x] as int],
                                    (key_first(k), key_second(k)),
                                ) {
                                let x = choose|x: int|
                                    max <= x < q + 1 && x < len && is_pair(
                                        #[trigger] all[order@[x] as int],
                                        (key_first(k), key_second(k)),
                                    );
                                assert(x != q);
                            }
                        }
                    }
                    q = q + 1;
                }
                proof {
                    assert forall|k: u128| #[trigger] table.contains_key(k) implies (
                    stats.table@.contains_key(k) <==> !exists|x: int|
                        0 <= x < j + 1 && beyond(
                            pairs,
                            before,
                            max,
                            #[trigger] mems@[x],
                            (key_first(k), key_second(k)),
                        )) by {
                        let p = (key_first(k), key_second(k));
                        beyond_is_by_order(pairs, before, max, m, p, order@);
                        if at_start.contains_key(k) {
                            if stats.table@.contains_key(k) {
                                assert forall|x: int| 0 <= x < j + 1 implies !beyond(
                                    pairs,
                                    before,
                                    max,
                                    #[trigger] mems@[x],
                                    p,
                                ) by {
                                    if x == j {
                                        if beyond(pairs, before, max, m, p) {
                                            let y = choose|y: int|
                                                max <= y < order@.len() && is_pair(
                                                    #[trigger] all[order@[y] as int],
                                                    p,
                                                );
                                            assert(is_pair(all[order@[y] as int], p));
                                        }
                                    }
                                }
                            } else {
                                let y = choose|y: int|
                                    max <= y < q && y < len && is_pair(
                                        #[trigger] all[order@[y] as int],
                                        p,
                                    );
                                assert(is_pair(all[order@[y] as int], p));
                                assert(beyond(pairs, before, max, mems@[j as int], p));
                            }
                        } else {
                            assert(!stats.table@.contains_key(k));
                        }
                    }
                }
            },
            None => {},
        }
        j = j + 1;
    }
    proof {
        assert forall|p: (u64, u64)| #[trigger] stats@.contains_key(p) <==> {
            &&& before.contains_key(p)
            &&& !beyond(pairs, before, max, p.0, p)
            &&& !beyond(pairs, before, max, p.1, p)
        } by {
            let k = pair_key(p.0, p.1);
            pair_key_parts(p.0, p.1);
            if table.contains_key(k) {
                if !stats.table@.contains_key(k) {
                    let x = choose|x: int|
                        0 <= x < count && beyond(pairs, before, max, #[trigger] mems@[x], p);
                    beyond_is_own(pairs, before, max, mems@[x], p);
                } else {
                    listed_or_not_beyond(lists@, mems@, pairs, before, max, p.0, p);
                    listed_or_not_beyond(lists@, mems@, pairs, before, max, p.1, p);
                }
            }
        }
        old(stats).size_counts_pairs();
        stats.size_counts_pairs();
        assert(lists_pairs(pairs, old(stats)@));
    }
    removed
}

spec fn is_pair(item: PairStrength, p: (u64, u64)) -> bool {
    item.first == p.0 && item.second == p.1
}

proof fn wide_keys_list_pairs(stats: CoActivation, keys: Seq<u128>)
    requires
        lists_wide_keys(keys, stats.table@),
    ensures
        lists_pairs(keys.map_values(|k: u128| (key_first(k), key_second(k))), stats@),
{
    let pairs = keys.map_values(|k: u128| (key_first(k), key_second(k)));
    assert forall|i: int, j: int| 0 <= i < j < pairs.len() implies {
        ||| (#[trigger] pairs[i]).0 < (#[trigger] pairs[j]).0
        ||| pairs[i].0 == pairs[j].0 && pairs[i].1 < pairs[j].1
    } by {
        assert(keys[i] < keys[j]);
    }
    assert forall|i: int| 0 <= i < pairs.len() implies stats@.contains_key(#[trigger] pairs[i]) by {
        key_parts_pair(keys[i]);
        assert(stats.table@.contains_key(keys[i]));
    }
    assert forall|p: (u64, u64)| #[trigger] stats@.contains_key(p) implies pairs.contains(p) by {
        pair_key_parts(p.0, p.1);
        let i = choose|i: int| 0 <= i < keys.len() && keys[i] == pair_key(p.0, p.1);
        assert(pairs[i] == p);
    }
}

/// Any sorting order of the list tells which pairs stand beyond its first places.
proof fn beyond_is_by_order(
    pairs: Seq<(u64, u64)>,
    stats: Map<(u64, u64), CoActivationStats>,
    max: int,
    m: u64,
    p: (u64, u64),
    order: Seq<usize>,
)
    requires
        sorts_range(
            order,
            appearances(pairs, stats, m),
            0,
            appearances(pairs, stats, m).len() as int,
        ),
    ensures
        beyond(pairs, stats, max, m, p) <==> exists|i: int|
            max <= i < order.len() && is_pair(
                #[trigger] appearances(pairs, stats, m)[order[i] as int],
                p,
            ),
{
    let all = appearances(pairs, stats, m);
    if beyond(pairs, stats, max, m, p) {
        let (other, i) = choose|other: Seq<usize>, i: int|
            {
                &&& #[trigger] sorts_range(other, all, 0, all.len() as int)
                &&& max <= i < other.len()
                &&& (#[trigger] all[other[i] as int]).first == p.0
                &&& all[other[i] as int].second == p.1
            };
        crate::order::order_is_unique(order, other, all);
        assert(is_pair(all[order[i] as int], p));
    }
    if exists|i: int| max <= i < order.len() && is_pair(#[trigger] all[order[i] as int], p) {
        let i = choose|i: int| max <= i < order.len() && is_pair(#[trigger] all[order[i] as int], p);
        assert(all[order[i] as int].first == p.0);
    }
}

/// A pair stands in the lists of its own memories only.
proof fn beyond_is_own(
    pairs: Seq<(u64, u64)>,
    stats: Map<(u64, u64), CoActivationStats>,
    max: int,
    m: u64,
    p: (u64, u64),
)
    requires
        beyond(pairs, stats, max, m, p),
        max >= 0,
    ensures
        m == p.0 || m == p.1,
{
    let all = appearances(pairs, stats, m);
    let (other, i) = choose|other: Seq<usize>, i: int|
        {
            &&& #[trigger] sorts_range(other, all, 0, all.len() as int)
            &&& max <= i < other.len()
            &&& (#[trigger] all[other[i] as int]).first == p.0
            &&& all[other[i] as int].second == p.1
        };
    appearances_belong(pairs, stats, m, other[i] as int);
}

proof fn listed_or_not_beyond(
    lists: Map<u64, Vec<PairStrength>>,
    mems: Seq<u64>,
    pairs: Seq<(u64, u64)>,
    stats: Map<(u64, u64), CoActivationStats>,
    max: int,
    m: u64,
    p: (u64, u64),
)
    requires
        lists_keys(mems, lists),
        list_of(lists, m) == appearances(pairs, stats, m),
        max >= 0,
        !exists|x: int| 0 <= x < mems.len() && beyond(pairs, stats, max, #[trigger] mems[x], p),
    ensures
        !beyond(pairs, stats, max, m, p),
{
    if lists.contains_key(m) {
        let x = choose|x: int| 0 <= x < mems.len() && mems[x] == m;
        assert(!beyond(pairs, stats, max, mems[x], p));
    }
}

/// A co-retrieval counts one more, is remembered with its context and its time, and leaves every
/// other pair alone. While there is room no context is forgotten; then it is the oldest.
pub proof fn co_retrievals_are_counted(
    before: Map<(u64, u64), CoActivationStats>,
    after: Map<(u64, u64), CoActivationStats>,
    p: (u64, u64),
    context_hash: u64,
    ts_ms: i64,
    other: (u64, u64),
)
    requires
        pair_recorded(before, after, p, context_hash, ts_ms),
    ensures
        ({
            let seen = if before.contains_key(p) {
                before[p].recent_context_hashes@
            } else {
                Seq::empty()
            };
            let now = after[p].recent_context_hashes@;
            &&& after.contains_key(p)
            &&& after[p].last_seen_ms == ts_ms
            &&& !before.contains_key(p) ==> after[p].sim_count == 1
            &&& before.contains_key(p) && before[p].sim_count < u32::MAX ==> after[p].sim_count
                == before[p].sim_count + 1
            &&& now.contains(context_hash)
            &&& seen.contains(context_hash) ==> now == seen
            &&& !seen.contains(context_hash) ==> now.last() == context_hash
            &&& !seen.contains(context_hash) && seen.len() < 64 ==> now.drop_last() == seen
            &&& !seen.contains(context_hash) && seen.len() == 64 ==> now.len() == 64 && now.drop_last()
                == seen.skip(1)
            &&& now.len() <= 64 ==> after[p].diversity_count == now.len()
            &&& other != p ==> (after.contains_key(other) <==> before.contains_key(other)) && (
            before.contains_key(other) ==> after[other] == before[other])
        }),
{
    let seen = if before.contains_key(p) {
        before[p].recent_context_hashes@
    } else {
        Seq::empty()
    };
    let now = after[p].recent_context_hashes@;
    assert(now == contexts_after(seen, context_hash));
    if !seen.contains(context_hash) {
        assert(now.last() == context_hash);
        assert(now.contains(now.last()));
        if seen.len() < 64 {
            assert(now.drop_last() =~= seen);
        } else {
            assert(now.drop_last() =~= seen.skip(1));
        }
    }
    if other != p {
        assert(after.remove(p).contains_key(other) <==> before.remove(p).contains_key(other));
        assert(after.remove(p)[other] == before.remove(p)[other]);
    }
}

/// Once a pair was retrieved in some context its multiplier is at least one, and never above
/// sixteen. It does not fall when retrievals or contexts are added.
pub proof fn multipliers_grow(a: CoActivationStats, b: CoActivationStats, ra: u32, rb: u32)
    requires
        call_ensures(CoActivationStats::hebbian_multiplier, (&a,), ra),
        call_ensures(CoActivationStats::hebbian_multiplier, (&b,), rb),
        a.sim_count <= b.sim_count,
        a.diversity_count <= b.diversity_count,
    ensures
        ra <= rb <= 16,
        a.sim_count > 0 && a.diversity_count > 0 ==> ra >= 1,
        a.sim_count == 0 || a.diversity_count == 0 ==> ra == 0,
        a.sim_count == 1 && a.diversity_count <= 16 ==> ra == a.diversity_count,
        a.diversity_count == 1 && a.sim_count <= 16 ==> ra == a.sim_count,
        a.sim_count >= 16 && a.diversity_count > 0 ==> ra == 16,
        ra == multiplier_of(a),
{
    let (x, y) = (a.sim_count as int, a.diversity_count as int);
    let (u, v) = (b.sim_count as int, b.diversity_count as int);
    assert(x * y <= u * v) by (nonlinear_arith)
        requires
            0 <= x <= u,
            0 <= y <= v,
    ;
    assert(x > 0 && y > 0 ==> x * y >= x && x * y >= y) by (nonlinear_arith);
    assert(x == 0 || y == 0 ==> x * y == 0) by (nonlinear_arith);
    assert(x == 1 ==> x * y == y) by (nonlinear_arith);
    assert(y == 1 ==> x * y == x) by (nonlinear_arith);
}

proof fn appearances_are_true(
    keys: Seq<(u64, u64)>,
    stats: Map<(u64, u64), CoActivationStats>,
    m: u64,
)
    requires
        keys.no_duplicates(),
    ensures
        forall|k: int|
            0 <= k < appearances(keys, stats, m).len() ==> {
                let item = #[trigger] appearances(keys, stats, m)[k];
                &&& keys.contains((item.first, item.second))
                &&& item.sim_count == stats[(item.first, item.second)].sim_count
                &&& item.first == m || item.second == m
            },
        forall|i: int, j: int|
            0 <= i < j < appearances(keys, stats, m).len() ==> {
                let a = #[trigger] appearances(keys, stats, m)[i];
                let b = #[trigger] appearances(keys, stats, m)[j];
                (a.first, a.second) != (b.first, b.second)
            },
    decreases keys.len(),
{
    if keys.len() > 0 {
        let front = keys.drop_last();
        appearances_are_true(front, stats, m);
        let p = keys.last();
        let before = appearances(front, stats, m);
        let all = appearances(keys, stats, m);
        assert forall|q: (u64, u64)| #[trigger] front.contains(q) implies keys.contains(q) && q != p by {
            assert(keys[front.index_of(q)] == q);
        }
        assert(keys.contains(p)) by {
            assert(keys[keys.len() - 1] == p);
        }
        assert forall|k: int| 0 <= k < before.len() implies all[k] == before[k] by {}
    }
}

/// A pair that pruning drops has, at one of its memories, as many pairs that are no weaker as a
/// memory may keep.
pub proof fn pruning_drops_the_weakest(
    before: Map<(u64, u64), CoActivationStats>,
    after: Map<(u64, u64), CoActivationStats>,
    max: int,
    p: (u64, u64),
) -> (r: (u64, Seq<(u64, u64)>))
    requires
        pruned(before, after, max),
        0 <= max,
        before.contains_key(p),
        !after.contains_key(p),
    ensures
        r.0 == p.0 || r.0 == p.1,
        r.1.len() == max,
        r.1.no_duplicates(),
        forall|i: int|
            0 <= i < max ==> {
                let q = #[trigger] r.1[i];
                &&& q != p
                &&& before.contains_key(q)
                &&& q.0 == r.0 || q.1 == r.0
                &&& before[q].sim_count >= before[p].sim_count
            },
{
    let keys = choose|keys: Seq<(u64, u64)>|
        #![trigger lists_pairs(keys, before)]
        {
            &&& lists_pairs(keys, before)
            &&& forall|p: (u64, u64)| #[trigger]
                after.contains_key(p) <==> {
                    &&& before.contains_key(p)
                    &&& !beyond(keys, before, max, p.0, p)
                    &&& !beyond(keys, before, max, p.1, p)
                }
        };
    let m = if beyond(keys, before, max, p.0, p) {
        p.0
    } else {
        p.1
    };
    let all = appearances(keys, before, m);
    let (order, i) = choose|order: Seq<usize>, i: int|
        {
            &&& #[trigger] sorts_range(order, all, 0, all.len() as int)
            &&& max <= i < order.len()
            &&& (#[trigger] all[order[i] as int]).first == p.0
            &&& all[order[i] as int].second == p.1
        };
    listed_pairs_with(keys, before, m);
    appearances_are_true(keys, before, m);
    let ahead = Seq::new(
        max as nat,
        |j: int| (all[order[j] as int].first, all[order[j] as int].second),
    );
    assert forall|j: int| 0 <= j < max implies {
        let q = #[trigger] ahead[j];
        &&& q != p
        &&& before.contains_key(q)
        &&& q.0 == m || q.1 == m
        &&& before[q].sim_count >= before[p].sim_count
    } by {
        let (a, b) = (order[j] as int, order[i] as int);
        assert(sorts_before(all, a, b));
        assert(a != b);
        assert(keys.contains((all[a].first, all[a].second)));
        assert(before.contains_key(keys[keys.index_of((all[a].first, all[a].second))]));
        assert(all[b].sim_count == before[p].sim_count);
    }
    assert forall|j: int, k: int| 0 <= j < k < max implies ahead[j] != ahead[k] by {
        let (a, b) = (order[j] as int, order[k] as int);
        assert(sorts_before(all, a, b));
        assert(a != b);
    }
    (m, ahead)
}

/// A pair that has, at one of its memories, as many stronger pairs as a memory may keep, is
/// dropped.
pub proof fn pruning_drops_what_is_outnumbered(
    before: Map<(u64, u64), CoActivationStats>,
    after: Map<(u64, u64), CoActivationStats>,
    max: int,
    p: (u64, u64),
    m: u64,
    stronger: Seq<(u64, u64)>,
)
    requires
        pruned(before, after, max),
        before.len() <= usize::MAX,
        before.contains_key(p),
        m == p.0 || m == p.1,
        stronger.len() == max,
        stronger.no_duplicates(),
        forall|i: int|
            0 <= i < max ==> {
                let q = #[trigger] stronger[i];
                &&& before.contains_key(q)
                &&& q.0 == m || q.1 == m
                &&& before[q].sim_count > before[p].sim_count
            },
    ensures
        !after.contains_key(p),
{
    let keys = choose|keys: Seq<(u64, u64)>|
        #![trigger lists_pairs(keys, before)]
        {
            &&& lists_pairs(keys, before)
            &&& forall|p: (u64, u64)| #[trigger]
                after.contains_key(p) <==> {
                    &&& before.contains_key(p)
                    &&& !beyond(keys, before, max, p.0, p)
                    &&& !beyond(keys, before, max, p.1, p)
                }
        };
    listed_pairs_with(keys, before, m);
    appearances_are_true(keys, before, m);
    let all = appearances(keys, before, m);
    assert(all.len() <= usize::MAX) by {
        appearances_complete(keys, before, m);
    }
    order_exists(all);
    let order = choose|order: Seq<usize>| sorts_range(order, all, 0, all.len() as int);
    assert(pairs_with(before, m).contains(p));
    let i = place_in(all, order, p);
    let places = Seq::new(max as nat, |j: int| place_in(all, order, stronger[j]));
    assert(lies_at(all, order, p, i)) by {
        place_found(keys, before, m, order, p);
    }
    assert forall|j: int| 0 <= j < max implies lies_at(all, order, stronger[j], #[trigger] places[j])
        && places[j] < i by {
        let q = stronger[j];
        assert(pairs_with(before, m).contains(q));
        place_found(keys, before, m, order, q);
        let k = places[j];
        assert(all[order[k] as int].sim_count == before[q].sim_count);
        assert(all[order[i] as int].sim_count == before[p].sim_count);
        if i < k {
            assert(sorts_before(all, order[i] as int, order[k] as int));
        }
    }
    assert(places.no_duplicates()) by {
        assert forall|j: int, k: int| 0 <= j < k < places.len() implies places[j] != places[k] by {
            assert(stronger[j] != stronger[k]);
            assert(lies_at(all, order, stronger[j], places[j]));
            assert(lies_at(all, order, stronger[k], places[k]));
        }
    }
    places.unique_seq_to_set();
    let below = vstd::set_lib::set_int_range(0, i);
    vstd::set_lib::lemma_int_range(0, i);
    assert forall|x: int| places.to_set().contains(x) implies below.contains(x) by {
        let j = places.index_of(x);
        assert(places[j] == x);
        assert(lies_at(all, order, stronger[j], places[j]));
    }
    vstd::set_lib::lemma_len_subset(places.to_set(), below);
    assert(max <= i);
    assert(beyond(keys, before, max, m, p)) by {
        assert(all[order[i] as int].first == p.0);
    }
}

/// The pair `q` stands at place `k` of the ordered list.
spec fn lies_at(all: Seq<PairStrength>, order: Seq<usize>, q: (u64, u64), k: int) -> bool {
    0 <= k < order.len() && all[order[k] as int].first == q.0 && all[order[k] as int].second == q.1
}

spec fn place_in(all: Seq<PairStrength>, order: Seq<usize>, q: (u64, u64)) -> int {
    choose|k: int| lies_at(all, order, q, k)
}

proof fn place_found(
    keys: Seq<(u64, u64)>,
    stats: Map<(u64, u64), CoActivationStats>,
    m: u64,
    order: Seq<usize>,
    q: (u64, u64),
)
    requires
        lists_pairs(keys, stats),
        pairs_with(stats, m).contains(q),
        sorts_range(order, appearances(keys, stats, m), 0, appearances(keys, stats, m).len() as int),
    ensures
        lies_at(
            appearances(keys, stats, m),
            order,
            q,
            place_in(appearances(keys, stats, m), order, q),
        ),
{
    listed_pairs_with(keys, stats, m);
    let all = appearances(keys, stats, m);
    let k = choose|k: int| 0 <= k < all.len() && (#[trigger] all[k]).first == q.0 && all[k].second == q.1;
    assert(lists(order, k));
    let i = choose|i: int| 0 <= i < order.len() && #[trigger] order[i] == k;
    assert(lies_at(all, order, q, i));
}

} // verus!
