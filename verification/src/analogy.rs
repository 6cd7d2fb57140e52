//! Explicit directed relation transfer over indexed triplets.
//!
//! "a is to b as c is to what?": every predicate that links `a` to `b` is followed from `c`. Only
//! stored forward edges count; nothing is inferred from similarity or from reverse edges.
use crate::ops::MemoryId;
use crate::order::{lists, order_is_unique, stable_sort, stable_sort_of, sorted_by, sorts_before, Ranked};
use crate::seqs::{filter_ends, filter_members, filter_push, filter_step};
use crate::text::{
    is_text_before, str_eq, text_before, text_order_total, text_order_transitive,
};
use crate::triplet::{queries_find_what_is_in_force, TripletEntry, TripletStore};
use crate::weight::{weight_rank, weight_rank_of};
use core::cmp::Ordering;
use vstd::prelude::*;

verus! {

/// A fact as the older store snapshots hold it.
#[derive(Clone, Debug)]
pub struct Fact {
    pub subject: String,
    pub predicate: String,
    pub object: String,
    pub memory_id: Option<MemoryId>,
}

/// The outcome of a relation transfer.
#[derive(Debug)]
pub struct RelationTransfer {
    /// The edges from the first term to the second.
    pub relations: Vec<TripletEntry>,
    /// The edges from the third term over the same predicates, in groups.
    pub results: Vec<Vec<TripletEntry>>,
    /// Why there is no result.
    pub reason: Option<&'static str>,
    /// How many facts the store held.
    pub indexed: usize,
}

/// The edge leads from `a` to `b` and was valid at `at_ms`.
pub open spec fn links(e: TripletEntry, a: Seq<char>, b: Seq<char>, at_ms: i64) -> bool {
    e.subject@ == a && e.object@ == b && e.valid_from_ms <= at_ms
}

/// Some edge of `relations` has the predicate `p`.
pub open spec fn has_predicate(relations: Seq<TripletEntry>, p: Seq<char>) -> bool {
    exists|i: int| 0 <= i < relations.len() && (#[trigger] relations[i]).predicate@ == p
}

/// The edge leads away from `c` over a predicate of `relations` and was valid at `at_ms`.
pub open spec fn follows(
    e: TripletEntry,
    c: Seq<char>,
    relations: Seq<TripletEntry>,
    at_ms: i64,
) -> bool {
    e.subject@ == c && has_predicate(relations, e.predicate@) && e.valid_from_ms <= at_ms
}

/// The valid edges from `a` to `b`.
pub open spec fn source_edges(
    store: TripletStore,
    a: Seq<char>,
    b: Seq<char>,
    at_ms: i64,
) -> Seq<TripletEntry> {
    store.live(a, at_ms).filter(|e: TripletEntry| links(e, a, b, at_ms))
}

/// The valid edges from `c` over the predicates that link `a` to `b`.
pub open spec fn target_edges(
    store: TripletStore,
    a: Seq<char>,
    b: Seq<char>,
    c: Seq<char>,
    at_ms: i64,
) -> Seq<TripletEntry> {
    let relations = source_edges(store, a, b, at_ms);
    store.live(c, at_ms).filter(|e: TripletEntry| follows(e, c, relations, at_ms))
}

pub open spec fn group_views(groups: Seq<Vec<TripletEntry>>) -> Seq<Seq<TripletEntry>> {
    groups.map_values(|g: Vec<TripletEntry>| g@)
}

/// Each edge in a group of its own.
pub open spec fn singletons(edges: Seq<TripletEntry>) -> Seq<Seq<TripletEntry>> {
    edges.map_values(|e: TripletEntry| seq![e])
}

fn shares_predicate(relations: &Vec<TripletEntry>, p: &str) -> (r: bool)
    ensures
        r == has_predicate(relations@, p@),
{
    let n: usize = relations.len();
    let mut i: usize = 0;
    while i < n
        invariant
            n == relations.len(),
            i <= n,
            forall|j: int| 0 <= j < i ==> (#[trigger] relations@[j]).predicate@ != p@,
        decreases n - i,
    {
        if str_eq(relations[i].predicate.as_str(), p) {
            return true;
        }
        i = i + 1;
    }
    false
}

/// Carries the relation between `a` and `b` over to `c`, at one point in time.
pub fn proportional(store: &TripletStore, a: &str, b: &str, c: &str, at_ms: i64) -> (r:
    RelationTransfer)
    requires
        store.wf(),
    ensures
        r.relations@ == source_edges(*store, a@, b@, at_ms),
        group_views(r.results@) == singletons(target_edges(*store, a@, b@, c@, at_ms)),
        r.reason == if source_edges(*store, a@, b@, at_ms).len() == 0 {
            Some("no_source_relation")
        } else if target_edges(*store, a@, b@, c@, at_ms).len() == 0 {
            Some("no_target_relation")
        } else {
            None
        },
        r.indexed == store.facts().len(),
{
    let from_a = store.query_subject(a, at_ms);
    let ghost all_a = store.live(a@, at_ms);
    let ghost pred_a = |e: TripletEntry| links(e, a@, b@, at_ms);
    let mut relations: Vec<TripletEntry> = Vec::new();
    let mut i: usize = 0;
    let n: usize = from_a.len();
    proof {
        filter_ends(all_a, pred_a);
    }
    while i < n
        invariant
            n == from_a.len(),
            n == all_a.len(),
            i <= n,
            all_a == store.live(a@, at_ms),
            pred_a == (|e: TripletEntry| links(e, a@, b@, at_ms)),
            forall|k: int| 0 <= k < n ==> *(#[trigger] from_a[k]) == all_a[k],
            relations@ == all_a.take(i as int).filter(pred_a),
        decreases n - i,
    {
        proof {
            filter_step(all_a, pred_a, i as int);
        }
        let e: &TripletEntry = from_a[i];
        if str_eq(e.subject.as_str(), a) && str_eq(e.object.as_str(), b) && e.valid_from_ms <= at_ms {
            relations.push(e.clone());
        }
        i = i + 1;
    }
    let ghost rel = relations@;
    let ghost all_c = store.live(c@, at_ms);
    let ghost pred_c = |e: TripletEntry| follows(e, c@, rel, at_ms);
    let mut results: Vec<Vec<TripletEntry>> = Vec::new();
    proof {
        filter_ends(all_c, pred_c);
        assert(group_views(results@) =~= singletons(Seq::empty()));
    }
    if relations.len() > 0 {
        let from_c = store.query_subject(c, at_ms);
        let m: usize = from_c.len();
        let mut j: usize = 0;
        while j < m
            invariant
                m == from_c.len(),
                m == all_c.len(),
                j <= m,
                relations@ == rel,
                all_c == store.live(c@, at_ms),
                pred_c == (|e: TripletEntry| follows(e, c@, rel, at_ms)),
                forall|k: int| 0 <= k < m ==> *(#[trigger] from_c[k]) == all_c[k],
                group_views(results@) == singletons(all_c.take(j as int).filter(pred_c)),
            decreases m - j,
        {
            proof {
                filter_step(all_c, pred_c, j as int);
            }
            let e: &TripletEntry = from_c[j];
            if str_eq(e.subject.as_str(), c) && shares_predicate(&relations, e.predicate.as_str())
                && e.valid_from_ms <= at_ms {
                let ghost was = results@;
                let mut group: Vec<TripletEntry> = Vec::new();
                group.push(e.clone());
                results.push(group);
                proof {
                    assert(group@ =~= seq![all_c[j as int]]);
                    assert(group_views(results@) =~= group_views(was).push(group@));
                    assert(singletons(all_c.take(j + 1).filter(pred_c)) =~= singletons(
                        all_c.take(j as int).filter(pred_c),
                    ).push(seq![all_c[j as int]]));
                }
            }
            j = j + 1;
        }
    } else {
        proof {
            nothing_follows(all_c, c@, rel, at_ms);
        }
    }
    assert(all_c.filter(pred_c) == target_edges(*store, a@, b@, c@, at_ms));
    proof {
        assert(singletons(all_c.filter(pred_c)).len() == results@.len());
    }
    let reason: Option<&'static str> = if relations.len() == 0 {
        Some("no_source_relation")
    } else if results.len() == 0 {
        Some("no_target_relation")
    } else {
        None
    };
    RelationTransfer { relations, results, reason, indexed: store.triplet_count() }
}

/// Without relations nothing can be followed.
proof fn nothing_follows(edges: Seq<TripletEntry>, c: Seq<char>, rel: Seq<TripletEntry>, at_ms: i64)
    requires
        rel.len() == 0,
    ensures
        edges.filter(|e: TripletEntry| follows(e, c, rel, at_ms)) == Seq::<TripletEntry>::empty(),
    decreases edges.len(),
{
    reveal(Seq::filter);
    if edges.len() > 0 {
        nothing_follows(edges.drop_last(), c, rel, at_ms);
    }
}

/// Rank of a source memory: facts without one come first.
pub open spec fn source_rank(source: Option<MemoryId>) -> int {
    match source {
        Some(id) => id as int,
        None => -1,
    }
}

/// `a` ranks in front of `b`: higher weight, then later start, then object, predicate, source
/// memory and id in rising order.
pub open spec fn edge_ahead(a: TripletEntry, b: TripletEntry) -> bool {
    if weight_rank(a.weight) != weight_rank(b.weight) {
        weight_rank(a.weight) > weight_rank(b.weight)
    } else if a.valid_from_ms != b.valid_from_ms {
        a.valid_from_ms > b.valid_from_ms
    } else if a.object@ != b.object@ {
        text_before(a.object@, b.object@)
    } else if a.predicate@ != b.predicate@ {
        text_before(a.predicate@, b.predicate@)
    } else if a.source_memory_id != b.source_memory_id {
        source_rank(a.source_memory_id) < source_rank(b.source_memory_id)
    } else {
        a.id < b.id
    }
}

fn source_order(a: Option<MemoryId>, b: Option<MemoryId>) -> (r: Ordering)
    ensures
        r is Less <==> source_rank(a) < source_rank(b),
        r is Greater <==> source_rank(b) < source_rank(a),
        r is Equal <==> a == b,
{
    match (a, b) {
        (None, None) => Ordering::Equal,
        (None, Some(_)) => Ordering::Less,
        (Some(_), None) => Ordering::Greater,
        (Some(x), Some(y)) => if x < y {
            Ordering::Less
        } else if y < x {
            Ordering::Greater
        } else {
            Ordering::Equal
        },
    }
}

fn text_order(a: &str, b: &str) -> (r: Ordering)
    ensures
        r is Less <==> text_before(a@, b@),
        r is Greater <==> text_before(b@, a@),
        r is Equal <==> a@ == b@,
{
    proof {
        text_order_total(a@, b@);
    }
    if str_eq(a, b) {
        Ordering::Equal
    } else if is_text_before(a, b) {
        Ordering::Less
    } else {
        Ordering::Greater
    }
}

/// Ranks two edges.
pub fn edge_order(a: &TripletEntry, b: &TripletEntry) -> (r: Ordering)
    ensures
        r is Less <==> edge_ahead(*a, *b),
        r is Greater <==> edge_ahead(*b, *a),
{
    proof {
        edge_order_asymmetric(*a, *b);
    }
    let wa: i64 = weight_rank_of(a.weight);
    let wb: i64 = weight_rank_of(b.weight);
    if wa != wb {
        return if wa > wb {
            Ordering::Less
        } else {
            Ordering::Greater
        };
    }
    if a.valid_from_ms != b.valid_from_ms {
        return if a.valid_from_ms > b.valid_from_ms {
            Ordering::Less
        } else {
            Ordering::Greater
        };
    }
    match text_order(a.object.as_str(), b.object.as_str()) {
        Ordering::Equal => {},
        unequal => {
            return unequal;
        },
    }
    match text_order(a.predicate.as_str(), b.predicate.as_str()) {
        Ordering::Equal => {},
        unequal => {
            return unequal;
        },
    }
    match source_order(a.source_memory_id, b.source_memory_id) {
        Ordering::Equal => {},
        unequal => {
            return unequal;
        },
    }
    if a.id < b.id {
        Ordering::Less
    } else if b.id < a.id {
        Ordering::Greater
    } else {
        Ordering::Equal
    }
}

proof fn edge_order_asymmetric(a: TripletEntry, b: TripletEntry)
    ensures
        !(edge_ahead(a, b) && edge_ahead(b, a)),
{
    text_order_total(a.object@, b.object@);
    text_order_total(a.predicate@, b.predicate@);
}

proof fn edge_order_transitive(a: TripletEntry, b: TripletEntry, c: TripletEntry)
    requires
        edge_ahead(a, b),
        edge_ahead(b, c),
    ensures
        edge_ahead(a, c),
{
    text_order_total(a.object@, b.object@);
    text_order_total(b.object@, c.object@);
    text_order_total(a.object@, c.object@);
    text_order_total(a.predicate@, b.predicate@);
    text_order_total(b.predicate@, c.predicate@);
    text_order_total(a.predicate@, c.predicate@);
    if text_before(a.object@, b.object@) && text_before(b.object@, c.object@) {
        text_order_transitive(a.object@, b.object@, c.object@);
    }
    if text_before(a.predicate@, b.predicate@) && text_before(b.predicate@, c.predicate@) {
        text_order_transitive(a.predicate@, b.predicate@, c.predicate@);
    }
}

/// Any two edges to different objects are ranked one way or the other.
pub proof fn edge_order_decides(a: TripletEntry, b: TripletEntry)
    requires
        a.object@ != b.object@,
    ensures
        edge_ahead(a, b) || edge_ahead(b, a),
        !(edge_ahead(a, b) && edge_ahead(b, a)),
{
    edge_order_asymmetric(a, b);
    text_order_total(a.object@, b.object@);
}

impl Ranked for TripletEntry {
    open spec fn ahead(&self, other: &Self) -> bool {
        edge_ahead(*self, *other)
    }

    proof fn ahead_asymmetric(a: &Self, b: &Self) {
        edge_order_asymmetric(*a, *b);
    }

    proof fn ahead_transitive(a: &Self, b: &Self, c: &Self) {
        edge_order_transitive(*a, *b, *c);
    }

    proof fn tie_transitive(a: &Self, b: &Self, c: &Self) {
        if edge_ahead(*a, *c) {
            text_order_total(a.object@, b.object@);
            text_order_total(b.object@, c.object@);
            text_order_total(a.object@, c.object@);
            text_order_total(a.predicate@, b.predicate@);
            text_order_total(b.predicate@, c.predicate@);
            text_order_total(a.predicate@, c.predicate@);
            if text_before(b.object@, a.object@) && text_before(a.object@, c.object@) {
                text_order_transitive(b.object@, a.object@, c.object@);
            }
            if text_before(a.object@, c.object@) && text_before(c.object@, b.object@) {
                text_order_transitive(a.object@, c.object@, b.object@);
            }
            if text_before(b.predicate@, a.predicate@) && text_before(a.predicate@, c.predicate@) {
                text_order_transitive(b.predicate@, a.predicate@, c.predicate@);
            }
            if text_before(a.predicate@, c.predicate@) && text_before(c.predicate@, b.predicate@) {
                text_order_transitive(a.predicate@, c.predicate@, b.predicate@);
            }
        }
    }

    fn is_ahead(&self, other: &Self) -> (r: bool) {
        match edge_order(self, other) {
            Ordering::Less => true,
            _ => false,
        }
    }
}

/// The edges to one object. Groups rank by their best edge; empty ones come last.
pub struct Citations {
    pub edges: Vec<TripletEntry>,
}

pub open spec fn group_ahead(a: Seq<TripletEntry>, b: Seq<TripletEntry>) -> bool {
    a.len() > 0 && (b.len() == 0 || edge_ahead(a[0], b[0]))
}

impl Ranked for Citations {
    open spec fn ahead(&self, other: &Self) -> bool {
        group_ahead(self.edges@, other.edges@)
    }

    proof fn ahead_asymmetric(a: &Self, b: &Self) {
        if a.edges@.len() > 0 && b.edges@.len() > 0 {
            edge_order_asymmetric(a.edges@[0], b.edges@[0]);
        }
    }

    proof fn ahead_transitive(a: &Self, b: &Self, c: &Self) {
        if c.edges@.len() > 0 {
            edge_order_transitive(a.edges@[0], b.edges@[0], c.edges@[0]);
        }
    }

    proof fn tie_transitive(a: &Self, b: &Self, c: &Self) {
        if a.edges@.len() > 0 && b.edges@.len() > 0 && c.edges@.len() > 0 {
            TripletEntry::tie_transitive(&a.edges@[0], &b.edges@[0], &c.edges@[0]);
        }
    }

    fn is_ahead(&self, other: &Self) -> (r: bool) {
        if self.edges.len() == 0 {
            false
        } else if other.edges.len() == 0 {
            true
        } else {
            self.edges[0].is_ahead(&other.edges[0])
        }
    }
}

/// Whether an edge leads to `o`.
pub open spec fn leads_to(o: Seq<char>) -> spec_fn(TripletEntry) -> bool {
    |e: TripletEntry| e.object@ == o
}

/// `groups` holds the edges by object: one group for each object that an edge leads to, each
/// group the ranked edges to its object, the groups ranked by their best edges.
pub open spec fn ranks_groups(groups: Seq<Seq<TripletEntry>>, edges: Seq<TripletEntry>) -> bool {
    &&& forall|g: int|
        0 <= g < groups.len() ==> (#[trigger] groups[g]).len() > 0 && stable_sort_of(
            groups[g],
            edges.filter(leads_to(groups[g][0].object@)),
        )
    &&& forall|i: int| 0 <= i < edges.len() ==> has_group(groups, (#[trigger] edges[i]).object@)
    &&& forall|g: int, h: int|
        0 <= g < h < groups.len() ==> edge_ahead((#[trigger] groups[g])[0], (#[trigger] groups[h])[0])
            && groups[g][0].object@ != groups[h][0].object@
}

/// Some group holds the edges to `o`.
pub open spec fn has_group(groups: Seq<Seq<TripletEntry>>, o: Seq<char>) -> bool {
    exists|g: int| 0 <= g < groups.len() && (#[trigger] groups[g]).len() > 0 && groups[g][0].object@ == o
}

/// Groups in which the edges stand as they came: one group for each object.
spec fn collects(groups: Seq<Seq<TripletEntry>>, edges: Seq<TripletEntry>) -> bool {
    &&& forall|g: int|
        0 <= g < groups.len() ==> (#[trigger] groups[g]).len() > 0 && groups[g] == edges.filter(
            leads_to(groups[g][0].object@),
        )
    &&& forall|i: int| 0 <= i < edges.len() ==> has_group(groups, (#[trigger] edges[i]).object@)
    &&& forall|g: int, h: int|
        0 <= g < h < groups.len() ==> (#[trigger] groups[g])[0].object@ != (
        #[trigger] groups[h])[0].object@
}

proof fn collects_one_more(
    before: Seq<Seq<TripletEntry>>,
    after: Seq<Seq<TripletEntry>>,
    edges: Seq<TripletEntry>,
    e: TripletEntry,
    k: int,
)
    requires
        collects(before, edges),
        0 <= k <= before.len(),
        k < before.len() ==> before[k][0].object@ == e.object@ && after == before.update(
            k,
            before[k].push(e),
        ),
        k == before.len() ==> !has_group(before, e.object@) && after == before.push(seq![e]),
    ensures
        collects(after, edges.push(e)),
{
    let more = edges.push(e);
    assert forall|g: int| 0 <= g < after.len() implies (#[trigger] after[g]).len() > 0 && after[g]
        == more.filter(leads_to(after[g][0].object@)) by {
        filter_push(edges, e, leads_to(after[g][0].object@));
        if g < before.len() {
            assert(before[g].len() > 0);
            if g != k {
                if k < before.len() {
                    if g < k {
                        assert(before[g][0].object@ != before[k][0].object@);
                    } else {
                        assert(before[k][0].object@ != before[g][0].object@);
                    }
                } else {
                    assert(before[g][0].object@ != e.object@);
                }
            }
        } else {
            nobody_leads_to(edges, before, e.object@);
        }
    }
    assert forall|i: int| 0 <= i < more.len() implies has_group(after, (#[trigger] more[i]).object@) by {
        if i < edges.len() {
            assert(has_group(before, edges[i].object@));
            let g = choose|g: int|
                0 <= g < before.len() && (#[trigger] before[g]).len() > 0 && before[g][0].object@
                    == edges[i].object@;
            assert(after[g].len() > 0);
            assert(after[g][0] == before[g][0]);
        } else {
            assert(after[k].len() > 0);
            assert(after[k][0].object@ == e.object@);
        }
    }
    assert forall|g: int, h: int| 0 <= g < h < after.len() implies (#[trigger] after[g])[0].object@ != (
    #[trigger] after[h])[0].object@ by {
        assert(before[g].len() > 0);
        if h < before.len() {
            assert(before[h].len() > 0);
            assert(before[g][0].object@ != before[h][0].object@);
        }
    }
}

/// An object without a group has no edges.
proof fn nobody_leads_to(edges: Seq<TripletEntry>, groups: Seq<Seq<TripletEntry>>, o: Seq<char>)
    requires
        forall|i: int| 0 <= i < edges.len() ==> has_group(groups, (#[trigger] edges[i]).object@),
        !has_group(groups, o),
    ensures
        edges.filter(leads_to(o)) == Seq::<TripletEntry>::empty(),
    decreases edges.len(),
{
    reveal(Seq::filter);
    if edges.len() > 0 {
        assert(has_group(groups, edges.last().object@));
        let rest = edges.drop_last();
        assert forall|i: int| 0 <= i < rest.len() implies has_group(groups, (#[trigger] rest[i]).object@) by {
            assert(has_group(groups, edges[i].object@));
        }
        nobody_leads_to(rest, groups, o);
    }
}

/// Puts each edge into the group of its object.
fn collect_groups(edges: Vec<TripletEntry>) -> (groups: Vec<Vec<TripletEntry>>)
    ensures
        collects(group_views(groups@), edges@),
{
    let ghost all = edges@;
    let mut groups: Vec<Vec<TripletEntry>> = Vec::new();
    for e in it: edges
        invariant
            it.seq() == all,
            collects(group_views(groups@), all.take(it.index() as int)),
    {
        let ghost seen = all.take(it.index() as int);
        let ghost before = group_views(groups@);
        let n: usize = groups.len();
        let mut k: usize = 0;
        while k < n && !(groups[k].len() > 0 && str_eq(
            groups[k][0].object.as_str(),
            e.object.as_str(),
        ))
            invariant
                n == groups.len(),
                k <= n,
                forall|g: int|
                    0 <= g < k ==> !((#[trigger] groups@[g])@.len() > 0 && groups@[g]@[0].object@
                        == e.object@),
            decreases n - k,
        {
            k = k + 1;
        }
        let ghost item = e;
        let ghost was = groups@;
        if k < n {
            groups[k].push(e);
            assert(group_views(groups@) =~= before.update(k as int, before[k as int].push(item)));
        } else {
            proof {
                if has_group(before, item.object@) {
                    let g = choose|g: int|
                        0 <= g < before.len() && (#[trigger] before[g]).len() > 0
                            && before[g][0].object@ == item.object@;
                    assert(was[g]@.len() > 0);
                }
            }
            let mut group: Vec<TripletEntry> = Vec::new();
            group.push(e);
            groups.push(group);
            assert(group@ =~= seq![item]);
            assert(group_views(groups@) =~= before.push(seq![item]));
        }
        proof {
            collects_one_more(before, group_views(groups@), seen, item, k as int);
            assert(all.take(it.index() + 1) =~= seen.push(item));
        }
    }
    assert(all.take(all.len() as int) =~= all);
    groups
}

/// Ranks every group and then the groups.
fn rank_groups(groups: Vec<Vec<TripletEntry>>, Ghost(edges): Ghost<Seq<TripletEntry>>) -> (out: Vec<
    Vec<TripletEntry>,
>)
    requires
        collects(group_views(groups@), edges),
    ensures
        ranks_groups(group_views(out@), edges),
{
    let ghost raw = group_views(groups@);
    let ghost raw_vecs = groups@;
    let mut ranked: Vec<Citations> = Vec::new();
    for g in it: groups
        invariant
            it.seq() == raw_vecs,
            ranked.len() == it.index(),
            forall|k: int|
                0 <= k < ranked.len() ==> stable_sort_of((#[trigger] ranked@[k]).edges@, raw_vecs[k]@),
    {
        ranked.push(Citations { edges: stable_sort(g) });
    }
    let ghost heads = ranked@;
    proof {
        assert forall|k: int| 0 <= k < heads.len() implies (#[trigger] heads[k]).edges@.len() > 0
            && heads[k].edges@[0].object@ == raw[k][0].object@ by {
            assert(raw[k].len() > 0);
            let p = choose|p: Seq<usize>| #[trigger] sorted_by(heads[k].edges@, raw_vecs[k]@, p);
            assert(heads[k].edges@[0] == raw[k][p[0] as int]);
            filtered_leads_to(edges, raw[k][0].object@, p[0] as int);
        }
    }
    let sorted = stable_sort(ranked);
    let ghost p = choose|p: Seq<usize>| #[trigger] sorted_by(sorted@, heads, p);
    let ghost sorted_seq = sorted@;
    proof {
        crate::order::order_lists_once(p, heads);
    }
    let mut out: Vec<Vec<TripletEntry>> = Vec::new();
    for c in it: sorted
        invariant
            it.seq() == sorted_seq,
            out.len() == it.index(),
            forall|k: int| 0 <= k < out.len() ==> (#[trigger] out@[k]) == sorted_seq[k].edges,
    {
        out.push(c.edges);
    }
    proof {
        let fin = group_views(out@);
        assert forall|g: int| 0 <= g < fin.len() implies (#[trigger] fin[g]).len() > 0 && stable_sort_of(
            fin[g],
            edges.filter(leads_to(fin[g][0].object@)),
        ) by {
            let k = p[g] as int;
            assert(sorted_seq[g] == heads[k]);
            assert(heads[k].edges@.len() > 0);
            assert(raw[k].len() > 0);
        }
        assert forall|i: int| 0 <= i < edges.len() implies has_group(fin, (#[trigger] edges[i]).object@) by {
            assert(has_group(raw, edges[i].object@));
            let k = choose|k: int|
                0 <= k < raw.len() && (#[trigger] raw[k]).len() > 0 && raw[k][0].object@
                    == edges[i].object@;
            assert(heads[k].edges@.len() > 0);
            assert(lists(p, k));
            let g = choose|g: int| 0 <= g < p.len() && #[trigger] p[g] == k;
            assert(sorted_seq[g] == heads[k]);
            assert(fin[g].len() > 0);
        }
        assert forall|g: int, h: int| 0 <= g < h < fin.len() implies edge_ahead(
            (#[trigger] fin[g])[0],
            (#[trigger] fin[h])[0],
        ) && fin[g][0].object@ != fin[h][0].object@ by {
            let a = p[g] as int;
            let b = p[h] as int;
            assert(sorted_seq[g] == heads[a]);
            assert(sorted_seq[h] == heads[b]);
            assert(a != b);
            assert(heads[a].edges@.len() > 0);
            assert(heads[b].edges@.len() > 0);
            if a < b {
                assert(raw[a][0].object@ != raw[b][0].object@);
            } else {
                assert(raw[b][0].object@ != raw[a][0].object@);
            }
            edge_order_decides(heads[a].edges@[0], heads[b].edges@[0]);
            assert(sorts_before(heads, a, b));
        }
    }
    out
}

proof fn filtered_leads_to(edges: Seq<TripletEntry>, o: Seq<char>, i: int)
    requires
        0 <= i < edges.filter(leads_to(o)).len(),
    ensures
        edges.filter(leads_to(o))[i].object@ == o,
{
    edges.lemma_filter_pred(leads_to(o), i);
}

impl RelationTransfer {
    /// Ranks the relations, gathers the results by object with all their citations, ranks both
    /// the citations and the groups, and keeps the best `limit` groups (at least one).
    pub fn rank(&mut self, limit: usize)
        ensures
            ranked(*final(self), *old(self), limit as int),
    {
        let ghost given = group_views(self.results@);
        let mut relations: Vec<TripletEntry> = Vec::new();
        core::mem::swap(&mut relations, &mut self.relations);
        self.relations = stable_sort(relations);
        let mut results: Vec<Vec<TripletEntry>> = Vec::new();
        core::mem::swap(&mut results, &mut self.results);
        let edges = flatten_groups(results);
        let ghost all = edges@;
        let groups = collect_groups(edges);
        let mut ranked = rank_groups(groups, Ghost(all));
        let ghost full = group_views(ranked@);
        let keep: usize = if limit == 0 {
            1
        } else {
            limit
        };
        if keep < ranked.len() {
            ranked.truncate(keep);
        }
        assert(group_views(ranked@) =~= kept_groups(full, limit as int));
        self.results = ranked;
        assert(ranks_groups(full, given.flatten()));
    }
}

/// `after` is `before` with its relations ranked, and with the best `limit` groups of its results
/// (at least one).
pub open spec fn ranked(after: RelationTransfer, before: RelationTransfer, limit: int) -> bool {
    &&& stable_sort_of(after.relations@, before.relations@)
    &&& exists|groups: Seq<Seq<TripletEntry>>|
        {
            &&& #[trigger] ranks_groups(groups, group_views(before.results@).flatten())
            &&& group_views(after.results@) == kept_groups(groups, limit)
        }
    &&& after.reason == before.reason
    &&& after.indexed == before.indexed
}

/// There is one way only to rank edges in groups.
proof fn ranking_is_unique(
    x: Seq<Seq<TripletEntry>>,
    y: Seq<Seq<TripletEntry>>,
    edges: Seq<TripletEntry>,
)
    requires
        ranks_groups(x, edges),
        ranks_groups(y, edges),
    ensures
        x == y,
{
    no_group_more(x, y, edges);
    no_group_more(y, x, edges);
    rankings_agree(x, y, edges, x.len() as int);
    assert(x =~= y);
}

/// The group of an object is the same in two rankings.
proof fn same_group(
    x: Seq<Seq<TripletEntry>>,
    y: Seq<Seq<TripletEntry>>,
    edges: Seq<TripletEntry>,
    i: int,
) -> (j: int)
    requires
        ranks_groups(x, edges),
        ranks_groups(y, edges),
        0 <= i < x.len(),
    ensures
        0 <= j < y.len(),
        y[j] == x[i],
{
    let o = x[i][0].object@;
    let own = edges.filter(leads_to(o));
    assert(stable_sort_of(x[i], own));
    let p = choose|p: Seq<usize>| #[trigger] sorted_by(x[i], own, p);
    assert(own.len() > 0);
    filtered_leads_to(edges, o, 0);
    assert(own.contains(own[0]));
    edges.lemma_filter_contains_rev(leads_to(o), own[0]);
    let k = choose|k: int| 0 <= k < edges.len() && edges[k] == own[0];
    assert(has_group(y, edges[k].object@));
    let j = choose|j: int| 0 <= j < y.len() && (#[trigger] y[j]).len() > 0 && y[j][0].object@ == o;
    assert(stable_sort_of(y[j], own));
    same_sort(x[i], y[j], own);
    j
}

/// There is one stable sort only.
proof fn same_sort(x: Seq<TripletEntry>, y: Seq<TripletEntry>, v: Seq<TripletEntry>)
    requires
        stable_sort_of(x, v),
        stable_sort_of(y, v),
    ensures
        x == y,
{
    let p = choose|p: Seq<usize>| #[trigger] sorted_by(x, v, p);
    let q = choose|q: Seq<usize>| #[trigger] sorted_by(y, v, q);
    order_is_unique(p, q, v);
    assert(x =~= y);
}

proof fn rankings_agree(
    x: Seq<Seq<TripletEntry>>,
    y: Seq<Seq<TripletEntry>>,
    edges: Seq<TripletEntry>,
    n: int,
)
    requires
        ranks_groups(x, edges),
        ranks_groups(y, edges),
        0 <= n <= x.len(),
        n <= y.len(),
    ensures
        forall|i: int| 0 <= i < n ==> x[i] == y[i],
    decreases n,
{
    if n > 0 {
        let k = n - 1;
        rankings_agree(x, y, edges, k);
        let j = same_group(x, y, edges, k);
        let i = same_group(y, x, edges, k);
        assert(x[k].len() > 0 && y[k].len() > 0);
        if j < k {
            assert(x[j] == y[j]);
            assert(x[j][0].object@ != x[k][0].object@);
        }
        if i < k {
            assert(x[i] == y[i]);
            assert(y[i][0].object@ != y[k][0].object@);
        }
        if j > k && i > k {
            assert(edge_ahead(y[k][0], y[j][0]));
            assert(edge_ahead(x[k][0], x[i][0]));
            edge_order_asymmetric(x[k][0], y[k][0]);
        }
    }
}

proof fn no_group_more(
    x: Seq<Seq<TripletEntry>>,
    y: Seq<Seq<TripletEntry>>,
    edges: Seq<TripletEntry>,
)
    requires
        ranks_groups(x, edges),
        ranks_groups(y, edges),
    ensures
        y.len() <= x.len(),
{
    if x.len() < y.len() {
        let n = x.len() as int;
        rankings_agree(x, y, edges, n);
        let j = same_group(y, x, edges, n);
        assert(x[j] == y[j]);
        assert(y[j].len() > 0);
        assert(y[j][0].object@ != y[n][0].object@);
    }
}

/// What is sorted already stays as it is.
proof fn sorted_stays(x: Seq<TripletEntry>, v: Seq<TripletEntry>)
    requires
        stable_sort_of(x, v),
    ensures
        stable_sort_of(x, x),
{
    let p = choose|p: Seq<usize>| #[trigger] sorted_by(x, v, p);
    let q = Seq::new(x.len(), |i: int| i as usize);
    assert forall|k: int| 0 <= k < x.len() implies q[k] == k && #[trigger] lists(q, k) by {
        assert(lists(p, k));
        assert(q[k] == k);
    }
    assert forall|i: int, j: int| 0 <= i < j < q.len() implies sorts_before(
        x,
        (#[trigger] q[i]) as int,
        (#[trigger] q[j]) as int,
    ) by {
        assert(lists(q, i) && lists(q, j));
        assert(sorts_before(v, p[i] as int, p[j] as int));
        TripletEntry::ahead_asymmetric(&x[i], &x[j]);
    }
    assert forall|i: int| 0 <= i < x.len() implies #[trigger] x[i] == x[q[i] as int] by {
        assert(lists(q, i));
    }
    assert forall|i: int| 0 <= i < q.len() implies 0 <= #[trigger] q[i] < x.len() by {
        assert(lists(q, i));
    }
    assert(sorted_by(x, x, q));
}

/// Of groups with different objects, the edges to the object of one are that group.
proof fn group_among(groups: Seq<Seq<TripletEntry>>, o: Seq<char>)
    requires
        forall|g: int, i: int|
            0 <= g < groups.len() && 0 <= i < groups[g].len() ==> (#[trigger] groups[g][i]).object@
                == groups[g][0].object@,
        forall|g: int| 0 <= g < groups.len() ==> (#[trigger] groups[g]).len() > 0,
        forall|g: int, h: int|
            0 <= g < h < groups.len() ==> (#[trigger] groups[g])[0].object@ != (
            #[trigger] groups[h])[0].object@,
    ensures
        forall|g: int|
            0 <= g < groups.len() && (#[trigger] groups[g])[0].object@ == o
                ==> groups.flatten().filter(leads_to(o)) == groups[g],
        (forall|g: int| 0 <= g < groups.len() ==> (#[trigger] groups[g])[0].object@ != o)
            ==> groups.flatten().filter(leads_to(o)) == Seq::<TripletEntry>::empty(),
    decreases groups.len(),
{
    reveal(Seq::filter);
    groups.lemma_flatten_and_flatten_alt_are_equivalent();
    if groups.len() > 0 {
        let front = groups.drop_last();
        let last = groups.last();
        front.lemma_flatten_and_flatten_alt_are_equivalent();
        assert forall|g: int, i: int| 0 <= g < front.len() && 0 <= i < front[g].len() implies (
        #[trigger] front[g][i]).object@ == front[g][0].object@ by {
            assert(groups[g][i].object@ == groups[g][0].object@);
        }
        group_among(front, o);
        Seq::filter_distributes_over_add(front.flatten(), last, leads_to(o));
        assert(groups.flatten() =~= front.flatten() + last);
        assert forall|i: int| 0 <= i < last.len() implies (#[trigger] last[i]).object@
            == last[0].object@ by {
            assert(groups[groups.len() - 1][i].object@ == groups[groups.len() - 1][0].object@);
        }
        if last[0].object@ == o {
            all_or_none(last, o);
            assert forall|g: int| 0 <= g < front.len() implies (#[trigger] front[g])[0].object@ != o by {
                assert(groups[g][0].object@ != groups[groups.len() - 1][0].object@);
            }
            assert(groups.flatten().filter(leads_to(o)) =~= last);
        } else {
            all_or_none(last, o);
            assert(groups.flatten().filter(leads_to(o)) =~= front.flatten().filter(leads_to(o)));
            assert forall|g: int|
                0 <= g < groups.len() && (#[trigger] groups[g])[0].object@ == o implies groups.flatten().filter(
                leads_to(o),
            ) == groups[g] by {
                assert(front[g] == groups[g]);
            }
            if forall|g: int| 0 <= g < groups.len() ==> (#[trigger] groups[g])[0].object@ != o {
                assert forall|g: int| 0 <= g < front.len() implies (#[trigger] front[g])[0].object@ != o by {
                    assert(groups[g][0].object@ != o);
                }
            }
        }
    }
}

/// A filter that all or no edges of a group pass.
proof fn all_or_none(group: Seq<TripletEntry>, o: Seq<char>)
    requires
        forall|i: int|
            0 <= i < group.len() ==> (#[trigger] group[i]).object@ == group[0].object@,
    ensures
        group.len() > 0 && group[0].object@ == o ==> group.filter(leads_to(o)) == group,
        group.len() > 0 && group[0].object@ != o ==> group.filter(leads_to(o)) == Seq::<
            TripletEntry,
        >::empty(),
        group.len() == 0 ==> group.filter(leads_to(o)) == Seq::<TripletEntry>::empty(),
    decreases group.len(),
{
    reveal(Seq::filter);
    if group.len() > 0 {
        let front = group.drop_last();
        all_or_none(front, o);
        assert(group.last().object@ == group[0].object@);
        assert(group =~= front.push(group.last()));
        if front.len() == 0 {
            assert(front =~= Seq::<TripletEntry>::empty());
        }
    }
}

/// Groups that were kept of a ranking are a ranking of their own edges.
proof fn kept_ranking(groups: Seq<Seq<TripletEntry>>, edges: Seq<TripletEntry>, limit: int)
    requires
        ranks_groups(groups, edges),
    ensures
        ranks_groups(kept_groups(groups, limit), kept_groups(groups, limit).flatten()),
{
    let kept = kept_groups(groups, limit);
    assert forall|g: int| 0 <= g < kept.len() implies #[trigger] kept[g] == groups[g] by {}
    assert forall|g: int, i: int| 0 <= g < kept.len() && 0 <= i < kept[g].len() implies (
    #[trigger] kept[g][i]).object@ == kept[g][0].object@ by {
        let o = groups[g][0].object@;
        let own = edges.filter(leads_to(o));
        assert(stable_sort_of(groups[g], own));
        let p = choose|p: Seq<usize>| #[trigger] sorted_by(groups[g], own, p);
        assert(groups[g][i] == own[p[i] as int]);
        filtered_leads_to(edges, o, p[i] as int);
    }
    assert forall|g: int, h: int| 0 <= g < h < kept.len() implies edge_ahead(
        (#[trigger] kept[g])[0],
        (#[trigger] kept[h])[0],
    ) && kept[g][0].object@ != kept[h][0].object@ by {
        assert(edge_ahead(groups[g][0], groups[h][0]));
    }
    assert forall|g: int| 0 <= g < kept.len() implies (#[trigger] kept[g]).len() > 0
        && stable_sort_of(kept[g], kept.flatten().filter(leads_to(kept[g][0].object@))) by {
        assert(groups[g].len() > 0);
        let o = kept[g][0].object@;
        assert(stable_sort_of(groups[g], edges.filter(leads_to(o))));
        sorted_stays(kept[g], edges.filter(leads_to(o)));
        group_among(kept, o);
    }
    let all = kept.flatten();
    assert forall|i: int| 0 <= i < all.len() implies has_group(kept, (#[trigger] all[i]).object@) by {
        let o = all[i].object@;
        group_among(kept, o);
        all.lemma_filter_contains(leads_to(o), i);
        if forall|g: int| 0 <= g < kept.len() ==> (#[trigger] kept[g])[0].object@ != o {
            assert(false);
        }
        let g = choose|g: int| 0 <= g < kept.len() && (#[trigger] kept[g])[0].object@ == o;
        assert(kept[g].len() > 0);
    }
}

/// Ranking with one limit and then with another is ranking once with the smaller one.
pub proof fn ranking_twice(
    start: RelationTransfer,
    once: RelationTransfer,
    twice: RelationTransfer,
    direct: RelationTransfer,
    first: int,
    second: int,
)
    requires
        ranked(once, start, first),
        ranked(twice, once, second),
        ranked(direct, start, if first <= second { first } else { second }),
    ensures
        group_views(twice.results@) == group_views(direct.results@),
        twice.relations@ == direct.relations@,
        twice.reason == direct.reason,
        twice.indexed == direct.indexed,
{
    let smaller = if first <= second { first } else { second };
    let edges = group_views(start.results@).flatten();
    let x = choose|groups: Seq<Seq<TripletEntry>>|
        #[trigger] ranks_groups(groups, edges) && group_views(once.results@) == kept_groups(
            groups,
            first,
        );
    let y = choose|groups: Seq<Seq<TripletEntry>>|
        #[trigger] ranks_groups(groups, group_views(once.results@).flatten()) && group_views(
            twice.results@,
        ) == kept_groups(groups, second);
    let z = choose|groups: Seq<Seq<TripletEntry>>|
        #[trigger] ranks_groups(groups, edges) && group_views(direct.results@) == kept_groups(
            groups,
            smaller,
        );
    ranking_is_unique(x, z, edges);
    kept_ranking(x, edges, first);
    ranking_is_unique(y, kept_groups(x, first), group_views(once.results@).flatten());
    assert(kept_groups(kept_groups(x, first), second) =~= kept_groups(x, smaller));
    sorted_stays(once.relations@, start.relations@);
    same_sort(twice.relations@, once.relations@, once.relations@);
    same_sort(once.relations@, direct.relations@, start.relations@);
}

/// The best `limit` groups, and at least one if there is one.
pub open spec fn kept_groups(groups: Seq<Seq<TripletEntry>>, limit: int) -> Seq<Seq<TripletEntry>> {
    let keep = if limit < 1 {
        1
    } else {
        limit
    };
    if keep < groups.len() {
        groups.take(keep)
    } else {
        groups
    }
}

fn flatten_groups(groups: Vec<Vec<TripletEntry>>) -> (out: Vec<TripletEntry>)
    ensures
        out@ == group_views(groups@).flatten(),
{
    let ghost all = group_views(groups@);
    let ghost vecs = groups@;
    let mut out: Vec<TripletEntry> = Vec::new();
    for g in it: groups
        invariant
            it.seq() == vecs,
            all == group_views(vecs),
            out@ == all.take(it.index() as int).flatten(),
    {
        let ghost before = out@;
        let ghost k = it.index() as int;
        let mut group: Vec<TripletEntry> = g;
        proof {
            all.take(k + 1).lemma_flatten_and_flatten_alt_are_equivalent();
            all.take(k).lemma_flatten_and_flatten_alt_are_equivalent();
            assert(all.take(k + 1).drop_last() =~= all.take(k));
            assert(all.take(k + 1).last() == group@);
        }
        out.append(&mut group);
        assert(out@ =~= before + vecs[k]@);
    }
    assert(all.take(all.len() as int) =~= all);
    out
}

/// Every edge that a transfer hands out is a stored fact about `c` that is valid at the time, and
/// some stored fact that is valid at the time says the same of `a` and `b`.
pub proof fn transfer_is_supported(
    store: TripletStore,
    a: Seq<char>,
    b: Seq<char>,
    c: Seq<char>,
    at_ms: i64,
    i: int,
)
    requires
        store.wf(),
        0 <= i < target_edges(store, a, b, c, at_ms).len(),
    ensures
        ({
            let e = target_edges(store, a, b, c, at_ms)[i];
            &&& store.facts().contains_key(e.id) && store.facts()[e.id] == e
            &&& e.subject@ == c && e.valid_from_ms <= at_ms && e.unexpired(at_ms)
            &&& exists|s: TripletEntry|
                {
                    &&& #[trigger] store.facts().contains_key(s.id) && store.facts()[s.id] == s
                    &&& links(s, a, b, at_ms) && s.unexpired(at_ms)
                    &&& s.predicate@ == e.predicate@
                }
        }),
{
    let relations = source_edges(store, a, b, at_ms);
    let e = target_edges(store, a, b, c, at_ms)[i];
    let live_c = store.live(c, at_ms);
    let follows_c = |x: TripletEntry| follows(x, c, relations, at_ms);
    live_c.lemma_filter_pred(follows_c, i);
    filtered_item_was_there(live_c, follows_c, i);
    live_facts_are_stored(store, c, at_ms, e);
    let k = choose|k: int|
        0 <= k < relations.len() && (#[trigger] relations[k]).predicate@ == e.predicate@;
    let s = relations[k];
    let live_a = store.live(a, at_ms);
    let links_ab = |x: TripletEntry| links(x, a, b, at_ms);
    live_a.lemma_filter_pred(links_ab, k);
    filtered_item_was_there(live_a, links_ab, k);
    live_facts_are_stored(store, a, at_ms, s);
}

proof fn filtered_item_was_there<A>(s: Seq<A>, pred: spec_fn(A) -> bool, i: int)
    requires
        0 <= i < s.filter(pred).len(),
    ensures
        s.contains(s.filter(pred)[i]),
    decreases s.len(),
{
    reveal(Seq::filter);
    if s.len() > 0 {
        let rest = s.drop_last();
        if i < rest.filter(pred).len() {
            filtered_item_was_there(rest, pred, i);
            let j = choose|j: int| 0 <= j < rest.len() && rest[j] == rest.filter(pred)[i];
            assert(s[j] == s.filter(pred)[i]);
        } else {
            assert(s[s.len() - 1] == s.filter(pred)[i]);
        }
    }
}

proof fn live_facts_are_stored(store: TripletStore, subject: Seq<char>, at_ms: i64, e: TripletEntry)
    requires
        store.wf(),
        store.live(subject, at_ms).contains(e),
    ensures
        store.facts().contains_key(e.id),
        store.facts()[e.id] == e,
        e.unexpired(at_ms),
{
    let ids = store.listed(subject);
    let pred = |id: u64| store.facts()[id].unexpired(at_ms);
    let kept = ids.filter(pred);
    let i = choose|i: int| 0 <= i < store.live(subject, at_ms).len() && store.live(subject, at_ms)[i] == e;
    ids.lemma_filter_pred(pred, i);
    filtered_item_was_there(ids, pred, i);
    let j = choose|j: int| 0 <= j < ids.len() && ids[j] == kept[i];
    assert(store.facts().contains_key(store.listed(subject)[j]));
}

/// Ranking loses no citation: every edge stands in the group of its object.
pub proof fn ranking_keeps_every_citation(
    groups: Seq<Seq<TripletEntry>>,
    edges: Seq<TripletEntry>,
    i: int,
)
    requires
        ranks_groups(groups, edges),
        0 <= i < edges.len(),
    ensures
        exists|g: int|
            0 <= g < groups.len() && (#[trigger] groups[g]).contains(edges[i]) && groups[g][0].object@
                == edges[i].object@,
{
    let e = edges[i];
    assert(has_group(groups, e.object@));
    let g = choose|g: int|
        0 <= g < groups.len() && (#[trigger] groups[g]).len() > 0 && groups[g][0].object@ == e.object@;
    let mine = edges.filter(leads_to(e.object@));
    edges.lemma_filter_contains(leads_to(e.object@), i);
    let k = choose|k: int| 0 <= k < mine.len() && mine[k] == e;
    let p = choose|p: Seq<usize>| #[trigger] sorted_by(groups[g], mine, p);
    assert(lists(p, k));
    let j = choose|j: int| 0 <= j < p.len() && #[trigger] p[j] == k;
    assert(groups[g][j] == e);
}

/// No edge ranks in front of the first edge of the first group.
pub proof fn nothing_beats_the_first(
    groups: Seq<Seq<TripletEntry>>,
    edges: Seq<TripletEntry>,
    i: int,
)
    requires
        ranks_groups(groups, edges),
        0 <= i < edges.len(),
    ensures
        groups.len() > 0,
        !edge_ahead(edges[i], groups[0][0]),
{
    ranking_keeps_every_citation(groups, edges, i);
    let e = edges[i];
    let g = choose|g: int|
        0 <= g < groups.len() && (#[trigger] groups[g]).contains(e) && groups[g][0].object@ == e.object@;
    let mine = edges.filter(leads_to(e.object@));
    let p = choose|p: Seq<usize>| #[trigger] sorted_by(groups[g], mine, p);
    let j = choose|j: int| 0 <= j < groups[g].len() && groups[g][j] == e;
    if j > 0 {
        assert(sorts_before(mine, p[0] as int, p[j] as int));
        assert(groups[g][0] == mine[p[0] as int]);
        assert(groups[g][j] == mine[p[j] as int]);
    }
    edge_order_asymmetric(e, groups[g][0]);
    assert(!edge_ahead(e, groups[g][0]));
    if g > 0 && edge_ahead(e, groups[0][0]) {
        assert(edge_ahead(groups[0][0], groups[g][0]));
        edge_order_transitive(e, groups[0][0], groups[g][0]);
    }
}

/// A stored fact that is listed under its subject is among the subject's facts while it is in force.
proof fn facts_in_force_are_live(store: TripletStore, subject: Seq<char>, id: u64, at_ms: i64)
    requires
        store.wf(),
        store.facts().contains_key(id),
        store.facts()[id].subject@ == subject,
        store.facts()[id].invalidated_at_ms is Some ==> at_ms < store.facts()[id].invalidated_at_ms->0,
    ensures
        store.live(subject, at_ms).contains(store.facts()[id]),
{
    queries_find_what_is_in_force(store, subject, at_ms);
    assert(store.listed(subject).contains(id));
    let facts = store.live(subject, at_ms);
    let i = choose|i: int| 0 <= i < facts.len() && (#[trigger] facts[i]).id == id;
    assert(facts[i] == store.facts()[id]);
}

/// A transfer finds everything: where a fact in force says of `a` and `b` what another fact in
/// force says of `c` and some object, both are handed out.
pub proof fn every_shared_relation_is_followed(
    store: TripletStore,
    a: &str,
    b: &str,
    c: &str,
    at_ms: i64,
    r: RelationTransfer,
    s: u64,
    t: u64,
)
    requires
        store.wf(),
        call_ensures(proportional, (&store, a, b, c, at_ms), r),
        store.facts().contains_key(s),
        store.facts()[s].subject@ == a@,
        store.facts()[s].object@ == b@,
        store.facts()[s].valid_from_ms <= at_ms,
        store.facts()[s].invalidated_at_ms is Some ==> at_ms < store.facts()[s].invalidated_at_ms->0,
    ensures
        r.relations@.contains(store.facts()[s]),
        store.facts().contains_key(t) && store.facts()[t].subject@ == c@ && store.facts()[t].predicate@
            == store.facts()[s].predicate@ && store.facts()[t].valid_from_ms <= at_ms && (
        store.facts()[t].invalidated_at_ms is Some ==> at_ms < store.facts()[t].invalidated_at_ms->0)
            ==> r.reason is None && exists|i: int|
            0 <= i < r.results@.len() && (#[trigger] r.results@[i])@ == seq![store.facts()[t]],
        r.reason != Some("no_source_relation"),
        r.indexed == store.facts().len(),
{
    reveal_strlit("no_source_relation");
    reveal_strlit("no_target_relation");
    assert("no_source_relation"@[3] == 's');
    assert("no_target_relation"@[3] == 't');
    facts_in_force_are_live(store, a@, s, at_ms);
    let links_ab = |e: TripletEntry| links(e, a@, b@, at_ms);
    filter_members(store.live(a@, at_ms), links_ab);
    let from = store.facts()[s];
    assert(links_ab(from));
    let relations = source_edges(store, a@, b@, at_ms);
    assert(relations.contains(from));
    let k = relations.index_of(from);
    assert(relations[k].predicate@ == from.predicate@);
    if store.facts().contains_key(t) && store.facts()[t].subject@ == c@ && store.facts()[t].predicate@
        == from.predicate@ && store.facts()[t].valid_from_ms <= at_ms && (
    store.facts()[t].invalidated_at_ms is Some ==> at_ms < store.facts()[t].invalidated_at_ms->0) {
        facts_in_force_are_live(store, c@, t, at_ms);
        let to = store.facts()[t];
        let follows_c = |e: TripletEntry| follows(e, c@, relations, at_ms);
        filter_members(store.live(c@, at_ms), follows_c);
        assert(follows_c(to));
        let target = target_edges(store, a@, b@, c@, at_ms);
        assert(target.contains(to));
        let i = target.index_of(to);
        assert(group_views(r.results@).len() == r.results@.len());
        assert(singletons(target)[i] == seq![to]);
        assert(group_views(r.results@)[i] == seq![to]);
        assert(r.results@[i]@ == seq![to]);
    }
}

/// Only facts in force about `a` with the object `b` count as relations.
pub proof fn relations_link_the_terms(
    store: TripletStore,
    a: &str,
    b: &str,
    c: &str,
    at_ms: i64,
    r: RelationTransfer,
    i: int,
)
    requires
        store.wf(),
        call_ensures(proportional, (&store, a, b, c, at_ms), r),
    ensures
        0 <= i < r.relations@.len() ==> {
            let e = r.relations@[i];
            &&& store.facts().contains_key(e.id) && store.facts()[e.id] == e
            &&& e.subject@ == a@ && e.object@ == b@
            &&& e.valid_from_ms <= at_ms
            &&& e.invalidated_at_ms is Some ==> at_ms < e.invalidated_at_ms->0
        },
        0 <= i < r.results@.len() ==> r.results@[i]@.len() == 1,
        r.relations@.len() == 0 ==> r.reason == Some("no_source_relation"),
        r.relations@.len() > 0 && r.results@.len() == 0 ==> r.reason == Some("no_target_relation"),
{
    let links_ab = |e: TripletEntry| links(e, a@, b@, at_ms);
    let facts = store.live(a@, at_ms);
    filter_members(facts, links_ab);
    if 0 <= i < r.relations@.len() {
        let e = r.relations@[i];
        assert(facts.filter(links_ab).contains(e));
        live_facts_are_stored(store, a@, at_ms, e);
    }
    let target = target_edges(store, a@, b@, c@, at_ms);
    assert(group_views(r.results@).len() == r.results@.len());
    assert(singletons(target).len() == target.len());
    if 0 <= i < r.results@.len() {
        assert(group_views(r.results@)[i] == singletons(target)[i]);
        assert(r.results@[i]@ == group_views(r.results@)[i]);
    }
}

/// Of two edges the heavier one ranks first, of two that are equally heavy the later one, and then
/// they go by object, predicate, source and id, each in rising order. An edge without a source
/// memory comes before those with one.
pub proof fn edges_rank_by_weight_and_time(a: TripletEntry, b: TripletEntry, r: Ordering)
    requires
        call_ensures(edge_order, (&a, &b), r),
    ensures
        weight_rank(a.weight) > weight_rank(b.weight) ==> r is Less,
        weight_rank(a.weight) < weight_rank(b.weight) ==> r is Greater,
        a.weight == b.weight && a.valid_from_ms > b.valid_from_ms ==> r is Less,
        a.weight == b.weight && a.valid_from_ms == b.valid_from_ms && text_before(a.object@, b.object@)
            && a.object@ != b.object@ ==> r is Less,
        a.weight == b.weight && a.valid_from_ms == b.valid_from_ms && a.object@ == b.object@ && text_before(
            a.predicate@,
            b.predicate@,
        ) && a.predicate@ != b.predicate@ ==> r is Less,
        a.weight == b.weight && a.valid_from_ms == b.valid_from_ms && a.object@ == b.object@
            && a.predicate@ == b.predicate@ ==> {
            &&& a.source_memory_id is None && b.source_memory_id is Some ==> r is Less
            &&& a.source_memory_id is Some && b.source_memory_id is Some && a.source_memory_id->0
                < b.source_memory_id->0 ==> r is Less
            &&& a.source_memory_id == b.source_memory_id && a.id < b.id ==> r is Less
            &&& a.source_memory_id == b.source_memory_id && a.id == b.id ==> r is Equal
        },
{
}

/// Ranking hands out the best groups, as many as are asked for and at least one where there is one;
/// an answer that is left out ranks behind every one that is handed out.
pub proof fn best_answers_are_kept(
    groups: Seq<Seq<TripletEntry>>,
    edges: Seq<TripletEntry>,
    limit: int,
    g: int,
    h: int,
)
    requires
        ranks_groups(groups, edges),
    ensures
        edges.len() > 0 ==> kept_groups(groups, limit).len() > 0,
        limit >= 1 ==> kept_groups(groups, limit).len() <= limit,
        limit < 1 ==> kept_groups(groups, limit).len() <= 1,
        kept_groups(groups, limit).len() < limit ==> kept_groups(groups, limit) == groups,
        0 <= g < kept_groups(groups, limit).len() ==> kept_groups(groups, limit)[g] == groups[g],
        0 <= g < kept_groups(groups, limit).len() <= h < groups.len() ==> edge_ahead(
            groups[g][0],
            groups[h][0],
        ),
{
    if edges.len() > 0 {
        nothing_beats_the_first(groups, edges, 0);
    }
}

/// Within an answer the citations go to one object and the better one comes first.
pub proof fn citations_are_ranked(
    groups: Seq<Seq<TripletEntry>>,
    edges: Seq<TripletEntry>,
    g: int,
    i: int,
    j: int,
)
    requires
        ranks_groups(groups, edges),
        0 <= g < groups.len(),
        0 <= i < j < groups[g].len(),
    ensures
        groups[g][i].object@ == groups[g][j].object@,
        !edge_ahead(groups[g][j], groups[g][i]),
        edges.contains(groups[g][i]),
{
    let o = groups[g][0].object@;
    let mine = edges.filter(leads_to(o));
    let p = choose|p: Seq<usize>| #[trigger] sorted_by(groups[g], mine, p);
    assert(groups[g][i] == mine[p[i] as int]);
    assert(groups[g][j] == mine[p[j] as int]);
    filtered_leads_to(edges, o, p[i] as int);
    filtered_leads_to(edges, o, p[j] as int);
    assert(sorts_before(mine, p[i] as int, p[j] as int));
    edge_order_asymmetric(groups[g][i], groups[g][j]);
    filter_members(edges, leads_to(o));
    assert(mine.contains(mine[p[i] as int]));
}

} // verus!
