//! Association edges between memories.
use crate::ops::{EdgeType, MemoryId};
use crate::seqs::{filter_ends, filter_step};
use crate::table::{key_list, lists_keys};
use std::collections::BTreeMap;
use vstd::prelude::*;

verus! {

/// A directed association edge. The weight is a bit pattern.
#[derive(Clone, Copy, Debug)]
pub struct AssocEdge {
    pub dst: MemoryId,
    pub edge_type: EdgeType,
    pub weight: u32,
}

/// The outgoing edges of every memory.
pub struct AssocEdges {
    pub table: BTreeMap<u64, Vec<AssocEdge>>,
}

impl View for AssocEdges {
    type V = Map<u64, Seq<AssocEdge>>;

    open spec fn view(&self) -> Map<u64, Seq<AssocEdge>> {
        self.table@.map_values(|v: Vec<AssocEdge>| v@)
    }
}

/// The edges that leave `src`.
pub open spec fn outgoing(m: Map<u64, Seq<AssocEdge>>, src: u64) -> Seq<AssocEdge> {
    if m.contains_key(src) {
        m[src]
    } else {
        Seq::empty()
    }
}

/// `e` leads to `dst` and has the given type.
pub open spec fn is_edge(e: AssocEdge, dst: u64, edge_type: EdgeType) -> bool {
    e.dst == dst && e.edge_type == edge_type
}

/// `i` is the first place of an edge to `dst` with the given type.
pub open spec fn first_edge(s: Seq<AssocEdge>, dst: u64, edge_type: EdgeType, i: int) -> bool {
    &&& 0 <= i < s.len()
    &&& is_edge(s[i], dst, edge_type)
    &&& forall|j: int| 0 <= j < i ==> !is_edge(#[trigger] s[j], dst, edge_type)
}

pub open spec fn has_edge(s: Seq<AssocEdge>, dst: u64, edge_type: EdgeType) -> bool {
    exists|i: int| 0 <= i < s.len() && is_edge(#[trigger] s[i], dst, edge_type)
}

/// The weight of the first edge to `dst` with the given type.
pub open spec fn weight_in(s: Seq<AssocEdge>, dst: u64, edge_type: EdgeType) -> Option<u32> {
    if has_edge(s, dst, edge_type) {
        Some(s[choose|i: int| #[trigger] first_edge(s, dst, edge_type, i)].weight)
    } else {
        None
    }
}

/// `s` with the weight of the first edge to `dst` of the type set, or with such an edge added.
pub open spec fn weighted(s: Seq<AssocEdge>, dst: u64, edge_type: EdgeType, weight: u32) -> Seq<
    AssocEdge,
> {
    if has_edge(s, dst, edge_type) {
        let i = choose|i: int| #[trigger] first_edge(s, dst, edge_type, i);
        s.update(i, AssocEdge { dst, edge_type, weight })
    } else {
        s.push(AssocEdge { dst, edge_type, weight })
    }
}

/// `m` with the weight of the edge from `src` to `dst` set.
pub open spec fn reweighted(
    m: Map<u64, Seq<AssocEdge>>,
    src: u64,
    dst: u64,
    edge_type: EdgeType,
    weight: u32,
) -> Map<u64, Seq<AssocEdge>> {
    m.insert(src, weighted(outgoing(m, src), dst, edge_type, weight))
}

/// `m` with the weights of the edges of both directions set, the way there first.
pub open spec fn both_weighted(
    m: Map<u64, Seq<AssocEdge>>,
    src: u64,
    dst: u64,
    edge_type: EdgeType,
    there: u32,
    back: u32,
) -> Map<u64, Seq<AssocEdge>> {
    reweighted(reweighted(m, src, dst, edge_type, there), dst, src, edge_type, back)
}

/// The weight of the edge from `src` to `dst`, if there is one.
pub open spec fn edge_weight(m: Map<u64, Seq<AssocEdge>>, src: u64, dst: u64, edge_type: EdgeType) -> Option<
    u32,
> {
    weight_in(outgoing(m, src), dst, edge_type)
}

/// There is one first edge.
proof fn first_edge_is_unique(s: Seq<AssocEdge>, dst: u64, edge_type: EdgeType, i: int)
    requires
        first_edge(s, dst, edge_type, i),
    ensures
        has_edge(s, dst, edge_type),
        (choose|j: int| #[trigger] first_edge(s, dst, edge_type, j)) == i,
{
    let j = choose|j: int| #[trigger] first_edge(s, dst, edge_type, j);
    assert(first_edge(s, dst, edge_type, j));
    if j < i {
        assert(!is_edge(s[j], dst, edge_type));
    } else if i < j {
        assert(!is_edge(s[i], dst, edge_type));
    }
}

proof fn has_first_edge(s: Seq<AssocEdge>, dst: u64, edge_type: EdgeType)
    requires
        has_edge(s, dst, edge_type),
    ensures
        exists|i: int| #[trigger] first_edge(s, dst, edge_type, i),
    decreases s.len(),
{
    if has_edge(s.drop_last(), dst, edge_type) {
        has_first_edge(s.drop_last(), dst, edge_type);
        let i = choose|i: int| #[trigger] first_edge(s.drop_last(), dst, edge_type, i);
        assert forall|j: int| 0 <= j < i implies !is_edge(#[trigger] s[j], dst, edge_type) by {
            assert(!is_edge(s.drop_last()[j], dst, edge_type));
        }
        assert(first_edge(s, dst, edge_type, i));
    } else {
        let i = choose|i: int| 0 <= i < s.len() && is_edge(#[trigger] s[i], dst, edge_type);
        assert forall|j: int| 0 <= j < s.len() - 1 implies !is_edge(#[trigger] s[j], dst, edge_type) by {
            assert(s.drop_last()[j] == s[j]);
        }
        assert(first_edge(s, dst, edge_type, i));
    }
}

/// A weight that was set is the weight that is found; other edges keep theirs.
pub proof fn weight_read_back(
    m: Map<u64, Seq<AssocEdge>>,
    src: u64,
    dst: u64,
    edge_type: EdgeType,
    weight: u32,
)
    ensures
        edge_weight(reweighted(m, src, dst, edge_type, weight), src, dst, edge_type) == Some(weight),
        forall|s: u64, d: u64, t: EdgeType|
            (s, d, t) != (src, dst, edge_type) ==> #[trigger] edge_weight(
                reweighted(m, src, dst, edge_type, weight),
                s,
                d,
                t,
            ) == edge_weight(m, s, d, t),
{
    let after = reweighted(m, src, dst, edge_type, weight);
    let old_out = outgoing(m, src);
    let new_out = outgoing(after, src);
    if has_edge(old_out, dst, edge_type) {
        has_first_edge(old_out, dst, edge_type);
        let i = choose|i: int| #[trigger] first_edge(old_out, dst, edge_type, i);
        assert forall|j: int| 0 <= j < i implies !is_edge(#[trigger] new_out[j], dst, edge_type) by {
            assert(old_out[j] == new_out[j]);
        }
        assert(first_edge(new_out, dst, edge_type, i));
        first_edge_is_unique(new_out, dst, edge_type, i);
    } else {
        let i = old_out.len() as int;
        assert forall|j: int| 0 <= j < i implies !is_edge(#[trigger] new_out[j], dst, edge_type) by {
            assert(old_out[j] == new_out[j]);
        }
        assert(first_edge(new_out, dst, edge_type, i));
        first_edge_is_unique(new_out, dst, edge_type, i);
    }
    assert forall|s: u64, d: u64, t: EdgeType|
        (s, d, t) != (src, dst, edge_type) implies #[trigger] edge_weight(after, s, d, t) == edge_weight(
        m,
        s,
        d,
        t,
    ) by {
        if s == src {
            if has_edge(old_out, dst, edge_type) {
                has_first_edge(old_out, dst, edge_type);
            }
            if has_edge(old_out, d, t) {
                has_first_edge(old_out, d, t);
                let i = choose|i: int| #[trigger] first_edge(old_out, d, t, i);
                assert(is_edge(old_out[i], d, t));
                assert(new_out[i] == old_out[i]);
                assert forall|j: int| 0 <= j < i implies !is_edge(#[trigger] new_out[j], d, t) by {
                    assert(!is_edge(old_out[j], d, t));
                }
                assert(first_edge(new_out, d, t, i));
                first_edge_is_unique(new_out, d, t, i);
            } else {
                assert forall|j: int| 0 <= j < new_out.len() implies !is_edge(
                    #[trigger] new_out[j],
                    d,
                    t,
                ) by {
                    if j < old_out.len() {
                        assert(!is_edge(old_out[j], d, t));
                    }
                }
            }
        }
    }
}

/// Setting the edges of both directions between two memories leaves them with the same weight, if
/// they had the same weight before and the new weights were computed from the old ones alike.
pub proof fn strengthening_is_symmetric(
    m: Map<u64, Seq<AssocEdge>>,
    src: u64,
    dst: u64,
    edge_type: EdgeType,
    new_weight: spec_fn(Option<u32>) -> u32,
)
    requires
        src != dst,
        edge_weight(m, src, dst, edge_type) == edge_weight(m, dst, src, edge_type),
    ensures
        ({
            let mid = reweighted(m, src, dst, edge_type, new_weight(edge_weight(m, src, dst, edge_type)));
            let end = reweighted(
                mid,
                dst,
                src,
                edge_type,
                new_weight(edge_weight(mid, dst, src, edge_type)),
            );
            &&& edge_weight(end, src, dst, edge_type) == edge_weight(end, dst, src, edge_type)
            &&& edge_weight(end, src, dst, edge_type) is Some
        }),
{
    let w = new_weight(edge_weight(m, src, dst, edge_type));
    let mid = reweighted(m, src, dst, edge_type, w);
    weight_read_back(m, src, dst, edge_type, w);
    weight_read_back(mid, dst, src, edge_type, new_weight(edge_weight(mid, dst, src, edge_type)));
}

/// `m` without `id` and without the edges that lead to it.
pub open spec fn detached(m: Map<u64, Seq<AssocEdge>>, id: u64) -> Map<u64, Seq<AssocEdge>> {
    m.remove(id).map_values(|s: Seq<AssocEdge>| s.filter(|e: AssocEdge| e.dst != id))
}

/// After detaching, no edge leads from or to the memory.
pub proof fn detached_has_no_edges(m: Map<u64, Seq<AssocEdge>>, id: u64)
    ensures
        !detached(m, id).contains_key(id),
        forall|src: u64, i: int|
            #![trigger detached(m, id)[src][i]]
            detached(m, id).contains_key(src) && 0 <= i < detached(m, id)[src].len()
                ==> detached(m, id)[src][i].dst != id,
{
    assert forall|src: u64, i: int|
        #![trigger detached(m, id)[src][i]]
        detached(m, id).contains_key(src) && 0 <= i < detached(m, id)[src].len() implies detached(
        m,
        id,
    )[src][i].dst != id by {
        m[src].lemma_filter_pred(|e: AssocEdge| e.dst != id, i);
    }
}

impl AssocEdges {
    pub fn new() -> (r: Self)
        ensures
            r@ == Map::<u64, Seq<AssocEdge>>::empty(),
    {
        let r = AssocEdges { table: BTreeMap::new() };
        assert(r@ =~= Map::<u64, Seq<AssocEdge>>::empty());
        r
    }

    /// The edges that leave `src`.
    pub fn edges_from(&self, src: u64) -> (r: Vec<AssocEdge>)
        ensures
            r@ == outgoing(self@, src),
    {
        broadcast use vstd::std_specs::btree::group_btree_axioms;

        match self.table.get(&src) {
            Some(v) => {
                let r = v.clone();
                assert(r@ =~= v@);
                r
            },
            None => Vec::new(),
        }
    }

    /// Adds an edge after the edges that `src` has.
    pub fn append(&mut self, src: u64, edge: AssocEdge)
        ensures
            final(self)@ == old(self)@.insert(src, outgoing(old(self)@, src).push(edge)),
    {
        broadcast use vstd::std_specs::btree::group_btree_axioms;

        let ghost before = self@;
        let mut edges: Vec<AssocEdge> = match self.table.remove(&src) {
            Some(v) => v,
            None => Vec::new(),
        };
        edges.push(edge);
        self.table.insert(src, edges);
        assert(self@ =~= before.insert(src, outgoing(before, src).push(edge)));
    }

    /// The weight of the edge from `src` to `dst`, if there is one.
    pub fn weight_of(&self, src: u64, dst: u64, edge_type: EdgeType) -> (r: Option<u32>)
        ensures
            r == edge_weight(self@, src, dst, edge_type),
    {
        broadcast use vstd::std_specs::btree::group_btree_axioms;

        match self.table.get(&src) {
            Some(edges) => {
                let i: usize = find_edge(edges, dst, edge_type);
                if i < edges.len() {
                    proof {
                        first_edge_is_unique(edges@, dst, edge_type, i as int);
                    }
                    Some(edges[i].weight)
                } else {
                    None
                }
            },
            None => None,
        }
    }

    /// Sets the weight of the edge from `src` to `dst`, adding the edge if there is none.
    pub fn set_weight(&mut self, src: u64, dst: u64, edge_type: EdgeType, weight: u32)
        ensures
            final(self)@ == reweighted(old(self)@, src, dst, edge_type, weight),
    {
        broadcast use vstd::std_specs::btree::group_btree_axioms;

        let ghost before = self@;
        let mut edges: Vec<AssocEdge> = match self.table.remove(&src) {
            Some(v) => v,
            None => Vec::new(),
        };
        let ghost was = edges@;
        assert(was =~= outgoing(before, src));
        let i: usize = find_edge(&edges, dst, edge_type);
        if i < edges.len() {
            proof {
                first_edge_is_unique(was, dst, edge_type, i as int);
            }
            edges.set(i, AssocEdge { dst, edge_type, weight });
        } else {
            edges.push(AssocEdge { dst, edge_type, weight });
        }
        self.table.insert(src, edges);
        assert(edges@ =~= weighted(was, dst, edge_type, weight));
        assert(self@ =~= reweighted(before, src, dst, edge_type, weight));
    }

    /// Forgets a memory: its edges and the edges that lead to it.
    pub fn detach(&mut self, id: u64)
        ensures
            final(self)@ == detached(old(self)@, id),
    {
        broadcast use vstd::std_specs::btree::group_btree_axioms;

        let ghost before = self@;
        self.table.remove(&id);
        let ghost rest = self@;
        assert(rest =~= before.remove(id));
        let ids = key_list(&self.table);
        let ghost pred = |e: AssocEdge| e.dst != id;
        let n: usize = ids.len();
        let mut i: usize = 0;
        while i < n
            invariant
                n == ids.len(),
                i <= n,
                pred == (|e: AssocEdge| e.dst != id),
                lists_keys(ids@, rest),
                self@.dom() == rest.dom(),
                forall|k: int| 0 <= k < i ==> self@[#[trigger] ids@[k]] == rest[ids@[k]].filter(pred),
                forall|k: int| i <= k < n ==> self@[#[trigger] ids@[k]] == rest[ids@[k]],
            decreases n - i,
        {
            let src: u64 = ids[i];
            assert(rest.contains_key(ids@[i as int]));
            assert(self@.contains_key(src));
            let ghost was = self@;
            if let Some(edges) = self.table.remove(&src) {
                let kept = without_dst(&edges, id);
                self.table.insert(src, kept);
            }
            proof {
                assert(self@ =~= was.insert(src, was[src].filter(pred)));
                assert(self@.dom() =~= rest.dom());
            }
            i = i + 1;
        }
        proof {
            assert forall|k: u64| #[trigger] rest.contains_key(k) implies self@[k] == rest[k].filter(pred) by {
                let j = choose|j: int| 0 <= j < ids@.len() && ids@[j] == k;
                assert(self@[ids@[j]] == rest[ids@[j]].filter(pred));
            }
            assert(self@ =~= detached(before, id));
        }
    }
}

fn find_edge(edges: &Vec<AssocEdge>, dst: u64, edge_type: EdgeType) -> (r: usize)
    ensures
        r < edges.len() ==> first_edge(edges@, dst, edge_type, r as int),
        r >= edges.len() ==> r == edges.len() && !has_edge(edges@, dst, edge_type),
{
    let n: usize = edges.len();
    let mut i: usize = 0;
    while i < n
        invariant
            n == edges.len(),
            i <= n,
            forall|j: int| 0 <= j < i ==> !is_edge(#[trigger] edges@[j], dst, edge_type),
        decreases n - i,
    {
        if edges[i].dst == dst && edges[i].edge_type == edge_type {
            return i;
        }
        i = i + 1;
    }
    n
}

fn without_dst(edges: &Vec<AssocEdge>, id: u64) -> (r: Vec<AssocEdge>)
    ensures
        r@ == edges@.filter(|e: AssocEdge| e.dst != id),
{
    let ghost pred = |e: AssocEdge| e.dst != id;
    let mut out: Vec<AssocEdge> = Vec::new();
    let n: usize = edges.len();
    let mut i: usize = 0;
    proof {
        filter_ends(edges@, pred);
    }
    while i < n
        invariant
            n == edges.len(),
            i <= n,
            pred == (|e: AssocEdge| e.dst != id),
            out@ == edges@.take(i as int).filter(pred),
        decreases n - i,
    {
        proof {
            filter_step(edges@, pred, i as int);
        }
        if edges[i].dst != id {
            out.push(edges[i]);
        }
        i = i + 1;
    }
    out
}

/// Strengthens the edges of both directions between two memories. `new_weight` says what becomes
/// of a weight, or of an edge that is not there yet.
pub fn strengthen_assoc_edge_map<F: Fn(Option<u32>) -> u32>(
    edges: &mut AssocEdges,
    src: MemoryId,
    dst: MemoryId,
    edge_type: EdgeType,
    new_weight: F,
)
    requires
        forall|w: Option<u32>| call_requires(new_weight, (w,)),
    ensures
        exists|there: u32, back: u32|
            {
                &&& call_ensures(
                    new_weight,
                    (edge_weight(old(edges)@, src, dst, edge_type),),
                    there,
                )
                &&& call_ensures(
                    new_weight,
                    (edge_weight(
                        reweighted(old(edges)@, src, dst, edge_type, there),
                        dst,
                        src,
                        edge_type,
                    ),),
                    back,
                )
                &&& final(edges)@ == #[trigger] both_weighted(
                    old(edges)@,
                    src,
                    dst,
                    edge_type,
                    there,
                    back,
                )
            },
{
    let there: u32 = new_weight(edges.weight_of(src, dst, edge_type));
    edges.set_weight(src, dst, edge_type, there);
    let back: u32 = new_weight(edges.weight_of(dst, src, edge_type));
    edges.set_weight(dst, src, edge_type, back);
    assert(edges@ == both_weighted(old(edges)@, src, dst, edge_type, there, back));
}

/// The weight of an association is that of the first edge from the one memory to the other of its
/// type; there is none exactly when there is no such edge.
pub proof fn weights_are_those_of_edges(m: Map<u64, Seq<AssocEdge>>, src: u64, dst: u64, edge_type: EdgeType)
    ensures
        edge_weight(m, src, dst, edge_type) matches Some(w) ==> m.contains_key(src) && exists|i: int|
            0 <= i < m[src].len() && (#[trigger] m[src][i]).dst == dst && m[src][i].edge_type == edge_type
                && m[src][i].weight == w && forall|j: int|
                0 <= j < i ==> (#[trigger] m[src][j]).dst != dst || m[src][j].edge_type != edge_type,
        edge_weight(m, src, dst, edge_type) is None ==> (m.contains_key(src) ==> forall|i: int|
            0 <= i < m[src].len() ==> (#[trigger] m[src][i]).dst != dst || m[src][i].edge_type
                != edge_type),
{
    let out = outgoing(m, src);
    if has_edge(out, dst, edge_type) {
        has_first_edge(out, dst, edge_type);
        let i = choose|i: int| #[trigger] first_edge(out, dst, edge_type, i);
        assert(m[src][i].dst == dst);
        assert forall|j: int| 0 <= j < i implies (#[trigger] m[src][j]).dst != dst || m[src][j].edge_type
            != edge_type by {
            assert(!is_edge(out[j], dst, edge_type));
        }
    } else if m.contains_key(src) {
        assert forall|i: int| 0 <= i < m[src].len() implies (#[trigger] m[src][i]).dst != dst
            || m[src][i].edge_type != edge_type by {
            assert(!is_edge(out[i], dst, edge_type));
        }
    }
}

/// Setting a weight adds an edge only where there is none, and removes no edge.
pub proof fn reweighting_keeps_edges(
    m: Map<u64, Seq<AssocEdge>>,
    src: u64,
    dst: u64,
    edge_type: EdgeType,
    weight: u32,
)
    ensures
        ({
            let after = reweighted(m, src, dst, edge_type, weight);
            &&& edge_weight(m, src, dst, edge_type) is Some ==> after[src].len() == m[src].len()
            &&& edge_weight(m, src, dst, edge_type) is None ==> after[src].len() == outgoing(
                m,
                src,
            ).len() + 1
            &&& forall|s: u64|
                s != src ==> (#[trigger] after.contains_key(s) <==> m.contains_key(s)) && (m.contains_key(s)
                    ==> after[s] == m[s])
        }),
{
    if has_edge(outgoing(m, src), dst, edge_type) {
        has_first_edge(outgoing(m, src), dst, edge_type);
    }
}

} // verus!
