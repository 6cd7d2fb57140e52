//! Reading what the field holds.
use crate::ablation::Ablations;
use crate::analogy::{
    group_views, kept_groups, proportional, ranks_groups, singletons, source_edges, target_edges,
    RelationTransfer,
};
use crate::assoc::{outgoing, AssocEdge, AssocEdges};
use crate::decimal::{numeral, u64_text};
use crate::json::{is_json, json_text_array, json_text_member, json_u64_member, json_valid, text_array, text_member, u64_member};
use crate::members::{members_of, Members};
use crate::memory::{MemoryPayload, MemoryState};
use crate::ops::EdgeType;
use crate::order::{lists, sort_order, sorts_before, stable_sort_of, Ranked};
use crate::params::{number_given, or_number, or_text, shown, text_given, text_or};
use crate::protocol::{clamped, edge_type_number, edge_type_to_u8};
use crate::seqs::{filter_ends, filter_members, filter_step};
use crate::table::{key_list, lists_keys};
use crate::text::{
    blank, is_blank, lossy, lossy_text, stands_at, str_eq, trimmed, views, views_push,
};
use crate::triplet::{TripletEntry, TripletStore};
use crate::weight::{finite, is_finite};
use std::collections::{BTreeMap, BTreeSet};
use vstd::prelude::*;
use vstd::string::*;

verus! {

/// An association as it is given out.
#[derive(Clone, Copy, Debug, PartialEq, Eq, Structural)]
pub struct EdgeRow {
    pub src: u64,
    pub dst: u64,
    pub edge_type: u8,
    pub weight: u32,
}

pub open spec fn row_of(src: u64, e: AssocEdge) -> EdgeRow {
    EdgeRow { src, dst: e.dst, edge_type: edge_type_number(e.edge_type), weight: e.weight }
}

/// The edges among the first `n` of `edges` that lead to `dst`.
pub open spec fn rows_to(src: u64, edges: Seq<AssocEdge>, dst: u64, n: int) -> Seq<EdgeRow>
    decreases n,
{
    if n <= 0 {
        Seq::empty()
    } else if edges[n - 1].dst == dst {
        rows_to(src, edges, dst, n - 1).push(row_of(src, edges[n - 1]))
    } else {
        rows_to(src, edges, dst, n - 1)
    }
}

/// The edges to `id` from the first `n` of `srcs`, `id` itself left out.
pub open spec fn incoming(m: Map<u64, Seq<AssocEdge>>, srcs: Seq<u64>, id: u64, n: int) -> Seq<EdgeRow>
    decreases n,
{
    if n <= 0 {
        Seq::empty()
    } else {
        let src = srcs[n - 1];
        let before = incoming(m, srcs, id, n - 1);
        if src == id {
            before
        } else {
            before + rows_to(src, outgoing(m, src), id, outgoing(m, src).len() as int)
        }
    }
}

pub open spec fn departing(id: u64) -> spec_fn(AssocEdge) -> EdgeRow {
    |e: AssocEdge| row_of(id, e)
}

/// At most the first `limit` items.
pub open spec fn first_of<A>(s: Seq<A>, limit: int) -> Seq<A> {
    if s.len() <= limit {
        s
    } else {
        s.take(limit)
    }
}

/// The edges at `id`: those that leave it, then those that lead to it, by the memory they leave.
pub open spec fn edges_at(m: Map<u64, Seq<AssocEdge>>, srcs: Seq<u64>, id: u64) -> Seq<EdgeRow> {
    outgoing(m, id).map_values(departing(id)) + incoming(m, srcs, id, srcs.len() as int)
}

/// The first `limit` edges at a memory.
pub fn get_assoc_edges(edges: &AssocEdges, id: u64, limit: usize) -> (r: Vec<EdgeRow>)
    ensures
        exists|srcs: Seq<u64>| #[trigger]
            lists_keys(srcs, edges@) && r@ == first_of(edges_at(edges@, srcs, id), limit as int),
{
    broadcast use vstd::std_specs::btree::group_btree_axioms;

    let own = edges.edges_from(id);
    let mut r: Vec<EdgeRow> = Vec::new();
    let mut i: usize = 0;
    while i < own.len()
        invariant
            i <= own@.len(),
            own@ == outgoing(edges@, id),
            r@ == own@.take(i as int).map_values(departing(id)),
        decreases own@.len() - i,
    {
        let e = own[i];
        r.push(EdgeRow { src: id, dst: e.dst, edge_type: edge_type_to_u8(e.edge_type), weight: e.weight });
        assert(r@ =~= own@.take(i + 1).map_values(departing(id)));
        i = i + 1;
    }
    assert(own@.take(i as int) =~= own@);
    let ghost head = r@;
    let srcs = key_list(&edges.table);
    assert(lists_keys(srcs@, edges@)) by {
        assert(edges@.dom() =~= edges.table@.dom());
        assert forall|k: u64| #![trigger srcs@.contains(k)] srcs@.contains(k) <==> edges@.contains_key(k) by {
            assert(srcs@.contains(k) <==> edges.table@.contains_key(k));
        }
    }
    let mut k: usize = 0;
    assert(r@ =~= head + incoming(edges@, srcs@, id, 0));
    while k < srcs.len()
        invariant
            k <= srcs@.len(),
            r@ == head + incoming(edges@, srcs@, id, k as int),
        decreases srcs@.len() - k,
    {
        let src: u64 = srcs[k];
        let ghost done = r@;
        if src != id {
            let from = edges.edges_from(src);
            let mut j: usize = 0;
            assert(r@ =~= done + rows_to(src, from@, id, 0));
            while j < from.len()
                invariant
                    j <= from@.len(),
                    r@ == done + rows_to(src, from@, id, j as int),
                decreases from@.len() - j,
            {
                let e = from[j];
                if e.dst == id {
                    r.push(
                        EdgeRow {
                            src,
                            dst: e.dst,
                            edge_type: edge_type_to_u8(e.edge_type),
                            weight: e.weight,
                        },
                    );
                    assert(r@ =~= done + rows_to(src, from@, id, j + 1));
                }
                j = j + 1;
            }
        }
        assert(r@ =~= head + incoming(edges@, srcs@, id, k + 1));
        k = k + 1;
    }
    assert(r@ == edges_at(edges@, srcs@, id));
    if limit < r.len() {
        r.truncate(limit);
    }
    assert(r@ =~= first_of(edges_at(edges@, srcs@, id), limit as int));
    r
}

/// A time, the latest first.
#[derive(Clone, Copy, Debug)]
pub struct Latest {
    pub at_ms: i64,
}

impl Ranked for Latest {
    open spec fn ahead(&self, other: &Self) -> bool {
        self.at_ms > other.at_ms
    }

    proof fn ahead_asymmetric(a: &Self, b: &Self) {
    }

    proof fn ahead_transitive(a: &Self, b: &Self, c: &Self) {
    }

    proof fn tie_transitive(a: &Self, b: &Self, c: &Self) {
    }

    fn is_ahead(&self, other: &Self) -> (r: bool) {
        self.at_ms > other.at_ms
    }
}

/// The time of a transcript: that of its last turn, or zero before the first.
pub fn transcript_time(turns_ms: &Vec<i64>) -> (r: Latest)
    ensures
        r.at_ms == if turns_ms@.len() == 0 {
            0
        } else {
            turns_ms@.last()
        },
{
    let n: usize = turns_ms.len();
    Latest {
        at_ms: if n == 0 {
            0
        } else {
            turns_ms[n - 1]
        },
    }
}

/// The places of the `limit` latest transcripts, latest first; equally late ones keep their order.
pub fn latest_transcripts(times: &Vec<Latest>, limit: usize) -> (r: Vec<usize>)
    ensures
        exists|p: Seq<usize>|
            {
                &&& p.len() == times@.len()
                &&& #[trigger] crate::order::sorts_range(p, times@, 0, times@.len() as int)
                &&& r@ == first_of(p, limit as int)
            },
{
    let mut p = sort_order(times);
    let ghost whole = p@;
    if limit < p.len() {
        p.truncate(limit);
    }
    assert(p@ =~= first_of(whole, limit as int));
    p
}

/// A task, as far as listings look at it.
pub struct TaskRow {
    pub kind: String,
    /// Pending, running or paused.
    pub active: bool,
}

/// The tasks that a listing shows.
pub open spec fn shown_task(tasks: Seq<TaskRow>, kind: Option<Seq<char>>, active_only: bool) -> spec_fn(usize) -> bool {
    |i: usize| (active_only ==> tasks[i as int].active) && (kind matches Some(k) ==> tasks[i as int].kind@ == k)
}

/// The numbers from zero up to `n`.
pub open spec fn numbers(n: nat) -> Seq<usize> {
    Seq::new(n, |i: int| i as usize)
}

/// The places of the tasks that a listing shows, in the registry's order.
pub fn list_tasks(tasks: &Vec<TaskRow>, kind: Option<&str>, active_only: bool) -> (r: Vec<usize>)
    ensures
        r@ == numbers(tasks@.len()).filter(
            shown_task(
                tasks@,
                match kind {
                    Some(k) => Some(k@),
                    None => None,
                },
                active_only,
            ),
        ),
{
    let ghost wanted = match kind {
        Some(k) => Some(k@),
        None => None,
    };
    let ghost pred = shown_task(tasks@, wanted, active_only);
    let ghost all = numbers(tasks@.len());
    let mut r: Vec<usize> = Vec::new();
    let mut i: usize = 0;
    while i < tasks.len()
        invariant
            i <= tasks@.len(),
            wanted == (match kind {
                Some(k) => Some(k@),
                None => None,
            }),
            pred == shown_task(tasks@, wanted, active_only),
            all == numbers(tasks@.len()),
            r@ == all.take(i as int).filter(pred),
        decreases tasks@.len() - i,
    {
        proof {
            filter_step(all, pred, i as int);
            assert(all[i as int] == i);
        }
        let of_kind: bool = match kind {
            Some(k) => str_eq(tasks[i].kind.as_str(), k),
            None => true,
        };
        if (!active_only || tasks[i].active) && of_kind {
            r.push(i);
        }
        i = i + 1;
    }
    proof {
        filter_ends(all, pred);
    }
    r
}

/// A memory and what it says.
pub struct Statement {
    pub id: u64,
    pub content: Vec<u8>,
}

/// `out` lists what the members of a realm say, by ascending id, `but` left out.
pub open spec fn lists_statements(
    out: Seq<Statement>,
    payloads: Map<u64, MemoryPayload>,
    members: Set<u64>,
    but: Option<u64>,
) -> bool {
    &&& forall|i: int, j: int| 0 <= i < j < out.len() ==> out[i].id < out[j].id
    &&& forall|i: int|
        0 <= i < out.len() ==> states_one(#[trigger] out[i], payloads, members, but)
    &&& forall|id: u64|
        #[trigger] members.contains(id) && payloads.contains_key(id) && but != Some(id) ==> exists|i: int|
            0 <= i < out.len() && (#[trigger] out[i]).id == id
}

/// `s` is what a member other than `but` says.
pub open spec fn states_one(
    s: Statement,
    payloads: Map<u64, MemoryPayload>,
    members: Set<u64>,
    but: Option<u64>,
) -> bool {
    &&& members.contains(s.id)
    &&& payloads.contains_key(s.id)
    &&& but != Some(s.id)
    &&& s.content@ == payloads[s.id].content@
}

/// What the members of a realm say, `but` left out.
pub fn statements(
    payloads: &BTreeMap<u64, MemoryPayload>,
    realms: &Members,
    realm: &str,
    but: Option<u64>,
) -> (r: Vec<Statement>)
    requires
        realms.wf(),
    ensures
        lists_statements(r@, payloads@, members_of(realms@, realm@), but),
{
    broadcast use vstd::std_specs::btree::group_btree_axioms;

    let ids = key_list(payloads);
    let ghost members = members_of(realms@, realm@);
    let mut r: Vec<Statement> = Vec::new();
    let mut i: usize = 0;
    while i < ids.len()
        invariant
            i <= ids@.len(),
            realms.wf(),
            members == members_of(realms@, realm@),
            lists_keys(ids@, payloads@),
            forall|a: int, b: int| 0 <= a < b < r@.len() ==> r@[a].id < r@[b].id,
            forall|a: int| 0 <= a < r@.len() ==> states_one(#[trigger] r@[a], payloads@, members, but),
            forall|a: int| 0 <= a < r@.len() && i < ids@.len() ==> (#[trigger] r@[a]).id < ids@[i as int],
            forall|k: int|
                0 <= k < i && members.contains(#[trigger] ids@[k]) && but != Some(ids@[k]) ==> exists|a: int|
                    0 <= a < r@.len() && (#[trigger] r@[a]).id == ids@[k],
        decreases ids@.len() - i,
    {
        let id: u64 = ids[i];
        assert(ids@.contains(id));
        let left_out: bool = match but {
            Some(b) => b == id,
            None => false,
        };
        let ghost was = r@;
        if !left_out && realms.has(realm, id) {
            if let Some(p) = payloads.get(&id) {
                let content = p.content.clone();
                assert(content@ =~= p.content@);
                r.push(Statement { id, content });
            }
        }
        proof {
            assert forall|k: int|
                0 <= k < i + 1 && members.contains(#[trigger] ids@[k]) && but != Some(ids@[k]) implies exists|
                a: int,
            | 0 <= a < r@.len() && (#[trigger] r@[a]).id == ids@[k] by {
                if k < i {
                    let a = choose|a: int| 0 <= a < was.len() && (#[trigger] was[a]).id == ids@[k];
                    assert(r@[a] == was[a]);
                } else {
                    assert(r@.last().id == id);
                }
            }
        }
        i = i + 1;
    }
    proof {
        assert forall|id: u64| #[trigger]
            members.contains(id) && payloads@.contains_key(id) && but != Some(id) implies exists|a: int|
            0 <= a < r@.len() && (#[trigger] r@[a]).id == id by {
            assert(ids@.contains(id));
            let k = ids@.index_of(id);
            assert(ids@[k] == id);
        }
    }
    r
}

/// What a memory is held against: what it says itself, and what its peers in a realm say.
pub struct Claim {
    pub content: Vec<u8>,
    pub peers: Vec<Statement>,
}

/// Collects what a memory is held against; nothing for a memory that is not there.
pub fn claim_of(payloads: &BTreeMap<u64, MemoryPayload>, realms: &Members, realm: &str, id: u64) -> (r:
    Option<Claim>)
    requires
        realms.wf(),
    ensures
        r is Some <==> payloads@.contains_key(id),
        r matches Some(c) ==> c.content@ == payloads@[id].content@ && lists_statements(
            c.peers@,
            payloads@,
            members_of(realms@, realm@),
            Some(id),
        ),
{
    broadcast use vstd::std_specs::btree::group_btree_axioms;

    match payloads.get(&id) {
        Some(p) => {
            let content = p.content.clone();
            assert(content@ =~= p.content@);
            Some(Claim { content, peers: statements(payloads, realms, realm, Some(id)) })
        },
        None => None,
    }
}

/// The two sides of a contradiction, and the realm of the one that prevails.
pub struct Dispute {
    pub winner: Vec<u8>,
    pub loser: Vec<u8>,
    pub realm: String,
}

/// What a memory says; nothing for a memory that is not there.
pub open spec fn content_of(payloads: Map<u64, MemoryPayload>, id: u64) -> Seq<u8> {
    if payloads.contains_key(id) {
        payloads[id].content@
    } else {
        Seq::empty()
    }
}

fn content_in(payloads: &BTreeMap<u64, MemoryPayload>, id: u64) -> (r: Vec<u8>)
    ensures
        r@ == content_of(payloads@, id),
{
    broadcast use vstd::std_specs::btree::group_btree_axioms;

    match payloads.get(&id) {
        Some(p) => {
            let r = p.content.clone();
            assert(r@ =~= p.content@);
            r
        },
        None => Vec::new(),
    }
}

pub fn dispute(payloads: &BTreeMap<u64, MemoryPayload>, winner: u64, loser: u64) -> (r: Dispute)
    ensures
        r.winner@ == content_of(payloads@, winner),
        r.loser@ == content_of(payloads@, loser),
        r.realm@ == if payloads@.contains_key(winner) {
            payloads@[winner].realm@
        } else {
            Seq::empty()
        },
{
    broadcast use vstd::std_specs::btree::group_btree_axioms;

    Dispute {
        winner: content_in(payloads, winner),
        loser: content_in(payloads, loser),
        realm: match payloads.get(&winner) {
            Some(p) => p.realm.clone(),
            None => String::new(),
        },
    }
}

/// The embedding of a memory: the one in the semantic index, or else the one in its payload.
pub open spec fn embedding_for(
    indexed: Map<u64, Vec<u32>>,
    payloads: Map<u64, MemoryPayload>,
    id: u64,
) -> Option<Seq<u32>> {
    if indexed.contains_key(id) {
        Some(indexed[id]@)
    } else if payloads.contains_key(id) {
        Some(payloads[id].embedding@)
    } else {
        None
    }
}

/// The embeddings of the given memories. Ids without one are left out.
pub fn embeddings_of(
    ids: &Vec<u64>,
    indexed: &BTreeMap<u64, Vec<u32>>,
    payloads: &BTreeMap<u64, MemoryPayload>,
) -> (r: BTreeMap<u64, Vec<u32>>)
    ensures
        forall|id: u64| #[trigger]
            r@.contains_key(id) <==> ids@.contains(id) && embedding_for(indexed@, payloads@, id) is Some,
        forall|id: u64| #[trigger]
            r@.contains_key(id) ==> embedding_for(indexed@, payloads@, id) == Some(r@[id]@),
{
    broadcast use vstd::std_specs::btree::group_btree_axioms;

    let mut r: BTreeMap<u64, Vec<u32>> = BTreeMap::new();
    let mut i: usize = 0;
    while i < ids.len()
        invariant
            i <= ids@.len(),
            forall|id: u64| #[trigger]
                r@.contains_key(id) <==> ids@.take(i as int).contains(id) && embedding_for(
                    indexed@,
                    payloads@,
                    id,
                ) is Some,
            forall|id: u64| #[trigger]
                r@.contains_key(id) ==> embedding_for(indexed@, payloads@, id) == Some(r@[id]@),
        decreases ids@.len() - i,
    {
        let id: u64 = ids[i];
        proof {
            assert(ids@.take(i + 1) =~= ids@.take(i as int).push(id));
            assert forall|x: u64| ids@.take(i + 1).contains(x) <==> ids@.take(i as int).contains(x) || x == id by {
                if ids@.take(i as int).contains(x) {
                    let k = ids@.take(i as int).index_of(x);
                    assert(ids@.take(i + 1)[k] == x);
                }
                assert(ids@.take(i + 1)[i as int] == id);
            }
        }
        match indexed.get(&id) {
            Some(e) => {
                let copy = e.clone();
                assert(copy@ =~= e@);
                r.insert(id, copy);
            },
            None => {
                if let Some(p) = payloads.get(&id) {
                    let copy = p.embedding.clone();
                    assert(copy@ =~= p.embedding@);
                    r.insert(id, copy);
                }
            },
        }
        i = i + 1;
    }
    assert(ids@.take(i as int) =~= ids@);
    r
}

/// The first place from `i` on at which `pat` stands in `s`.
pub open spec fn first_place(s: Seq<char>, pat: Seq<char>, i: int) -> Option<int>
    decreases s.len() + 1 - i,
{
    if i + pat.len() > s.len() {
        None
    } else if stands_at(s, pat, i) {
        Some(i)
    } else {
        first_place(s, pat, i + 1)
    }
}

fn find_text(s: &str, pat: &str) -> (r: Option<usize>)
    ensures
        r is Some <==> first_place(s@, pat@, 0) is Some,
        r matches Some(i) ==> first_place(s@, pat@, 0) == Some(i as int) && stands_at(s@, pat@, i as int),
{
    let n: usize = s.unicode_len();
    let m: usize = pat.unicode_len();
    if n < m {
        return None;
    }
    let last: usize = n - m;
    let mut i: usize = 0;
    loop
        invariant
            n == s@.len(),
            m == pat@.len(),
            m <= n,
            last == n - m,
            i <= last,
            first_place(s@, pat@, 0) == first_place(s@, pat@, i as int),
        decreases last - i,
    {
        let here = s.substring_char(i, i + m);
        if str_eq(here, pat) {
            return Some(i);
        }
        if i == last {
            assert(first_place(s@, pat@, i + 1) is None);
            return None;
        }
        i = i + 1;
    }
}

/// What stands between the first and the second `pat`, or after the only one.
pub open spec fn second_piece(s: Seq<char>, pat: Seq<char>) -> Option<Seq<char>> {
    match first_place(s, pat, 0) {
        None => None,
        Some(a) => {
            let rest = s.skip(a + pat.len());
            Some(
                match first_place(rest, pat, 0) {
                    Some(b) => rest.take(b),
                    None => rest,
                },
            )
        },
    }
}

/// What follows the first `c`.
pub open spec fn after_char(s: Seq<char>, c: char) -> Option<Seq<char>>
    decreases s.len(),
{
    if s.len() == 0 {
        None
    } else if s[0] == c {
        Some(s.skip(1))
    } else {
        after_char(s.skip(1), c)
    }
}

/// What stands before the first space or opening bracket.
pub open spec fn bare_word(s: Seq<char>) -> Seq<char>
    decreases s.len(),
{
    if s.len() == 0 || s[0] == ' ' || s[0] == '(' {
        Seq::empty()
    } else {
        seq![s[0]] + bare_word(s.skip(1))
    }
}

/// The name in a recalled binding, which reads
/// `[hdcbind] given role=val → qrole=NAME (sim=...)`; empty where it reads otherwise.
pub open spec fn bound_name(content: Seq<char>) -> Seq<char> {
    match second_piece(content, "→ "@) {
        Some(s) => match after_char(s, '=') {
            Some(t) => bare_word(t),
            None => Seq::empty(),
        },
        None => Seq::empty(),
    }
}

fn rest_after(s: &str, c: char) -> (r: Option<&str>)
    ensures
        r is Some <==> after_char(s@, c) is Some,
        r matches Some(t) ==> t@ == after_char(s@, c)->0,
{
    let n: usize = s.unicode_len();
    let mut i: usize = 0;
    assert(s@.skip(0) =~= s@);
    while i < n
        invariant
            n == s@.len(),
            i <= n,
            after_char(s@, c) == after_char(s@.skip(i as int), c),
        decreases n - i,
    {
        assert(s@.skip(i as int).skip(1) =~= s@.skip(i + 1));
        if s.get_char(i) == c {
            let rest = s.substring_char(i + 1, n);
            assert(rest@ =~= s@.skip(i + 1));
            return Some(rest);
        }
        i = i + 1;
    }
    None
}

fn word_of(s: &str) -> (r: &str)
    ensures
        r@ == bare_word(s@),
{
    let n: usize = s.unicode_len();
    let mut i: usize = 0;
    assert(s@.skip(0) =~= s@);
    assert(bare_word(s@) =~= s@.take(0) + bare_word(s@.skip(0)));
    while i < n
        invariant
            n == s@.len(),
            i <= n,
            bare_word(s@) == s@.take(i as int) + bare_word(s@.skip(i as int)),
        decreases n - i,
    {
        let c: char = s.get_char(i);
        if c == ' ' || c == '(' {
            let word = s.substring_char(0, i);
            assert(word@ =~= bare_word(s@));
            return word;
        }
        proof {
            assert(s@.skip(i as int).skip(1) =~= s@.skip(i + 1));
            assert(s@.take(i as int) + (seq![c] + bare_word(s@.skip(i + 1))) =~= s@.take(i + 1) + bare_word(
                s@.skip(i + 1),
            ));
        }
        i = i + 1;
    }
    assert(s@.take(n as int) + bare_word(s@.skip(n as int)) =~= s@);
    s
}

pub fn binding_name(content: &str) -> (r: String)
    ensures
        r@ == bound_name(content@),
{
    let n: usize = content.unicode_len();
    let m: usize = "→ ".unicode_len();
    match find_text(content, "→ ") {
        None => String::new(),
        Some(a) => {
            let rest = content.substring_char(a + m, n);
            assert(rest@ =~= content@.skip(a + m));
            let piece = match find_text(rest, "→ ") {
                Some(b) => {
                    let front = rest.substring_char(0, b);
                    assert(front@ =~= rest@.take(b as int));
                    front
                },
                None => rest,
            };
            match rest_after(piece, '=') {
                Some(t) => word_of(t).to_owned(),
                None => String::new(),
            }
        },
    }
}

/// A question `a` is to `b` as `c` is to what.
pub struct Analogy {
    pub a: String,
    pub b: String,
    pub c: String,
    pub limit: usize,
}

/// Why a request for an analogy is turned down.
pub open spec fn analogy_fault(
    valid: bool,
    mode: Option<Seq<char>>,
    a: Option<Seq<char>>,
    b: Option<Seq<char>>,
    c: Option<Seq<char>>,
) -> Option<Seq<char>> {
    if !valid {
        Some("recall_analogy: bad JSON"@)
    } else if or_text(mode, "proportional"@) != "proportional"@ {
        Some("recall_analogy supports proportional mode only; use query_graph for graph queries"@)
    } else if blank(or_text(a, ""@)) || blank(or_text(b, ""@)) || blank(or_text(c, ""@)) {
        Some("proportional mode needs a, b and c (a:b :: c:?)"@)
    } else {
        None
    }
}

/// How many answers a request for an analogy asks for.
pub open spec fn analogy_limit(limit: Option<u64>) -> int {
    clamped(or_number(limit, 8) as int, 1, 100)
}

/// Makes out a request for an analogy from what its JSON says; `valid` says that it is JSON.
pub fn check_analogy(
    valid: bool,
    mode: Option<String>,
    a: Option<String>,
    b: Option<String>,
    c: Option<String>,
    limit: Option<u64>,
) -> (r: Result<Analogy, String>)
    ensures
        r is Err <==> analogy_fault(valid, shown(mode), shown(a), shown(b), shown(c)) is Some,
        r matches Err(e) ==> e@ == analogy_fault(valid, shown(mode), shown(a), shown(b), shown(c))->0,
        r matches Ok(q) ==> {
            &&& q.a@ == or_text(shown(a), ""@)
            &&& q.b@ == or_text(shown(b), ""@)
            &&& q.c@ == or_text(shown(c), ""@)
            &&& q.limit == analogy_limit(limit)
        },
{
    if !valid {
        return Err("recall_analogy: bad JSON".to_owned());
    }
    let mode = text_given(mode, "proportional");
    if !str_eq(mode.as_str(), "proportional") {
        return Err(
            "recall_analogy supports proportional mode only; use query_graph for graph queries".to_owned(),
        );
    }
    let a = text_given(a, "");
    let b = text_given(b, "");
    let c = text_given(c, "");
    if is_blank(a.as_str()) || is_blank(b.as_str()) || is_blank(c.as_str()) {
        return Err("proportional mode needs a, b and c (a:b :: c:?)".to_owned());
    }
    let n: u64 = number_given(limit, 8);
    let limit: usize = if n < 1 {
        1
    } else if n > 100 {
        100
    } else {
        n as usize
    };
    Ok(Analogy { a, b, c, limit })
}

/// Why the request that `bytes` hold is turned down.
pub open spec fn request_fault(bytes: Seq<u8>) -> Option<Seq<char>> {
    analogy_fault(
        json_valid(bytes),
        json_text_member(bytes, "mode"@),
        json_text_member(bytes, "a"@),
        json_text_member(bytes, "b"@),
        json_text_member(bytes, "c"@),
    )
}

/// Reads a request for an analogy.
pub fn analogy_request(bytes: &[u8]) -> (r: Result<Analogy, String>)
    ensures
        r is Err <==> request_fault(bytes@) is Some,
        r matches Err(e) ==> e@ == request_fault(bytes@)->0,
        r matches Ok(q) ==> {
            &&& q.a@ == text_or(bytes@, "a"@, ""@)
            &&& q.b@ == text_or(bytes@, "b"@, ""@)
            &&& q.c@ == text_or(bytes@, "c"@, ""@)
            &&& q.limit == analogy_limit(json_u64_member(bytes@, "limit"@))
        },
{
    check_analogy(
        is_json(bytes),
        text_member(bytes, "mode"),
        text_member(bytes, "a"),
        text_member(bytes, "b"),
        text_member(bytes, "c"),
        u64_member(bytes, "limit"),
    )
}

/// Answers a request for an analogy.
pub fn recall_analogy(store: &TripletStore, bytes: &[u8], now_ms: i64) -> (r: Result<RelationTransfer, String>)
    requires
        store.wf(),
    ensures
        r is Err <==> request_fault(bytes@) is Some,
        r matches Err(e) ==> e@ == request_fault(bytes@)->0,
        r matches Ok(t) ==> answers(
            t,
            *store,
            text_or(bytes@, "a"@, ""@),
            text_or(bytes@, "b"@, ""@),
            text_or(bytes@, "c"@, ""@),
            analogy_limit(json_u64_member(bytes@, "limit"@)),
            now_ms,
        ),
{
    match analogy_request(bytes) {
        Err(e) => Err(e),
        Ok(q) => {
            let mut t = proportional(store, q.a.as_str(), q.b.as_str(), q.c.as_str(), now_ms);
            t.rank(q.limit);
            Ok(t)
        },
    }
}

/// `t` is the ranked transfer of the relation between `a` and `b` to `c`.
pub open spec fn answers(
    t: RelationTransfer,
    store: TripletStore,
    a: Seq<char>,
    b: Seq<char>,
    c: Seq<char>,
    limit: int,
    now_ms: i64,
) -> bool {
    let source = source_edges(store, a, b, now_ms);
    let target = target_edges(store, a, b, c, now_ms);
    &&& stable_sort_of(t.relations@, source)
    &&& exists|groups: Seq<Seq<TripletEntry>>|
        {
            &&& #[trigger] ranks_groups(groups, singletons(target).flatten())
            &&& group_views(t.results@) == kept_groups(groups, limit)
        }
    &&& t.reason == if source.len() == 0 {
        Some("no_source_relation")
    } else if target.len() == 0 {
        Some("no_target_relation")
    } else {
        None
    }
    &&& t.indexed == store.facts().len()
}

/// The weight that is given out: zero for one that is not finite.
pub fn shown_weight(bits: u32) -> (r: u32)
    ensures
        r == if finite(bits) {
            bits
        } else {
            0
        },
{
    if is_finite(bits) {
        bits
    } else {
        0
    }
}

/// One answer to an analogy, told by its best citation.
pub struct Answer {
    pub id: u64,
    pub score: u32,
    pub answer: String,
    pub predicate: String,
    pub realm: String,
    pub text: String,
}

/// Tells an answer by its best citation and by the memory that the citation comes from.
pub fn answer_of(best: &TripletEntry, source: Option<&MemoryPayload>) -> (r: Answer)
    ensures
        r.id == match best.source_memory_id {
            Some(id) => id,
            None => 0,
        },
        r.score == if finite(best.weight) {
            best.weight
        } else {
            0
        },
        r.answer@ == best.object@,
        r.predicate@ == best.predicate@,
        r.realm@ == match source {
            Some(p) => p.realm@,
            None => Seq::empty(),
        },
        r.text@ == match source {
            Some(p) => lossy_text(p.content@),
            None => Seq::empty(),
        },
{
    Answer {
        id: match best.source_memory_id {
            Some(id) => id,
            None => 0,
        },
        score: shown_weight(best.weight),
        answer: best.object.clone(),
        predicate: best.predicate.clone(),
        realm: match source {
            Some(p) => p.realm.clone(),
            None => String::new(),
        },
        text: match source {
            Some(p) => lossy(p.content.as_slice()),
            None => String::new(),
        },
    }
}

/// A text to learn from.
pub struct Example {
    pub id: u64,
    pub text: String,
}

/// A memory to learn from: it has a sparse code and says something.
pub open spec fn teaches(payloads: Map<u64, MemoryPayload>, coded: Set<u64>, id: u64) -> bool {
    payloads.contains_key(id) && coded.contains(id) && !blank(lossy_text(payloads[id].content@))
}

/// `out` lists the memories to learn from, by ascending id.
pub open spec fn lists_examples(out: Seq<Example>, payloads: Map<u64, MemoryPayload>, coded: Set<u64>) -> bool {
    &&& forall|i: int, j: int| 0 <= i < j < out.len() ==> out[i].id < out[j].id
    &&& forall|i: int|
        0 <= i < out.len() ==> teaches(payloads, coded, (#[trigger] out[i]).id) && out[i].text@ == lossy_text(
            payloads[out[i].id].content@,
        )
    &&& forall|id: u64| #[trigger]
        teaches(payloads, coded, id) ==> exists|i: int| 0 <= i < out.len() && (#[trigger] out[i]).id == id
}

/// What the light encoder learns from. It learns nothing while it or the cortical index is
/// switched off. `coded` holds the memories whose sparse code is not empty.
pub fn training_examples(
    ablations: &Ablations,
    payloads: &BTreeMap<u64, MemoryPayload>,
    coded: &BTreeSet<u64>,
) -> (r: Vec<Example>)
    ensures
        ablations@.contains("lite_encoder"@) || ablations@.contains("cortical_idx"@) ==> r@.len() == 0,
        !ablations@.contains("lite_encoder"@) && !ablations@.contains("cortical_idx"@) ==> lists_examples(
            r@,
            payloads@,
            coded@,
        ),
{
    broadcast use vstd::std_specs::btree::group_btree_axioms;

    if ablations.disabled("lite_encoder") || ablations.disabled("cortical_idx") {
        return Vec::new();
    }
    let ids = key_list(payloads);
    let mut r: Vec<Example> = Vec::new();
    let mut i: usize = 0;
    while i < ids.len()
        invariant
            i <= ids@.len(),
            lists_keys(ids@, payloads@),
            forall|a: int, b: int| 0 <= a < b < r@.len() ==> r@[a].id < r@[b].id,
            forall|a: int|
                0 <= a < r@.len() ==> teaches(payloads@, coded@, (#[trigger] r@[a]).id) && r@[a].text@
                    == lossy_text(payloads@[r@[a].id].content@),
            forall|a: int| 0 <= a < r@.len() && i < ids@.len() ==> (#[trigger] r@[a]).id < ids@[i as int],
            forall|k: int|
                0 <= k < i && teaches(payloads@, coded@, #[trigger] ids@[k]) ==> exists|a: int|
                    0 <= a < r@.len() && (#[trigger] r@[a]).id == ids@[k],
        decreases ids@.len() - i,
    {
        let id: u64 = ids[i];
        assert(ids@.contains(id));
        let ghost was = r@;
        if coded.contains(&id) {
            if let Some(p) = payloads.get(&id) {
                let text = lossy(p.content.as_slice());
                if !is_blank(text.as_str()) {
                    r.push(Example { id, text });
                }
            }
        }
        proof {
            assert forall|k: int| 0 <= k < i + 1 && teaches(payloads@, coded@, #[trigger] ids@[k]) implies exists|
                a: int,
            | 0 <= a < r@.len() && (#[trigger] r@[a]).id == ids@[k] by {
                if k < i {
                    let a = choose|a: int| 0 <= a < was.len() && (#[trigger] was[a]).id == ids@[k];
                    assert(r@[a] == was[a]);
                } else {
                    assert(r@.last().id == id);
                }
            }
        }
        i = i + 1;
    }
    proof {
        assert forall|id: u64| #[trigger] teaches(payloads@, coded@, id) implies exists|a: int|
            0 <= a < r@.len() && (#[trigger] r@[a]).id == id by {
            assert(ids@.contains(id));
            let k = ids@.index_of(id);
            assert(ids@[k] == id);
        }
    }
    r
}

/// The places whose name is the wanted one; all places where none is wanted.
pub open spec fn named(names: Seq<String>, wanted: Option<Seq<char>>) -> spec_fn(usize) -> bool {
    |i: usize| wanted matches Some(w) ==> names[i as int]@ == w
}

/// Lists the entries that go by a name, in their order: code files of a project, entities of a
/// type.
pub fn list_named(names: &Vec<String>, wanted: Option<&str>) -> (r: Vec<usize>)
    ensures
        r@ == numbers(names@.len()).filter(
            named(
                names@,
                match wanted {
                    Some(w) => Some(w@),
                    None => None,
                },
            ),
        ),
{
    let ghost asked = match wanted {
        Some(w) => Some(w@),
        None => None,
    };
    let ghost pred = named(names@, asked);
    let ghost all = numbers(names@.len());
    let mut r: Vec<usize> = Vec::new();
    let mut i: usize = 0;
    while i < names.len()
        invariant
            i <= names@.len(),
            asked == (match wanted {
                Some(w) => Some(w@),
                None => None,
            }),
            pred == named(names@, asked),
            all == numbers(names@.len()),
            r@ == all.take(i as int).filter(pred),
        decreases names@.len() - i,
    {
        proof {
            filter_step(all, pred, i as int);
            assert(all[i as int] == i);
        }
        let here: bool = match wanted {
            Some(w) => str_eq(names[i].as_str(), w),
            None => true,
        };
        if here {
            r.push(i);
        }
        i = i + 1;
    }
    proof {
        filter_ends(all, pred);
    }
    r
}

/// A memory, as far as its admission is concerned.
#[derive(Clone, Copy, Debug)]
pub struct Staging {
    pub deleted: bool,
    pub staged: bool,
    pub created_at_ms: i64,
}

/// The memory waits to be admitted.
pub open spec fn waits(s: Staging) -> bool {
    s.staged && !s.deleted
}

/// How many memories wait to be admitted, and how long the oldest of them has waited.
#[derive(Clone, Copy, Debug, PartialEq, Eq, Structural)]
pub struct Backlog {
    pub count: usize,
    pub oldest_age_ms: u64,
}

/// How many of the first `n` wait.
pub open spec fn waiting(rows: Seq<Staging>, n: int) -> nat
    decreases n,
{
    if n <= 0 {
        0
    } else {
        waiting(rows, n - 1) + if waits(rows[n - 1]) {
            1nat
        } else {
            0
        }
    }
}

/// The earliest time at which one of the first `n` was written that wait, and no later than
/// `now_ms`.
pub open spec fn earliest_wait(rows: Seq<Staging>, now_ms: i64, n: int) -> i64
    decreases n,
{
    if n <= 0 {
        now_ms
    } else {
        let before = earliest_wait(rows, now_ms, n - 1);
        if waits(rows[n - 1]) && rows[n - 1].created_at_ms < before {
            rows[n - 1].created_at_ms
        } else {
            before
        }
    }
}

/// Counts the memories that wait to be admitted.
pub fn backlog(rows: &Vec<Staging>, now_ms: i64) -> (r: Backlog)
    ensures
        r.count == waiting(rows@, rows@.len() as int),
        r.oldest_age_ms == now_ms - earliest_wait(rows@, now_ms, rows@.len() as int),
{
    let mut count: usize = 0;
    let mut oldest_ms: i64 = now_ms;
    let mut i: usize = 0;
    while i < rows.len()
        invariant
            i <= rows@.len(),
            count <= i,
            count == waiting(rows@, i as int),
            oldest_ms == earliest_wait(rows@, now_ms, i as int),
            oldest_ms <= now_ms,
        decreases rows@.len() - i,
    {
        let s = rows[i];
        if s.staged && !s.deleted {
            count = count + 1;
            if s.created_at_ms < oldest_ms {
                oldest_ms = s.created_at_ms;
            }
        }
        i = i + 1;
    }
    Backlog { count, oldest_age_ms: (now_ms as i128 - oldest_ms as i128) as u64 }
}

/// What a hit tells of the state of a memory.
#[derive(Clone, Copy, Debug, PartialEq, Eq, Structural)]
pub struct HitFacts {
    pub ts_ms: i64,
    pub strength: u32,
    pub confidence: u32,
    pub access_count: u32,
}

/// Tells the state of a memory; all zero for a memory without a state.
pub fn hit_facts(states: &BTreeMap<u64, MemoryState>, id: u64) -> (r: HitFacts)
    ensures
        r == if states@.contains_key(id) {
            HitFacts {
                ts_ms: states@[id].last_accessed_ms,
                strength: states@[id].strength,
                confidence: states@[id].confidence,
                access_count: states@[id].access_count,
            }
        } else {
            HitFacts { ts_ms: 0, strength: 0, confidence: 0, access_count: 0 }
        },
{
    broadcast use vstd::std_specs::btree::group_btree_axioms;

    match states.get(&id) {
        Some(s) => HitFacts {
            ts_ms: s.last_accessed_ms,
            strength: s.strength,
            confidence: s.confidence,
            access_count: s.access_count,
        },
        None => HitFacts { ts_ms: 0, strength: 0, confidence: 0, access_count: 0 },
    }
}

/// The name of an edge type by its number.
pub open spec fn census_name(i: int) -> Seq<char> {
    if i == 0 {
        "DerivedFrom"@
    } else if i == 1 {
        "SameSession"@
    } else if i == 2 {
        "SameArtifact"@
    } else if i == 3 {
        "CoRetrieved"@
    } else if i == 4 {
        "Supports"@
    } else if i == 5 {
        "Contradicts"@
    } else {
        "SemanticNeighbor"@
    }
}

fn census_label(i: usize) -> (r: &'static str)
    ensures
        r@ == census_name(i as int),
{
    if i == 0 {
        "DerivedFrom"
    } else if i == 1 {
        "SameSession"
    } else if i == 2 {
        "SameArtifact"
    } else if i == 3 {
        "CoRetrieved"
    } else if i == 4 {
        "Supports"
    } else if i == 5 {
        "Contradicts"
    } else {
        "SemanticNeighbor"
    }
}

/// How many edges of a type there are, and how their weights spread over five ranges.
#[derive(Clone, Copy, Debug)]
pub struct CensusRow {
    pub count: u64,
    pub w0: u64,
    pub w1: u64,
    pub w2: u64,
    pub w3: u64,
    pub w4: u64,
}

pub open spec fn census_entry(row: CensusRow, i: int) -> Seq<char> {
    "{\"type\":\""@ + census_name(i) + "\",\"count\":"@ + numeral(row.count as int) + ",\"weights\":["@
        + numeral(row.w0 as int) + ","@ + numeral(row.w1 as int) + ","@ + numeral(row.w2 as int) + ","@
        + numeral(row.w3 as int) + ","@ + numeral(row.w4 as int) + "]}"@
}

/// The entries of the first `n` rows, with commas between them.
pub open spec fn census_entries(rows: Seq<CensusRow>, n: int) -> Seq<char>
    decreases n,
{
    if n <= 0 {
        Seq::empty()
    } else if n == 1 {
        census_entry(rows[0], 0)
    } else {
        census_entries(rows, n - 1) + ","@ + census_entry(rows[n - 1], n - 1)
    }
}

fn entry_text(row: &CensusRow, i: usize) -> (r: String)
    ensures
        r@ == census_entry(*row, i as int),
{
    let mut r = "{\"type\":\"".to_owned();
    r.append(census_label(i));
    r.append("\",\"count\":");
    r.append(u64_text(row.count).as_str());
    r.append(",\"weights\":[");
    r.append(u64_text(row.w0).as_str());
    r.append(",");
    r.append(u64_text(row.w1).as_str());
    r.append(",");
    r.append(u64_text(row.w2).as_str());
    r.append(",");
    r.append(u64_text(row.w3).as_str());
    r.append(",");
    r.append(u64_text(row.w4).as_str());
    r.append("]}");
    r
}

/// Writes out how the edges spread, one row for each edge type in the order of their numbers.
pub fn census_text(rows: &Vec<CensusRow>) -> (r: String)
    requires
        rows@.len() <= 7,
    ensures
        r@ == "["@ + census_entries(rows@, rows@.len() as int) + "]"@,
{
    let mut entries = String::new();
    let mut i: usize = 0;
    while i < rows.len()
        invariant
            i <= rows@.len(),
            entries@ == census_entries(rows@, i as int),
        decreases rows@.len() - i,
    {
        let entry = entry_text(&rows[i], i);
        if i > 0 {
            entries.append(",");
        }
        let ghost front = entries@;
        entries.append(entry.as_str());
        assert(entries@ =~= front + entry@);
        i = i + 1;
    }
    let mut r = "[".to_owned();
    r.append(entries.as_str());
    r.append("]");
    r
}

/// The answer to a recall by session: the sessions that were handed over, and how many they are.
pub struct SessionReply {
    pub text: String,
    pub count: usize,
}

/// Answers a recall by session whose caller has room for `room` sessions: the ids of the first
/// sessions, as many as there is room for, as a JSON array in the order in which they were found.
pub fn session_reply(found: &Vec<String>, room: usize) -> (r: SessionReply)
    ensures
        r.count == if found@.len() <= room {
            found@.len()
        } else {
            room as nat
        },
        r.text@ == json_text_array(views(found@).take(r.count as int)),
{
    let count: usize = if found.len() <= room {
        found.len()
    } else {
        room
    };
    let mut kept: Vec<String> = Vec::new();
    let mut i: usize = 0;
    while i < count
        invariant
            i <= count <= found@.len(),
            views(kept@) == views(found@).take(i as int),
        decreases count - i,
    {
        let id = found[i].as_str().to_owned();
        proof {
            views_push(kept@, id);
            assert(views(found@).take(i + 1) =~= views(found@).take(i as int).push(found@[i as int]@));
        }
        kept.push(id);
        i = i + 1;
    }
    SessionReply { text: text_array(&kept), count }
}

/// Edge `k` of memory `src`, as it is given out.
pub open spec fn shown_edge(m: Map<u64, Seq<AssocEdge>>, src: u64, k: int, row: EdgeRow) -> bool {
    &&& m.contains_key(src)
    &&& 0 <= k < m[src].len()
    &&& row.src == src
    &&& row.dst == m[src][k].dst
    &&& row.weight == m[src][k].weight
    &&& row.edge_type == edge_type_number(m[src][k].edge_type)
}

proof fn rows_lead_there(src: u64, edges: Seq<AssocEdge>, dst: u64, n: int, row: EdgeRow)
    requires
        0 <= n <= edges.len(),
    ensures
        rows_to(src, edges, dst, n).contains(row) <==> exists|k: int|
            0 <= k < n && #[trigger] edges[k].dst == dst && row == row_of(src, edges[k]),
    decreases n,
{
    if n > 0 {
        rows_lead_there(src, edges, dst, n - 1, row);
        let before = rows_to(src, edges, dst, n - 1);
        let after = rows_to(src, edges, dst, n);
        if edges[n - 1].dst == dst {
            let last = row_of(src, edges[n - 1]);
            assert(after[before.len() as int] == last);
            if before.contains(row) {
                assert(after[before.index_of(row)] == row);
            }
            if after.contains(row) {
                let i = after.index_of(row);
                if i < before.len() {
                    assert(before[i] == row);
                }
            }
        }
    }
}

proof fn incoming_leads_here(m: Map<u64, Seq<AssocEdge>>, srcs: Seq<u64>, id: u64, n: int, row: EdgeRow)
    requires
        0 <= n <= srcs.len(),
    ensures
        incoming(m, srcs, id, n).contains(row) <==> exists|j: int, k: int|
            {
                &&& 0 <= j < n
                &&& #[trigger] srcs[j] != id
                &&& 0 <= k < outgoing(m, srcs[j]).len()
                &&& (#[trigger] outgoing(m, srcs[j])[k]).dst == id
                &&& row == row_of(srcs[j], outgoing(m, srcs[j])[k])
            },
    decreases n,
{
    if n > 0 {
        incoming_leads_here(m, srcs, id, n - 1, row);
        let src = srcs[n - 1];
        let edges = outgoing(m, src);
        rows_lead_there(src, edges, id, edges.len() as int, row);
        let before = incoming(m, srcs, id, n - 1);
        let more = rows_to(src, edges, id, edges.len() as int);
        if src != id {
            assert((before + more).contains(row) <==> before.contains(row) || more.contains(row)) by {
                if before.contains(row) {
                    assert((before + more)[before.index_of(row)] == row);
                }
                if more.contains(row) {
                    assert((before + more)[before.len() + more.index_of(row)] == row);
                }
                if (before + more).contains(row) {
                    let i = (before + more).index_of(row);
                    if i < before.len() {
                        assert(before[i] == row);
                    } else {
                        assert(more[i - before.len()] == row);
                    }
                }
            }
            if more.contains(row) {
                let k = choose|k: int|
                    0 <= k < edges.len() && #[trigger] edges[k].dst == id && row == row_of(src, edges[k]);
                assert(outgoing(m, srcs[n - 1])[k].dst == id);
            }
        }
    }
}

/// Every edge that leaves a memory or leads to it is given out, and no other, unless the answer is
/// full.
pub proof fn edges_at_both_ends_are_found(
    edges: AssocEdges,
    id: u64,
    limit: usize,
    r: Vec<EdgeRow>,
    src: u64,
    k: int,
    row: EdgeRow,
)
    requires
        call_ensures(get_assoc_edges, (&edges, id, limit), r),
    ensures
        r@.len() <= limit,
        shown_edge(edges@, src, k, row) && (row.src == id || row.dst == id) ==> r@.contains(row)
            || r@.len() == limit,
        r@.contains(row) ==> row.src == id || row.dst == id,
        r@.contains(row) ==> exists|j: int| shown_edge(edges@, row.src, j, row),
{
    let m = edges@;
    let srcs = choose|srcs: Seq<u64>| #[trigger]
        lists_keys(srcs, m) && r@ == first_of(edges_at(m, srcs, id), limit as int);
    let all = edges_at(m, srcs, id);
    let out = outgoing(m, id).map_values(departing(id));
    let back = incoming(m, srcs, id, srcs.len() as int);
    incoming_leads_here(m, srcs, id, srcs.len() as int, row);
    if shown_edge(m, src, k, row) && (row.src == id || row.dst == id) && r@.len() < limit {
        if src == id {
            assert(out[k] == row);
            assert(all[k] == row);
        } else {
            assert(srcs.contains(src));
            let j = srcs.index_of(src);
            assert(outgoing(m, srcs[j])[k].dst == id);
            assert(back.contains(row));
            assert(all[out.len() + back.index_of(row)] == row);
        }
        assert(all.contains(row));
    }
    if r@.contains(row) {
        let i = r@.index_of(row);
        assert(all[i] == row);
        if i < out.len() {
            assert(out[i] == row);
            assert(shown_edge(m, id, i, row));
        } else {
            assert(back[i - out.len()] == row);
            assert(back.contains(row));
            let (j, n) = choose|j: int, n: int|
                {
                    &&& 0 <= j < srcs.len()
                    &&& #[trigger] srcs[j] != id
                    &&& 0 <= n < outgoing(m, srcs[j]).len()
                    &&& (#[trigger] outgoing(m, srcs[j])[n]).dst == id
                    &&& row == row_of(srcs[j], outgoing(m, srcs[j])[n])
                };
            assert(m.contains_key(srcs[j]));
            assert(shown_edge(m, srcs[j], n, row));
        }
    }
}

/// Transcripts come latest first, and one is left out only when there are as many as were asked
/// for that are at least as late.
pub proof fn late_transcripts_come_first(
    times: Vec<Latest>,
    limit: usize,
    r: Vec<usize>,
    i: int,
    j: int,
    place: int,
)
    requires
        call_ensures(latest_transcripts, (&times, limit), r),
        0 <= place < times@.len(),
    ensures
        r@.len() <= limit,
        r@.len() == limit || r@.contains(place as usize),
        0 <= i < r@.len() ==> r@[i] < times@.len() && (r@.contains(place as usize) || times@[r@[i] as int].at_ms
            >= times@[place].at_ms),
        0 <= i < j < r@.len() ==> r@[i] != r@[j] && times@[r@[i] as int].at_ms >= times@[r@[j] as int].at_ms,
{
    assert(times.len() == times@.len());
    let p = choose|p: Seq<usize>|
        {
            &&& p.len() == times@.len()
            &&& #[trigger] crate::order::sorts_range(p, times@, 0, times@.len() as int)
            &&& r@ == first_of(p, limit as int)
        };
    assert(lists(p, place));
    let at = choose|at: int| 0 <= at < p.len() && #[trigger] p[at] == place;
    if at < r@.len() {
        assert(r@[at] == place);
    }
    if 0 <= i < r@.len() {
        assert(r@[i] == p[i]);
        if at >= r@.len() {
            assert(sorts_before(times@, p[i] as int, p[at] as int));
        }
    }
    if 0 <= i < j < r@.len() {
        assert(r@[j] == p[j]);
        assert(sorts_before(times@, p[i] as int, p[j] as int));
    }
}

proof fn numbers_hold(n: nat, i: usize)
    requires
        n <= usize::MAX,
    ensures
        numbers(n).contains(i) <==> i < n,
{
    if i < n {
        assert(numbers(n)[i as int] == i);
    }
}

/// A task is listed when it is active, where only active ones are wanted, and of the wanted kind,
/// where one is wanted.
pub proof fn wanted_tasks_are_listed(
    tasks: Vec<TaskRow>,
    kind: Option<&str>,
    active_only: bool,
    r: Vec<usize>,
    i: usize,
)
    requires
        call_ensures(list_tasks, (&tasks, kind, active_only), r),
    ensures
        r@.contains(i) <==> i < tasks@.len() && (active_only ==> tasks@[i as int].active) && (kind is Some
            ==> tasks@[i as int].kind@ == kind->0@),
{
    assert(tasks.len() == tasks@.len());
    let wanted = match kind {
        Some(k) => Some(k@),
        None => None,
    };
    filter_members(numbers(tasks@.len()), shown_task(tasks@, wanted, active_only));
    numbers_hold(tasks@.len(), i);
}

/// An entry is listed when its name is the wanted one, or when none is wanted.
pub proof fn wanted_names_are_listed(names: Vec<String>, wanted: Option<&str>, r: Vec<usize>, i: usize)
    requires
        call_ensures(list_named, (&names, wanted), r),
    ensures
        r@.contains(i) <==> i < names@.len() && (wanted is Some ==> names@[i as int]@ == wanted->0@),
{
    assert(names.len() == names@.len());
    let name = match wanted {
        Some(w) => Some(w@),
        None => None,
    };
    filter_members(numbers(names@.len()), named(names@, name));
    numbers_hold(names@.len(), i);
}

/// A member of a realm is heard with its own words, unless it is the one that is left out; nobody
/// else is heard.
pub proof fn members_are_heard(
    out: Seq<Statement>,
    payloads: Map<u64, MemoryPayload>,
    members: Set<u64>,
    but: Option<u64>,
    id: u64,
)
    requires
        lists_statements(out, payloads, members, but),
        payloads.contains_key(id),
    ensures
        members.contains(id) && but != Some(id) <==> exists|i: int|
            0 <= i < out.len() && (#[trigger] out[i]).id == id && out[i].content@ == payloads[id].content@,
        forall|i: int| 0 <= i < out.len() ==> payloads.contains_key((#[trigger] out[i]).id),
{
    if members.contains(id) && but != Some(id) {
        let i = choose|i: int| 0 <= i < out.len() && (#[trigger] out[i]).id == id;
        assert(states_one(out[i], payloads, members, but));
        assert(out[i].id == id && out[i].content@ == payloads[id].content@);
    }
}

/// The side that prevails is heard as the winner and gives its realm.
pub proof fn disputes_keep_their_sides(
    payloads: BTreeMap<u64, MemoryPayload>,
    winner: u64,
    loser: u64,
    r: Dispute,
)
    requires
        call_ensures(dispute, (&payloads, winner, loser), r),
    ensures
        payloads@.contains_key(winner) ==> r.winner@ == payloads@[winner].content@ && r.realm@
            == payloads@[winner].realm@,
        payloads@.contains_key(loser) ==> r.loser@ == payloads@[loser].content@,
        !payloads@.contains_key(winner) ==> r.winner@.len() == 0 && r.realm@.len() == 0,
        !payloads@.contains_key(loser) ==> r.loser@.len() == 0,
{
}

/// The embedding in the index comes before the one in the payload, and a memory with neither is
/// left out.
pub proof fn indexed_embeddings_come_first(
    ids: Vec<u64>,
    indexed: BTreeMap<u64, Vec<u32>>,
    payloads: BTreeMap<u64, MemoryPayload>,
    r: BTreeMap<u64, Vec<u32>>,
    id: u64,
)
    requires
        call_ensures(embeddings_of, (&ids, &indexed, &payloads), r),
    ensures
        r@.contains_key(id) <==> ids@.contains(id) && (indexed@.contains_key(id) || payloads@.contains_key(
            id,
        )),
        r@.contains_key(id) && indexed@.contains_key(id) ==> r@[id]@ == indexed@[id]@,
        r@.contains_key(id) && !indexed@.contains_key(id) ==> r@[id]@ == payloads@[id].embedding@,
{
}

proof fn first_place_is_first(s: Seq<char>, pat: Seq<char>, i: int, at: int)
    requires
        0 <= i <= at,
        stands_at(s, pat, at),
        forall|j: int| i <= j < at ==> !stands_at(s, pat, j),
    ensures
        first_place(s, pat, i) == Some(at),
    decreases at - i,
{
    if i < at {
        assert(!stands_at(s, pat, i));
        first_place_is_first(s, pat, i + 1, at);
    }
}

proof fn first_place_skips(s: Seq<char>, pat: Seq<char>, i: int, low: int)
    requires
        0 <= i,
        forall|j: int| i <= j < low ==> !stands_at(s, pat, j),
    ensures
        first_place(s, pat, i) matches Some(at) ==> at >= low && at + pat.len() <= s.len(),
    decreases s.len() + 1 - i,
{
    if i + pat.len() <= s.len() && !stands_at(s, pat, i) {
        first_place_skips(s, pat, i + 1, low);
    } else if i < low {
        assert(!stands_at(s, pat, i));
    }
}

proof fn after_char_follows(role: Seq<char>, c: char, rest: Seq<char>)
    requires
        forall|i: int| 0 <= i < role.len() ==> role[i] != c,
    ensures
        after_char(role.push(c) + rest, c) == Some(rest),
    decreases role.len(),
{
    let s = role.push(c) + rest;
    if role.len() == 0 {
        assert(s[0] == c);
        assert(s.skip(1) =~= rest);
    } else {
        let tail = role.skip(1);
        assert(s[0] == role[0]);
        assert(s.skip(1) =~= tail.push(c) + rest);
        assert forall|i: int| 0 <= i < tail.len() implies tail[i] != c by {
            assert(role[i + 1] != c);
        }
        after_char_follows(tail, c, rest);
    }
}

proof fn bare_words_end(name: Seq<char>, rest: Seq<char>)
    requires
        forall|i: int| 0 <= i < name.len() ==> name[i] != ' ' && name[i] != '(',
        rest.len() > 0 ==> rest[0] == ' ' || rest[0] == '(',
    ensures
        bare_word(name + rest) == name,
    decreases name.len(),
{
    let s = name + rest;
    if name.len() == 0 {
        assert(s =~= rest);
        assert(bare_word(s) =~= name);
    } else {
        let tail = name.skip(1);
        assert(s[0] == name[0]);
        assert(s.skip(1) =~= tail + rest);
        assert forall|i: int| 0 <= i < tail.len() implies tail[i] != ' ' && tail[i] != '(' by {
            assert(name[i + 1] != ' ' && name[i + 1] != '(');
        }
        bare_words_end(tail, rest);
        assert(seq![name[0]] + tail =~= name);
    }
}

/// The name in a recalled binding is what stands after the arrow and the first equals sign, up to
/// the next space or bracket.
pub proof fn bound_names_are_found(
    content: &str,
    given: Seq<char>,
    role: Seq<char>,
    name: Seq<char>,
    rest: Seq<char>,
    r: String,
)
    requires
        call_ensures(binding_name, (content,), r),
        content@ == given + "→ "@ + role + "="@ + name + rest,
        forall|i: int| 0 <= i < given.len() ==> given[i] != '→',
        forall|i: int| 0 <= i < role.len() ==> role[i] != '→' && role[i] != '=',
        forall|i: int| 0 <= i < name.len() ==> name[i] != '→' && name[i] != ' ' && name[i] != '(',
        rest.len() > 0 ==> rest[0] == ' ' || rest[0] == '(',
    ensures
        r@ == name,
{
    reveal_strlit("→ ");
    reveal_strlit("=");
    let s = content@;
    let pat = "→ "@;
    let a = given.len() as int;
    assert(pat[0] == '→');
    assert(s.subrange(a, a + 2) =~= pat);
    assert forall|j: int| 0 <= j < a implies !stands_at(s, pat, j) by {
        if stands_at(s, pat, j) {
            assert(s.subrange(j, j + 2)[0] == s[j]);
            assert(s[j] == given[j]);
        }
    }
    first_place_is_first(s, pat, 0, a);
    let t = s.skip(a + 2);
    let head = role.push('=') + name;
    assert(t =~= head + rest);
    let low = head.len() as int;
    assert forall|j: int| 0 <= j < low implies !stands_at(t, pat, j) by {
        if stands_at(t, pat, j) {
            assert(t.subrange(j, j + 2)[0] == t[j]);
            assert(t[j] == head[j]);
        }
    }
    first_place_skips(t, pat, 0, low);
    let end = match first_place(t, pat, 0) {
        Some(b) => b,
        None => t.len() as int,
    };
    let cut = t.take(end);
    assert(second_piece(s, pat) == Some(cut)) by {
        assert(t.take(t.len() as int) =~= t);
    }
    let tail = rest.take(end - low);
    assert(cut =~= role.push('=') + (name + tail));
    after_char_follows(role, '=', name + tail);
    bare_words_end(name, tail);
}

/// A request for an analogy is answered when it is JSON that asks for a proportional analogy, or
/// for none in particular, between three things that are named; each fault has its own answer.
pub proof fn analogies_need_three_terms(
    valid: bool,
    mode: Option<String>,
    a: Option<String>,
    b: Option<String>,
    c: Option<String>,
    limit: Option<u64>,
    r: Result<Analogy, String>,
)
    requires
        call_ensures(check_analogy, (valid, mode, a, b, c, limit), r),
    ensures
        !valid ==> (r matches Err(e) && e@ == "recall_analogy: bad JSON"@),
        valid && mode is Some && mode->0@ != "proportional"@ ==> (r matches Err(e) && e@
            == "recall_analogy supports proportional mode only; use query_graph for graph queries"@),
        valid && (mode is None || mode->0@ == "proportional"@) && (a is None || b is None || c is None
            || blank(a->0@) || blank(b->0@) || blank(c->0@)) ==> (r matches Err(e) && e@
            == "proportional mode needs a, b and c (a:b :: c:?)"@),
        valid && (mode is None || mode->0@ == "proportional"@) && a is Some && b is Some && c is Some
            && !blank(a->0@) && !blank(b->0@) && !blank(c->0@) ==> (r matches Ok(q) && q.a@ == a->0@ && q.b@
            == b->0@ && q.c@ == c->0@),
        r matches Ok(q) ==> (limit is None ==> q.limit == 8) && 1 <= q.limit <= 100 && (limit is Some && 1
            <= limit->0 <= 100 ==> q.limit == limit->0),
{
    reveal_strlit("");
    assert(blank(""@)) by {
        assert(trimmed(""@).len() == 0);
    }
}

/// The backlog is empty when nobody waits. One more memory that waits counts once more, and one
/// that is deleted or admitted does not.
pub proof fn waiting_memories_count(rows: Seq<Staging>, n: int, k: int)
    requires
        0 <= n < rows.len(),
    ensures
        rows[n].staged && !rows[n].deleted ==> waiting(rows, n + 1) == waiting(rows, n) + 1,
        !rows[n].staged || rows[n].deleted ==> waiting(rows, n + 1) == waiting(rows, n),
        waiting(rows, 0) == 0,
        0 <= k < n && rows[k].staged && !rows[k].deleted ==> waiting(rows, n) > 0,
    decreases n,
{
    if 0 <= k < n - 1 {
        waiting_memories_count(rows, n - 1, k);
    }
}

proof fn earliest_waits(rows: Seq<Staging>, now_ms: i64, n: int)
    requires
        0 <= n <= rows.len(),
    ensures
        earliest_wait(rows, now_ms, n) <= now_ms,
        forall|k: int|
            0 <= k < n && waits(#[trigger] rows[k]) ==> earliest_wait(rows, now_ms, n)
                <= rows[k].created_at_ms,
        earliest_wait(rows, now_ms, n) == now_ms || exists|k: int|
            0 <= k < n && waits(#[trigger] rows[k]) && earliest_wait(rows, now_ms, n)
                == rows[k].created_at_ms,
    decreases n,
{
    if n > 0 {
        earliest_waits(rows, now_ms, n - 1);
    }
}

/// The age of the oldest memory that waits is the age of one that waits, and no other one that
/// waits is older.
pub proof fn the_oldest_wait_is_told(rows: Vec<Staging>, now_ms: i64, r: Backlog, k: int)
    requires
        call_ensures(backlog, (&rows, now_ms), r),
        0 <= k < rows@.len(),
    ensures
        rows@[k].staged && !rows@[k].deleted ==> now_ms - rows@[k].created_at_ms <= r.oldest_age_ms && r.count
            > 0,
        r.oldest_age_ms > 0 ==> exists|i: int|
            {
                &&& 0 <= i < rows@.len()
                &&& (#[trigger] rows@[i]).staged && !rows@[i].deleted
                &&& now_ms - rows@[i].created_at_ms == r.oldest_age_ms
            },
{
    let n = rows@.len() as int;
    earliest_waits(rows@, now_ms, n);
    if waits(rows@[k]) {
        if k < n - 1 {
            waiting_memories_count(rows@, n - 1, k);
        }
    }
    if r.oldest_age_ms > 0 {
        let i = choose|i: int|
            0 <= i < n && waits(#[trigger] rows@[i]) && earliest_wait(rows@, now_ms, n)
                == rows@[i].created_at_ms;
        assert(rows@[i].staged);
    }
}

/// A memory is learned from when it has a sparse code and says something, by its own text.
pub proof fn coded_memories_teach(
    ablations: Ablations,
    payloads: BTreeMap<u64, MemoryPayload>,
    coded: BTreeSet<u64>,
    r: Vec<Example>,
    id: u64,
)
    requires
        call_ensures(training_examples, (&ablations, &payloads, &coded), r),
        payloads@.contains_key(id),
    ensures
        (exists|i: int| 0 <= i < r@.len() && (#[trigger] r@[i]).id == id && r@[i].text@ == lossy_text(
            payloads@[id].content@,
        )) <==> {
            &&& coded@.contains(id)
            &&& trimmed(lossy_text(payloads@[id].content@)).len() > 0
            &&& !ablations@.contains("lite_encoder"@)
            &&& !ablations@.contains("cortical_idx"@)
        },
{
    if !ablations@.contains("lite_encoder"@) && !ablations@.contains("cortical_idx"@) {
        assert(lists_examples(r@, payloads@, coded@));
        if teaches(payloads@, coded@, id) {
            let i = choose|i: int| 0 <= i < r@.len() && (#[trigger] r@[i]).id == id;
            assert(r@[i].id == id && r@[i].text@ == lossy_text(payloads@[id].content@));
        }
    }
}

/// The rows of the census stand under the names of their edge types.
pub proof fn census_rows_are_named(t: EdgeType)
    ensures
        census_name(edge_type_number(t) as int) == match t {
            EdgeType::DerivedFrom => "DerivedFrom"@,
            EdgeType::SameSession => "SameSession"@,
            EdgeType::SameArtifact => "SameArtifact"@,
            EdgeType::CoRetrieved => "CoRetrieved"@,
            EdgeType::Supports => "Supports"@,
            EdgeType::Contradicts => "Contradicts"@,
            EdgeType::SemanticNeighbor => "SemanticNeighbor"@,
        },
{
}

/// A census of one row more is written with one entry more, which gives the count and then the
/// spread of the weights from the lowest range to the highest.
pub proof fn census_goes_row_by_row(rows: Seq<CensusRow>, n: int)
    requires
        0 < n <= rows.len(),
    ensures
        ({
            let row = rows[n - 1];
            let entry = "{\"type\":\""@ + census_name(n - 1) + "\",\"count\":"@ + numeral(row.count as int)
                + ",\"weights\":["@ + numeral(row.w0 as int) + ","@ + numeral(row.w1 as int) + ","@ + numeral(
                row.w2 as int,
            ) + ","@ + numeral(row.w3 as int) + ","@ + numeral(row.w4 as int) + "]}"@;
            census_entries(rows, n) == if n == 1 {
                entry
            } else {
                census_entries(rows, n - 1) + ","@ + entry
            }
        }),
{
}

} // verus!
