//! Bringing a loaded store up to date: what is derived from its memories when it is opened.
use crate::anchors::{indexes, AnchorIndex};
use crate::coactivation::{
    pairs_with, prune_coactivation_stats, pruned, pruning_caps, pruning_spares, CoActivation,
    CoActivationStats,
};
use crate::embedding::{
    all_queued, arrow_at, due_ids, has_arrow, live_among, requeue, requeue_purged, Requeue,
};
use crate::keyed::{in_lane, lane_memories, lists_lane, stands_in, Lane};
use crate::members::{members_of, Members};
use crate::memory::{
    build_kind_members, build_realm_members, groups_live, MemoryPayload, MemoryState,
};
use crate::select::{count_pending, next_lineage, pending_ids, Lineage};
use crate::text::str_eq;
use std::collections::{BTreeMap, BTreeSet};
use vstd::prelude::*;

verus! {

/// How many pairs of each memory are kept when a store is opened.
pub const PAIRS_KEPT: usize = 20;

/// Which of the migrations that are made once are still to be made.
#[derive(Clone, Copy, Debug)]
pub struct Migrations {
    pub gloss: bool,
    pub dimension: bool,
}

/// How many memories were queued for an embedding, and why.
#[derive(Clone, Copy, Debug)]
pub struct Requeued {
    pub missing: usize,
    pub gloss: usize,
    pub dimension: usize,
}

/// The states after one reason to queue memories.
pub open spec fn requeued(
    why: Requeue,
    payloads: Map<u64, MemoryPayload>,
    states: Map<u64, MemoryState>,
    index: Set<u64>,
) -> Map<u64, MemoryState> {
    all_queued(states, due_ids(why, payloads, states, index))
}

/// The states after the embeddings `purged` were thrown away and all that is missing was queued.
pub open spec fn reconciled(
    payloads: Map<u64, MemoryPayload>,
    states: Map<u64, MemoryState>,
    index: Set<u64>,
    purged: Seq<u64>,
    todo: Migrations,
) -> Map<u64, MemoryState> {
    let s1 = all_queued(states, live_among(purged, states));
    let s2 = requeued(Requeue::Missing, payloads, s1, index);
    let s3 = if todo.gloss {
        requeued(Requeue::Gloss, payloads, s2, index)
    } else {
        s2
    };
    if todo.dimension {
        requeued(Requeue::Dimension, payloads, s3, index)
    } else {
        s3
    }
}

/// Queues every memory that has lost its embedding or needs a new one.
pub fn reconcile_embeddings(
    payloads: &BTreeMap<u64, MemoryPayload>,
    states: &mut BTreeMap<u64, MemoryState>,
    index: &BTreeSet<u64>,
    purged: &Vec<u64>,
    todo: Migrations,
) -> (r: Requeued)
    ensures
        final(states)@ == reconciled(payloads@, old(states)@, index@, purged@, todo),
        ({
            let s1 = all_queued(old(states)@, live_among(purged@, old(states)@));
            let s2 = requeued(Requeue::Missing, payloads@, s1, index@);
            let s3 = if todo.gloss {
                requeued(Requeue::Gloss, payloads@, s2, index@)
            } else {
                s2
            };
            &&& r.missing == due_ids(Requeue::Missing, payloads@, s1, index@).len()
            &&& r.gloss == if todo.gloss {
                due_ids(Requeue::Gloss, payloads@, s2, index@).len()
            } else {
                0
            }
            &&& r.dimension == if todo.dimension {
                due_ids(Requeue::Dimension, payloads@, s3, index@).len()
            } else {
                0
            }
        }),
{
    requeue_purged(purged, states);
    let missing: usize = requeue(Requeue::Missing, payloads, states, index);
    let gloss: usize = if todo.gloss {
        requeue(Requeue::Gloss, payloads, states, index)
    } else {
        0
    };
    let dimension: usize = if todo.dimension {
        requeue(Requeue::Dimension, payloads, states, index)
    } else {
        0
    };
    Requeued { missing, gloss, dimension }
}

/// Whether the embeddings that go with a snapshot are loaded: not when they are all to be made
/// anew, unless they are what an index is rebuilt from.
pub fn loads_embeddings(found: bool, migrate: bool, reindex: bool) -> (r: bool)
    ensures
        r == (found && (!migrate || reindex)),
{
    found && (!migrate || reindex)
}

/// What is derived from the memories of a store.
pub struct Derived {
    pub realm_members: Members,
    pub kind_members: Members,
    /// How many memories wait for an embedding.
    pub pending: usize,
    pub memory_count: usize,
    pub anchors: AnchorIndex,
    pub provenance: Vec<u64>,
    pub corrections: Vec<u64>,
    pub tasks: Vec<u64>,
    pub lineage: Lineage,
    /// How many pairs of memories were dropped.
    pub pruned_pairs: usize,
}

/// Everything in `d` is true to the memories.
pub open spec fn derived_from(
    d: Derived,
    payloads: Map<u64, MemoryPayload>,
    states: Map<u64, MemoryState>,
) -> bool {
    &&& d.realm_members.wf()
    &&& groups_live(d.realm_members@, payloads, states, |p: MemoryPayload| p.realm@)
    &&& d.kind_members.wf()
    &&& groups_live(d.kind_members@, payloads, states, |p: MemoryPayload| p.kind@)
    &&& d.pending == pending_ids(states).len()
    &&& d.memory_count == payloads.len()
    &&& indexes(d.anchors.entries@, payloads)
    &&& lists_lane(d.provenance@, Lane::Provenance, payloads, states)
    &&& lists_lane(d.corrections@, Lane::Correction, payloads, states)
    &&& lists_lane(d.tasks@, Lane::Task, payloads, states)
}

/// Derives what an opened store keeps beside its memories, and trims its pairs of memories.
pub fn derive_indexes(
    payloads: &BTreeMap<u64, MemoryPayload>,
    states: &BTreeMap<u64, MemoryState>,
    pairs: &mut CoActivation,
    loaded: Option<Lineage>,
    instance_id: u32,
    nanos: u128,
) -> (d: Derived)
    ensures
        derived_from(d, payloads@, states@),
        pruned(old(pairs)@, final(pairs)@, PAIRS_KEPT as int),
        d.pruned_pairs == old(pairs)@.len() - final(pairs)@.len(),
        d.lineage.epoch == match loaded {
            Some(l) => if l.epoch < u64::MAX {
                (l.epoch + 1) as u64
            } else {
                u64::MAX
            },
            None => 1,
        },
        d.lineage.writer == match loaded {
            Some(l) => l.writer,
            None => ((instance_id as u128) << 96) ^ nanos,
        },
{
    broadcast use vstd::std_specs::btree::group_btree_axioms;

    let pruned_pairs: usize = prune_coactivation_stats(pairs, PAIRS_KEPT);
    Derived {
        realm_members: build_realm_members(payloads, states),
        kind_members: build_kind_members(payloads, states),
        pending: count_pending(states),
        memory_count: payloads.len(),
        anchors: AnchorIndex::rebuild(payloads),
        provenance: lane_memories(Lane::Provenance, payloads, states),
        corrections: lane_memories(Lane::Correction, payloads, states),
        tasks: lane_memories(Lane::Task, payloads, states),
        lineage: next_lineage(loaded, instance_id, nanos),
        pruned_pairs,
    }
}

/// Whether a feature is switched on; only the setting `1` does that.
pub fn switched_on(setting: Option<&str>) -> (r: bool)
    ensures
        r == (setting matches Some(s) && s@ == "1"@),
{
    match setting {
        Some(s) => str_eq(s, "1"),
        None => false,
    }
}

/// The first id that an allocator gives out, above all ids in use. Nothing when there is none.
pub fn first_free_id(max: Option<u64>) -> (r: Option<u64>)
    ensures
        r == match max {
            None => Some(1u64),
            Some(m) => if m < u64::MAX {
                Some((m + 1) as u64)
            } else {
                None
            },
        },
{
    match max {
        None => Some(1),
        Some(m) => m.checked_add(1),
    }
}

/// How much of a content is shown.
#[derive(Clone, Copy, Debug, PartialEq, Eq, Structural)]
pub enum FilterLevel {
    Full,
    Signatures,
    MinimalContext,
}

/// The filter level with a number; any other number stands for no filter.
pub open spec fn level_of(n: u8) -> FilterLevel {
    if n == 1 {
        FilterLevel::Signatures
    } else if n == 2 {
        FilterLevel::MinimalContext
    } else {
        FilterLevel::Full
    }
}

pub open spec fn number_of(level: FilterLevel) -> u8 {
    match level {
        FilterLevel::Full => 0,
        FilterLevel::Signatures => 1,
        FilterLevel::MinimalContext => 2,
    }
}

pub fn filter_level(n: u8) -> (r: FilterLevel)
    ensures
        r == level_of(n),
{
    match n {
        1 => FilterLevel::Signatures,
        2 => FilterLevel::MinimalContext,
        _ => FilterLevel::Full,
    }
}

pub fn set_filter_level(level: FilterLevel) -> (r: u8)
    ensures
        r == number_of(level),
{
    match level {
        FilterLevel::Full => 0,
        FilterLevel::Signatures => 1,
        FilterLevel::MinimalContext => 2,
    }
}

/// The filter level that was set is the one that is read.
pub proof fn filter_level_reads_back(level: FilterLevel)
    ensures
        level_of(number_of(level)) == level,
{
}

/// Opening a store queues a live memory whose embedding was thrown away, which has content enough
/// but no embedding, or which a migration is about: and no other memory. Nothing but the mark of
/// waiting changes, and a deleted memory is left as it is.
pub proof fn openings_queue_what_needs_an_embedding(
    payloads: Map<u64, MemoryPayload>,
    states: Map<u64, MemoryState>,
    index: Set<u64>,
    purged: Seq<u64>,
    todo: Migrations,
    id: u64,
    at: int,
)
    requires
        states.contains_key(id),
    ensures
        ({
            let after = reconciled(payloads, states, index, purged, todo);
            let s = states[id];
            let text = payloads[id].content@;
            let long = payloads.contains_key(id) && text.len() >= 20;
            let arrow = payloads.contains_key(id) && 0 <= at && at + 3 <= text.len() && text[at] == 0xe2
                && text[at + 1] == 0x86 && text[at + 2] == 0x92;
            &&& after.dom() == states.dom()
            &&& after[id] == (MemoryState { embed_pending: after[id].embed_pending, ..s })
            &&& s.embed_pending ==> after[id].embed_pending
            &&& s.deleted ==> after[id] == s
            &&& !s.deleted && purged.contains(id) ==> after[id].embed_pending
            &&& !s.deleted && long && !index.contains(id) ==> after[id].embed_pending
            &&& !s.deleted && long && todo.dimension ==> after[id].embed_pending
            &&& !s.deleted && arrow && todo.gloss ==> after[id].embed_pending
            &&& after[id].embed_pending && !s.embed_pending ==> purged.contains(id) || (long
                && !index.contains(id)) || (long && todo.dimension) || (todo.gloss && payloads.contains_key(
                id,
            ) && has_arrow(text))
        }),
{
    let s1 = all_queued(states, live_among(purged, states));
    let s2 = requeued(Requeue::Missing, payloads, s1, index);
    let s3 = if todo.gloss {
        requeued(Requeue::Gloss, payloads, s2, index)
    } else {
        s2
    };
    let after = reconciled(payloads, states, index, purged, todo);
    assert(s1.dom() =~= states.dom());
    assert(s2.dom() =~= states.dom());
    assert(s3.dom() =~= states.dom());
    assert(after.dom() =~= states.dom());
    let text = payloads[id].content@;
    if 0 <= at && at + 3 <= text.len() && text[at] == 0xe2 && text[at + 1] == 0x86 && text[at + 2] == 0x92 {
        assert(arrow_at(text, at));
    }
}

/// Saved embeddings that are there are loaded unless all are to be made anew.
pub proof fn embeddings_are_loaded_unless_made_anew(found: bool, migrate: bool, reindex: bool, r: bool)
    requires
        call_ensures(loads_embeddings, (found, migrate, reindex), r),
    ensures
        !found ==> !r,
        found && reindex ==> r,
        found && !migrate ==> r,
        migrate && !reindex ==> !r,
{
}

/// What an opened store keeps beside its memories says of each of them what is so.
pub proof fn derived_indexes_are_true(
    d: Derived,
    payloads: Map<u64, MemoryPayload>,
    states: Map<u64, MemoryState>,
    id: u64,
    name: Seq<char>,
)
    requires
        derived_from(d, payloads, states),
        payloads.contains_key(id),
        states.contains_key(id),
    ensures
        members_of(d.realm_members@, name).contains(id) <==> !states[id].deleted && payloads[id].realm@
            == name,
        members_of(d.kind_members@, name).contains(id) <==> !states[id].deleted && payloads[id].kind@
            == name,
        d.memory_count == payloads.len(),
        d.provenance@.contains(id) <==> !states[id].deleted && in_lane(Lane::Provenance, payloads[id]),
        d.corrections@.contains(id) <==> !states[id].deleted && in_lane(Lane::Correction, payloads[id]),
        d.tasks@.contains(id) <==> !states[id].deleted && in_lane(Lane::Task, payloads[id]),
{
    assert(stands_in(Lane::Provenance, payloads, states, id) <==> !states[id].deleted && in_lane(
        Lane::Provenance,
        payloads[id],
    ));
    assert(stands_in(Lane::Correction, payloads, states, id) <==> !states[id].deleted && in_lane(
        Lane::Correction,
        payloads[id],
    ));
    assert(stands_in(Lane::Task, payloads, states, id) <==> !states[id].deleted && in_lane(
        Lane::Task,
        payloads[id],
    ));
}

/// The first id that is given out is above all that are in use.
pub proof fn free_ids_are_unused(max: Option<u64>, r: Option<u64>, used: u64)
    requires
        call_ensures(first_free_id, (max,), r),
        max matches Some(m) ==> used <= m,
        max is None ==> used == 0,
    ensures
        r matches Some(id) ==> used < id,
        r is None ==> max == Some(u64::MAX),
        max is None ==> r is Some,
{
}

/// The numbers of the filter levels: none, signatures, minimal context. An unknown number filters
/// nothing.
pub proof fn filter_levels_go_by_number(n: u8, level: FilterLevel)
    requires
        call_ensures(filter_level, (n,), level),
    ensures
        n == 1 <==> level == FilterLevel::Signatures,
        n == 2 <==> level == FilterLevel::MinimalContext,
        n == 0 || n > 2 <==> level == FilterLevel::Full,
{
}

/// In an opened store no memory has more than twenty pairs, and none lost one that had fewer.
pub proof fn opened_stores_keep_twenty_pairs(
    before: Map<(u64, u64), CoActivationStats>,
    after: Map<(u64, u64), CoActivationStats>,
    m: u64,
    p: (u64, u64),
)
    requires
        pruned(before, after, PAIRS_KEPT as int),
        before.len() <= usize::MAX,
    ensures
        pairs_with(after, m).len() <= 20,
        before.contains_key(p) && pairs_with(before, p.0).len() <= 20 && pairs_with(before, p.1).len() <= 20
            ==> after.contains_key(p) && after[p] == before[p],
{
    pruning_caps(before, after, 20, m);
    if before.contains_key(p) && pairs_with(before, p.0).len() <= 20 && pairs_with(before, p.1).len() <= 20 {
        pruning_spares(before, after, 20, p);
    }
}

/// Only the setting `1` switches a feature on.
pub proof fn one_switches_on(setting: &str, given: bool, missing: bool)
    requires
        call_ensures(switched_on, (Some(setting),), given),
        call_ensures(switched_on, (None,), missing),
    ensures
        given <==> setting@ == "1"@,
        !missing,
{
}

} // verus!
