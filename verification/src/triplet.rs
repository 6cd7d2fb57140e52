//! Subject–predicate–object facts with validity periods.
use crate::ops::MemoryId;
use crate::seqs::{filter_ends, filter_step};
use crate::table::{key_list, lists_keys, Named};
use crate::text::{str_eq, views};
use std::collections::BTreeMap;
use vstd::prelude::*;

verus! {

#[derive(Debug)]
pub struct TripletEntry {
    pub id: u64,
    pub subject: String,
    pub predicate: String,
    pub object: String,
    /// Bit pattern of the weight.
    pub weight: u32,
    pub valid_from_ms: i64,
    pub invalidated_at_ms: Option<i64>,
    pub superseded_by: Option<u64>,
    pub superseded_at_ms: Option<i64>,
    pub source_memory_id: Option<MemoryId>,
    pub source_file: Option<String>,
}

pub fn copy_text(s: &Option<String>) -> (r: Option<String>)
    ensures
        r == *s,
{
    match s {
        Some(t) => Some(t.clone()),
        None => None,
    }
}

impl Clone for TripletEntry {
    fn clone(&self) -> (r: Self)
        ensures
            r == *self,
    {
        TripletEntry {
            id: self.id,
            subject: self.subject.clone(),
            predicate: self.predicate.clone(),
            object: self.object.clone(),
            weight: self.weight,
            valid_from_ms: self.valid_from_ms,
            invalidated_at_ms: self.invalidated_at_ms,
            superseded_by: self.superseded_by,
            superseded_at_ms: self.superseded_at_ms,
            source_memory_id: self.source_memory_id,
            source_file: copy_text(&self.source_file),
        }
    }
}

impl TripletEntry {
    /// Not yet invalidated at `at_ms`.
    pub open spec fn unexpired(&self, at_ms: i64) -> bool {
        match self.invalidated_at_ms {
            Some(end) => at_ms < end,
            None => true,
        }
    }

    pub fn is_unexpired(&self, at_ms: i64) -> (r: bool)
        ensures
            r == self.unexpired(at_ms),
    {
        match self.invalidated_at_ms {
            Some(end) => at_ms < end,
            None => true,
        }
    }
}

/// The facts, and for each subject the ids that were stored under it. Replaying a fact under an
/// id that is taken replaces the fact; the id stays listed under its former subject.
pub struct TripletStore {
    entries: BTreeMap<u64, TripletEntry>,
    by_subject: Named<Vec<u64>>,
    next_id: u64,
}

impl TripletStore {
    pub closed spec fn facts(&self) -> Map<u64, TripletEntry> {
        self.entries@
    }

    /// The ids listed under a subject, oldest first.
    pub closed spec fn listed(&self, subject: Seq<char>) -> Seq<u64> {
        if self.by_subject@.contains_key(subject) {
            self.by_subject@[subject]@
        } else {
            Seq::empty()
        }
    }

    pub closed spec fn next(&self) -> u64 {
        self.next_id
    }

    /// No subject is kept twice, and none without ids.
    pub closed spec fn tables_wf(&self) -> bool {
        &&& self.by_subject.wf()
        &&& forall|s: Seq<char>| #[trigger]
            self.by_subject@.contains_key(s) ==> self.by_subject@[s]@.len() > 0
    }

    /// Every id is below the next one (until ids run out), names its own fact, and is listed under
    /// its subject; no subject lists an id twice or an id without a fact.
    pub open spec fn wf(&self) -> bool {
        &&& self.tables_wf()
        &&& forall|id: u64| #[trigger]
            self.facts().contains_key(id) ==> (id < self.next() || self.next() == u64::MAX)
                && self.facts()[id].id == id && self.listed(self.facts()[id].subject@).contains(id)
        &&& forall|s: Seq<char>, i: int|
            #![trigger self.listed(s)[i]]
            0 <= i < self.listed(s).len() ==> self.facts().contains_key(self.listed(s)[i])
        &&& forall|s: Seq<char>| #[trigger] self.listed(s).no_duplicates()
    }

    /// The unexpired facts listed under a subject, oldest listing first.
    pub open spec fn live(&self, subject: Seq<char>, at_ms: i64) -> Seq<TripletEntry> {
        self.listed(subject).filter(|id: u64| self.facts()[id].unexpired(at_ms)).map_values(
            |id: u64| self.facts()[id],
        )
    }

    pub fn new() -> (r: Self)
        ensures
            r.wf(),
            r.facts() == Map::<u64, TripletEntry>::empty(),
            forall|s: Seq<char>| #[trigger] r.listed(s) == Seq::<u64>::empty(),
            r.next() == 1,
    {
        TripletStore { entries: BTreeMap::new(), by_subject: Named::new(), next_id: 1 }
    }

    /// The subjects under which anything is listed, each once.
    pub fn all_subjects(&self) -> (r: Vec<String>)
        requires
            self.wf(),
        ensures
            views(r@).no_duplicates(),
            forall|s: Seq<char>| #[trigger] views(r@).contains(s) <==> self.listed(s).len() > 0,
    {
        let ghost kept = self.by_subject.entries@;
        let mut r: Vec<String> = Vec::new();
        let n: usize = self.by_subject.entries.len();
        let mut i: usize = 0;
        while i < n
            invariant
                n == kept.len(),
                kept == self.by_subject.entries@,
                i <= n,
                r@.len() == i,
                forall|k: int| 0 <= k < i ==> (#[trigger] r@[k])@ == kept[k].0@,
            decreases n - i,
        {
            r.push(self.by_subject.entries[i].0.clone());
            i = i + 1;
        }
        proof {
            assert forall|s: Seq<char>| #[trigger] views(r@).contains(s) <==> self.listed(s).len()
                > 0 by {
                self.by_subject.key_has_place(s);
                if views(r@).contains(s) {
                    let k = choose|k: int| 0 <= k < views(r@).len() && views(r@)[k] == s;
                    self.by_subject.entry_at(k);
                }
                if self.listed(s).len() > 0 {
                    let k = choose|k: int| 0 <= k < kept.len() && (#[trigger] kept[k]).0@ == s;
                    assert(views(r@)[k] == s);
                }
            }
            assert(views(r@).no_duplicates()) by {
                assert forall|a: int, b: int|
                    0 <= a < views(r@).len() && 0 <= b < views(r@).len() && a != b implies views(r@)[a]
                    != views(r@)[b] by {
                    assert(kept[a].0@ != kept[b].0@);
                }
            }
        }
        r
    }

    /// Adds a fact under a fresh id.
    pub fn add(
        &mut self,
        subject: String,
        predicate: String,
        object: String,
        weight: u32,
        valid_from_ms: i64,
        source_memory_id: Option<MemoryId>,
        source_file: Option<String>,
    ) -> (id: u64)
        requires
            old(self).wf(),
            old(self).next() < u64::MAX,
        ensures
            final(self).wf(),
            id == old(self).next(),
            final(self).next() == id + 1,
            final(self).facts() == old(self).facts().insert(
                id,
                (TripletEntry {
                    id,
                    subject,
                    predicate,
                    object,
                    weight,
                    valid_from_ms,
                    invalidated_at_ms: None,
                    superseded_by: None,
                    superseded_at_ms: None,
                    source_memory_id,
                    source_file,
                }),
            ),
            final(self).listed(subject@) == old(self).listed(subject@).push(id),
            forall|s: Seq<char>| s != subject@ ==> #[trigger] final(self).listed(s) == old(self).listed(s),
    {
        let id: u64 = self.next_id;
        proof {
            assert forall|s: Seq<char>| !#[trigger] self.listed(s).contains(id) by {
                if self.listed(s).contains(id) {
                    let i = choose|i: int| 0 <= i < self.listed(s).len() && self.listed(s)[i] == id;
                    assert(self.facts().contains_key(self.listed(s)[i]));
                }
            }
        }
        self.replay_add(
            id,
            subject,
            predicate,
            object,
            weight,
            valid_from_ms,
            source_memory_id,
            source_file,
        );
        id
    }

    /// Stores a fact under a given id, replacing the fact that may be there.
    pub fn replay_add(
        &mut self,
        id: u64,
        subject: String,
        predicate: String,
        object: String,
        weight: u32,
        valid_from_ms: i64,
        source_memory_id: Option<MemoryId>,
        source_file: Option<String>,
    )
        requires
            old(self).wf(),
        ensures
            final(self).wf(),
            final(self).next() == if id < old(self).next() {
                old(self).next()
            } else if id < u64::MAX {
                (id + 1) as u64
            } else {
                u64::MAX
            },
            final(self).facts() == old(self).facts().insert(
                id,
                (TripletEntry {
                    id,
                    subject,
                    predicate,
                    object,
                    weight,
                    valid_from_ms,
                    invalidated_at_ms: None,
                    superseded_by: None,
                    superseded_at_ms: None,
                    source_memory_id,
                    source_file,
                }),
            ),
            final(self).listed(subject@) == if old(self).listed(subject@).contains(id) {
                old(self).listed(subject@)
            } else {
                old(self).listed(subject@).push(id)
            },
            forall|s: Seq<char>| s != subject@ ==> #[trigger] final(self).listed(s) == old(self).listed(s),
    {
        broadcast use vstd::std_specs::btree::group_btree_axioms;

        let ghost before = *self;
        let ghost who = subject@;
        let known = self.entries.contains_key(&id);
        let key = subject.clone();
        let entry = TripletEntry {
            id,
            subject,
            predicate,
            object,
            weight,
            valid_from_ms,
            invalidated_at_ms: None,
            superseded_by: None,
            superseded_at_ms: None,
            source_memory_id,
            source_file,
        };
        self.entries.insert(id, entry);
        if id >= self.next_id {
            self.next_id = id.saturating_add(1);
        }
        let mut ids: Vec<u64> = match self.by_subject.remove(key.as_str()) {
            Some(v) => v,
            None => Vec::new(),
        };
        assert(ids@ =~= before.listed(who));
        let mut present: bool = false;
        if known {
            let n: usize = ids.len();
            let mut i: usize = 0;
            while i < n && !present
                invariant
                    n == ids.len(),
                    i <= n,
                    present ==> ids@.contains(id),
                    !present ==> forall|j: int| 0 <= j < i ==> ids@[j] != id,
                decreases n - i + if present { 0int } else { 1 },
            {
                if ids[i] == id {
                    present = true;
                    assert(ids@[i as int] == id);
                } else {
                    i = i + 1;
                }
            }
        } else {
            proof {
                if ids@.contains(id) {
                    let i = choose|i: int| 0 <= i < ids@.len() && ids@[i] == id;
                    assert(before.facts().contains_key(before.listed(who)[i]));
                }
            }
        }
        let ghost was = ids@;
        if !present {
            ids.push(id);
        }
        self.by_subject.insert(key, ids);
        proof {
            assert(self.listed(who) == ids@);
            assert forall|s: Seq<char>| s != who implies #[trigger] self.listed(s) == before.listed(
                s,
            ) by {}
            assert(self.listed(who).contains(id)) by {
                if !present {
                    assert(ids@[was.len() as int] == id);
                }
            }
            assert forall|k: u64| #[trigger] self.facts().contains_key(k) implies (k
                < self.next() || self.next() == u64::MAX) && self.facts()[k].id == k && self.listed(self.facts()[k].subject@).contains(k) by {
                if k != id {
                    assert(before.facts().contains_key(k));
                    let s = before.facts()[k].subject@;
                    let i = choose|i: int| 0 <= i < before.listed(s).len() && before.listed(s)[i] == k;
                    assert(self.listed(s)[i] == k);
                }
            }
            assert forall|s: Seq<char>, i: int|
                #![trigger self.listed(s)[i]]
                0 <= i < self.listed(s).len() implies self.facts().contains_key(self.listed(s)[i]) by {
                if i < before.listed(s).len() {
                    assert(before.facts().contains_key(before.listed(s)[i]));
                }
            }
            assert forall|s: Seq<char>| #[trigger] self.listed(s).no_duplicates() by {
                assert(before.listed(s).no_duplicates());
            }
        }
    }

    /// Ends the validity of a fact.
    pub fn invalidate(&mut self, id: u64, at_ms: i64)
        requires
            old(self).wf(),
        ensures
            final(self).wf(),
            final(self).next() == old(self).next(),
            forall|s: Seq<char>| #[trigger] final(self).listed(s) == old(self).listed(s),
            final(self).facts() == if old(self).facts().contains_key(id) {
                old(self).facts().insert(
                    id,
                    (TripletEntry { invalidated_at_ms: Some(at_ms), ..old(self).facts()[id] }),
                )
            } else {
                old(self).facts()
            },
    {
        broadcast use vstd::std_specs::btree::group_btree_axioms;

        let ghost before = *self;
        if let Some(mut entry) = self.entries.remove(&id) {
            entry.invalidated_at_ms = Some(at_ms);
            self.entries.insert(id, entry);
            assert(self.facts() =~= before.facts().insert(
                id,
                TripletEntry { invalidated_at_ms: Some(at_ms), ..before.facts()[id] },
            ));
        } else {
            assert(self.facts() =~= before.facts());
        }
        proof {
            self.wf_from(before);
        }
    }

    /// Marks a fact as replaced by another.
    pub fn supersede(&mut self, old_id: u64, new_id: u64, at_ms: i64)
        requires
            old(self).wf(),
        ensures
            final(self).wf(),
            final(self).next() == old(self).next(),
            forall|s: Seq<char>| #[trigger] final(self).listed(s) == old(self).listed(s),
            final(self).facts() == if old(self).facts().contains_key(old_id) {
                old(self).facts().insert(
                    old_id,
                    (TripletEntry {
                        superseded_by: Some(new_id),
                        superseded_at_ms: Some(at_ms),
                        ..old(self).facts()[old_id]
                    }),
                )
            } else {
                old(self).facts()
            },
    {
        broadcast use vstd::std_specs::btree::group_btree_axioms;

        let ghost before = *self;
        if let Some(mut entry) = self.entries.remove(&old_id) {
            entry.superseded_by = Some(new_id);
            entry.superseded_at_ms = Some(at_ms);
            self.entries.insert(old_id, entry);
            assert(self.facts() =~= before.facts().insert(
                old_id,
                TripletEntry {
                    superseded_by: Some(new_id),
                    superseded_at_ms: Some(at_ms),
                    ..before.facts()[old_id]
                },
            ));
        } else {
            assert(self.facts() =~= before.facts());
        }
        proof {
            self.wf_from(before);
        }
    }

    /// A change that leaves ids, subjects and listings alone keeps the store well-formed.
    proof fn wf_from(&self, before: Self)
        requires
            before.wf(),
            self.by_subject == before.by_subject,
            self.next_id == before.next_id,
            self.facts().dom() == before.facts().dom(),
            forall|id: u64| #[trigger]
                self.facts().contains_key(id) ==> self.facts()[id].id == before.facts()[id].id
                    && self.facts()[id].subject == before.facts()[id].subject,
        ensures
            self.wf(),
            forall|s: Seq<char>| #[trigger] self.listed(s) == before.listed(s),
    {
        assert forall|s: Seq<char>| #[trigger] self.listed(s) == before.listed(s) by {}
        assert forall|k: u64| #[trigger] self.facts().contains_key(k) implies (k < self.next()
            || self.next() == u64::MAX) && self.facts()[k].id == k && self.listed(self.facts()[k].subject@).contains(k) by {
            assert(before.facts().contains_key(k));
        }
        assert forall|s: Seq<char>, i: int|
            #![trigger self.listed(s)[i]]
            0 <= i < self.listed(s).len() implies self.facts().contains_key(self.listed(s)[i]) by {
            assert(before.facts().contains_key(before.listed(s)[i]));
        }
        assert forall|s: Seq<char>| #[trigger] self.listed(s).no_duplicates() by {
            assert(before.listed(s).no_duplicates());
        }
    }

    /// The fact came from `file` and has not been invalidated.
    pub open spec fn active_from(e: TripletEntry, file: Seq<char>) -> bool {
        e.invalidated_at_ms is None && e.source_file is Some && e.source_file->0@ == file
    }

    /// Ends the validity of every active fact that came from a file.
    pub fn invalidate_by_source_file(&mut self, file: &str, at_ms: i64)
        requires
            old(self).wf(),
        ensures
            final(self).wf(),
            final(self).next() == old(self).next(),
            forall|s: Seq<char>| #[trigger] final(self).listed(s) == old(self).listed(s),
            final(self).facts().dom() == old(self).facts().dom(),
            forall|id: u64| #[trigger]
                old(self).facts().contains_key(id) ==> final(self).facts()[id] == if Self::active_from(
                    old(self).facts()[id],
                    file@,
                ) {
                    TripletEntry { invalidated_at_ms: Some(at_ms), ..old(self).facts()[id] }
                } else {
                    old(self).facts()[id]
                },
    {
        broadcast use vstd::std_specs::btree::group_btree_axioms;

        let ghost before = *self;
        let ids = key_list(&self.entries);
        let n: usize = ids.len();
        let mut i: usize = 0;
        while i < n
            invariant
                n == ids.len(),
                i <= n,
                before.wf(),
                self.by_subject == before.by_subject,
                self.next_id == before.next_id,
                lists_keys(ids@, before.facts()),
                self.facts().dom() == before.facts().dom(),
                forall|j: int| i <= j < n ==> self.facts()[#[trigger] ids@[j]] == before.facts()[ids@[j]],
                forall|j: int|
                    0 <= j < i ==> self.facts()[#[trigger] ids@[j]] == if Self::active_from(
                        before.facts()[ids@[j]],
                        file@,
                    ) {
                        TripletEntry { invalidated_at_ms: Some(at_ms), ..before.facts()[ids@[j]] }
                    } else {
                        before.facts()[ids@[j]]
                    },
            decreases n - i,
        {
            let id: u64 = ids[i];
            let ghost was = self.facts();
            if let Some(mut entry) = self.entries.remove(&id) {
                let hit: bool = match &entry.source_file {
                    Some(f) => entry.invalidated_at_ms.is_none() && str_eq(f.as_str(), file),
                    None => false,
                };
                if hit {
                    entry.invalidated_at_ms = Some(at_ms);
                }
                self.entries.insert(id, entry);
            }
            assert(self.facts().dom() =~= before.facts().dom());
            i = i + 1;
        }
        proof {
            assert forall|id: u64| #[trigger] before.facts().contains_key(id) implies self.facts()[id]
                == if Self::active_from(before.facts()[id], file@) {
                TripletEntry { invalidated_at_ms: Some(at_ms), ..before.facts()[id] }
            } else {
                before.facts()[id]
            } by {
                let j = choose|j: int| 0 <= j < ids@.len() && ids@[j] == id;
                assert(self.facts()[ids@[j]] == self.facts()[id]);
            }
            assert forall|id: u64| #[trigger] self.facts().contains_key(id) implies self.facts()[id].id
                == before.facts()[id].id && self.facts()[id].subject == before.facts()[id].subject by {
                assert(before.facts().contains_key(id));
            }
            self.wf_from(before);
        }
    }

    /// The unexpired facts stored under a subject. A fact that was replaced under its id is still
    /// found under its former subject.
    pub fn query_subject(&self, subject: &str, at_ms: i64) -> (r: Vec<&TripletEntry>)
        requires
            self.wf(),
        ensures
            r.len() == self.live(subject@, at_ms).len(),
            forall|i: int| 0 <= i < r.len() ==> *(#[trigger] r[i]) == self.live(subject@, at_ms)[i],
    {
        broadcast use vstd::std_specs::btree::group_btree_axioms;

        let mut out: Vec<&TripletEntry> = Vec::new();
        let ghost all = self.listed(subject@);
        let ghost pred = |id: u64| self.facts()[id].unexpired(at_ms);
        proof {
            filter_ends(all, pred);
        }
        match self.by_subject.get(subject) {
            Some(ids) => {
                let n: usize = ids.len();
                let mut i: usize = 0;
                while i < n
                    invariant
                        self.wf(),
                        n == ids.len(),
                        i <= n,
                        ids@ == all,
                        all == self.listed(subject@),
                        pred == (|id: u64| self.facts()[id].unexpired(at_ms)),
                        out.len() == all.take(i as int).filter(pred).len(),
                        forall|k: int|
                            0 <= k < out.len() ==> *(#[trigger] out[k]) == self.facts()[all.take(
                                i as int,
                            ).filter(pred)[k]],
                    decreases n - i,
                {
                    proof {
                        filter_step(all, pred, i as int);
                        assert(self.facts().contains_key(self.listed(subject@)[i as int]));
                    }
                    match self.entries.get(&ids[i]) {
                        Some(e) => {
                            if e.is_unexpired(at_ms) {
                                out.push(e);
                            }
                        },
                        None => {},
                    }
                    i = i + 1;
                }
            },
            None => {
                assert(all.filter(pred) =~= Seq::<u64>::empty());
            },
        }
        out
    }

    /// How many facts are stored, expired ones included.
    pub fn triplet_count(&self) -> (r: usize)
        ensures
            r == self.facts().len(),
    {
        broadcast use vstd::std_specs::btree::group_btree_axioms;

        self.entries.len()
    }

    /// The id that the next fact gets.
    pub fn next_id(&self) -> (r: u64)
        ensures
            r == self.next(),
    {
        self.next_id
    }
}

/// A query by subject finds the facts that are listed under the subject and not expired: all of
/// them, none twice, and no other.
pub proof fn queries_find_what_is_in_force(store: TripletStore, subject: Seq<char>, at_ms: i64)
    requires
        store.wf(),
    ensures
        forall|i: int|
            0 <= i < store.live(subject, at_ms).len() ==> {
                let e = #[trigger] store.live(subject, at_ms)[i];
                &&& store.facts().contains_key(e.id) && store.facts()[e.id] == e
                &&& store.listed(subject).contains(e.id)
                &&& e.invalidated_at_ms matches Some(end) ==> at_ms < end
            },
        forall|id: u64| #[trigger]
            store.listed(subject).contains(id) && (store.facts()[id].invalidated_at_ms matches Some(end)
                ==> at_ms < end) ==> exists|i: int|
                0 <= i < store.live(subject, at_ms).len() && (#[trigger] store.live(subject, at_ms)[i]).id
                    == id,
        forall|id: u64| #[trigger]
            store.facts().contains_key(id) && (store.facts()[id].invalidated_at_ms is None)
                ==> exists|i: int|
                0 <= i < store.live(store.facts()[id].subject@, at_ms).len() && (#[trigger] store.live(
                    store.facts()[id].subject@,
                    at_ms,
                )[i]).id == id,
{
    let pred = |id: u64| store.facts()[id].unexpired(at_ms);
    assert forall|i: int| 0 <= i < store.live(subject, at_ms).len() implies {
        let e = #[trigger] store.live(subject, at_ms)[i];
        &&& store.facts().contains_key(e.id) && store.facts()[e.id] == e
        &&& store.listed(subject).contains(e.id)
        &&& e.invalidated_at_ms matches Some(end) ==> at_ms < end
    } by {
        let ids = store.listed(subject).filter(pred);
        store.listed(subject).lemma_filter_pred(pred, i);
        assert(ids.contains(ids[i]));
        store.listed(subject).lemma_filter_contains_rev(pred, ids[i]);
        let k = choose|k: int| 0 <= k < store.listed(subject).len() && store.listed(subject)[k] == ids[i];
        assert(store.facts().contains_key(store.listed(subject)[k]));
    }
    assert forall|id: u64, s: Seq<char>| #[trigger]
        store.listed(s).contains(id) && (store.facts()[id].invalidated_at_ms matches Some(end)
            ==> at_ms < end) implies exists|i: int|
        0 <= i < store.live(s, at_ms).len() && (#[trigger] store.live(s, at_ms)[i]).id == id by {
        let k = choose|k: int| 0 <= k < store.listed(s).len() && store.listed(s)[k] == id;
        assert(store.facts().contains_key(store.listed(s)[k]));
        store.listed(s).lemma_filter_contains(pred, k);
        let ids = store.listed(s).filter(pred);
        let i = choose|i: int| 0 <= i < ids.len() && ids[i] == id;
        assert(store.live(s, at_ms)[i].id == id);
    }
    assert forall|id: u64| #[trigger]
        store.facts().contains_key(id) && (store.facts()[id].invalidated_at_ms is None) implies exists|i: int|
        0 <= i < store.live(store.facts()[id].subject@, at_ms).len() && (#[trigger] store.live(
            store.facts()[id].subject@,
            at_ms,
        )[i]).id == id by {
        assert(store.listed(store.facts()[id].subject@).contains(id));
    }
}

} // verus!
