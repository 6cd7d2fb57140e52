//! Lookup tables: helpers on id-keyed maps, and a small table keyed by text.
use crate::text::str_eq;
use std::collections::BTreeMap;
use vstd::prelude::*;

verus! {

/// `ids` lists the keys of `m`, each once, smallest first.
pub open spec fn lists_keys<V>(ids: Seq<u64>, m: Map<u64, V>) -> bool {
    &&& forall|i: int, j: int| 0 <= i < j < ids.len() ==> ids[i] < ids[j]
    &&& forall|i: int| 0 <= i < ids.len() ==> m.contains_key(#[trigger] ids[i])
    &&& forall|k: u64| #[trigger] m.contains_key(k) ==> ids.contains(k)
}

/// Integer keys that `BTreeMap` calls increasing grow strictly.
proof fn increasing_ids(keys: Seq<u64>)
    ensures
        vstd::std_specs::btree::key_obeys_cmp_spec::<u64>(),
        vstd::std_specs::btree::increasing_seq(keys) ==> forall|i: int, j: int|
            0 <= i < j < keys.len() ==> keys[i] < keys[j],
{
    broadcast use vstd::std_specs::btree::group_btree_axioms;
    broadcast use vstd::laws_cmp::group_laws_cmp;

    if vstd::std_specs::btree::increasing_seq(keys) {
        assert forall|i: int, j: int| 0 <= i < j < keys.len() implies keys[i] < keys[j] by {
            assert(vstd::std_specs::cmp::OrdSpec::cmp_spec(&keys[i], &keys[j]) is Less);
        }
    }
}

/// The keys of an id-keyed map, smallest first.
pub fn key_list<V>(m: &BTreeMap<u64, V>) -> (ids: Vec<u64>)
    ensures
        lists_keys(ids@, m@),
{
    broadcast use vstd::std_specs::btree::group_btree_axioms;

    let mut ids: Vec<u64> = Vec::new();
    proof {
        increasing_ids(Seq::empty());
    }
    let it0 = m.iter();
    let ghost all = vstd::std_specs::iter::IteratorSpec::remaining(&it0);
    let ghost keys = all.map_values(|kv: (&u64, &V)| *kv.0);
    proof {
        increasing_ids(keys);
    }
    for kv in it: it0
        invariant
            it.seq() == all,
            keys == all.map_values(|kv: (&u64, &V)| *kv.0),
            ids@ == keys.take(it.index() as int),
    {
        ids.push(*kv.0);
        assert(keys.take(it.index() + 1) =~= keys.take(it.index() as int).push(
            keys[it.index() as int],
        ));
    }
    proof {
        assert(keys.take(keys.len() as int) =~= keys);
        assert forall|i: int| 0 <= i < ids.len() implies m@.contains_key(#[trigger] ids@[i]) by {
            assert(m@.contains_key(*all[i].0));
        }
        assert forall|k: u64| #[trigger] m@.contains_key(k) implies ids@.contains(k) by {
            assert(all.contains((&k, &m@[k])));
            let i = choose|i: int| 0 <= i < all.len() && all[i] == (&k, &m@[k]);
            assert(keys[i] == k);
        }
    }
    ids
}

/// `ids` lists the keys of `m`, each once, smallest first.
pub open spec fn lists_wide_keys<V>(ids: Seq<u128>, m: Map<u128, V>) -> bool {
    &&& forall|i: int, j: int| 0 <= i < j < ids.len() ==> ids[i] < ids[j]
    &&& forall|i: int| 0 <= i < ids.len() ==> m.contains_key(#[trigger] ids[i])
    &&& forall|k: u128| #[trigger] m.contains_key(k) ==> ids.contains(k)
}

proof fn increasing_wide_ids(keys: Seq<u128>)
    ensures
        vstd::std_specs::btree::key_obeys_cmp_spec::<u128>(),
        vstd::std_specs::btree::increasing_seq(keys) ==> forall|i: int, j: int|
            0 <= i < j < keys.len() ==> keys[i] < keys[j],
{
    broadcast use vstd::std_specs::btree::group_btree_axioms;
    broadcast use vstd::laws_cmp::group_laws_cmp;

    if vstd::std_specs::btree::increasing_seq(keys) {
        assert forall|i: int, j: int| 0 <= i < j < keys.len() implies keys[i] < keys[j] by {
            assert(vstd::std_specs::cmp::OrdSpec::cmp_spec(&keys[i], &keys[j]) is Less);
        }
    }
}

/// The keys of a map with 128-bit keys, smallest first.
pub fn wide_key_list<V>(m: &BTreeMap<u128, V>) -> (ids: Vec<u128>)
    ensures
        lists_wide_keys(ids@, m@),
{
    broadcast use vstd::std_specs::btree::group_btree_axioms;

    let mut ids: Vec<u128> = Vec::new();
    proof {
        increasing_wide_ids(Seq::empty());
    }
    let it0 = m.iter();
    let ghost all = vstd::std_specs::iter::IteratorSpec::remaining(&it0);
    let ghost keys = all.map_values(|kv: (&u128, &V)| *kv.0);
    proof {
        increasing_wide_ids(keys);
    }
    for kv in it: it0
        invariant
            it.seq() == all,
            keys == all.map_values(|kv: (&u128, &V)| *kv.0),
            ids@ == keys.take(it.index() as int),
    {
        ids.push(*kv.0);
        assert(keys.take(it.index() + 1) =~= keys.take(it.index() as int).push(
            keys[it.index() as int],
        ));
    }
    proof {
        assert(keys.take(keys.len() as int) =~= keys);
        assert forall|i: int| 0 <= i < ids.len() implies m@.contains_key(#[trigger] ids@[i]) by {
            assert(m@.contains_key(*all[i].0));
        }
        assert forall|k: u128| #[trigger] m@.contains_key(k) implies ids@.contains(k) by {
            assert(all.contains((&k, &m@[k])));
            let i = choose|i: int| 0 <= i < all.len() && all[i] == (&k, &m@[k]);
            assert(keys[i] == k);
        }
    }
    ids
}

/// A table from text to values.
pub struct Named<V> {
    pub entries: Vec<(String, V)>,
}

/// The place of `k` among the keys of `e`, or the length of `e`.
pub open spec fn slot_of<V>(e: Seq<(String, V)>, k: Seq<char>) -> int
    decreases e.len(),
{
    if e.len() == 0 {
        0
    } else if e.last().0@ == k {
        e.len() - 1
    } else {
        let i = slot_of(e.drop_last(), k);
        if i == e.len() - 1 {
            e.len() as int
        } else {
            i
        }
    }
}

pub open spec fn has_key<V>(e: Seq<(String, V)>, k: Seq<char>) -> bool {
    exists|i: int| 0 <= i < e.len() && (#[trigger] e[i]).0@ == k
}

pub open spec fn distinct_keys<V>(e: Seq<(String, V)>) -> bool {
    forall|i: int, j: int| 0 <= i < j < e.len() ==> (#[trigger] e[i]).0@ != (#[trigger] e[j]).0@
}

proof fn slot_of_is_place<V>(e: Seq<(String, V)>, k: Seq<char>)
    ensures
        0 <= slot_of(e, k) <= e.len(),
        has_key(e, k) <==> slot_of(e, k) < e.len(),
        slot_of(e, k) < e.len() ==> e[slot_of(e, k)].0@ == k,
    decreases e.len(),
{
    if e.len() > 0 {
        slot_of_is_place(e.drop_last(), k);
        let i = slot_of(e, k);
        if i < e.len() {
            assert(e[i].0@ == k);
        } else if has_key(e, k) {
            let j = choose|j: int| 0 <= j < e.len() && (#[trigger] e[j]).0@ == k;
            assert(e.drop_last()[j].0@ == k);
        }
    }
}

impl<V> View for Named<V> {
    type V = Map<Seq<char>, V>;

    open spec fn view(&self) -> Map<Seq<char>, V> {
        Map::new(
            |k: Seq<char>| has_key(self.entries@, k),
            |k: Seq<char>| self.entries@[slot_of(self.entries@, k)].1,
        )
    }
}

impl<V> Named<V> {
    /// No key occurs twice.
    pub open spec fn wf(&self) -> bool {
        distinct_keys(self.entries@)
    }

    pub proof fn entry_at(&self, i: int)
        requires
            self.wf(),
            0 <= i < self.entries@.len(),
        ensures
            self@.contains_key(self.entries@[i].0@),
            self@[self.entries@[i].0@] == self.entries@[i].1,
    {
        let k = self.entries@[i].0@;
        slot_of_is_place(self.entries@, k);
        assert(has_key(self.entries@, k));
        let j = slot_of(self.entries@, k);
        assert(self.entries@[j].0@ == k);
        assert(j == i);
    }

    pub proof fn key_has_place(&self, k: Seq<char>)
        requires
            self.wf(),
        ensures
            self@.contains_key(k) <==> has_key(self.entries@, k),
            self@.contains_key(k) ==> exists|i: int|
                0 <= i < self.entries@.len() && (#[trigger] self.entries@[i]).0@ == k && self.entries@[i].1
                    == self@[k],
    {
        slot_of_is_place(self.entries@, k);
    }

    pub fn new() -> (r: Self)
        ensures
            r.wf(),
            r@ == Map::<Seq<char>, V>::empty(),
    {
        let r = Named { entries: Vec::new() };
        assert(r@ =~= Map::<Seq<char>, V>::empty());
        r
    }

    /// The place of `k`, or the number of entries.
    pub fn find(&self, k: &str) -> (r: usize)
        requires
            self.wf(),
        ensures
            r <= self.entries@.len(),
            r < self.entries@.len() ==> self.entries@[r as int].0@ == k@ && self@.contains_key(k@)
                && self@[k@] == self.entries@[r as int].1,
            r == self.entries@.len() <==> !self@.contains_key(k@),
    {
        let n: usize = self.entries.len();
        let mut i: usize = 0;
        while i < n
            invariant
                n == self.entries.len(),
                i <= n,
                self.wf(),
                forall|j: int| 0 <= j < i ==> (#[trigger] self.entries@[j]).0@ != k@,
            decreases n - i,
        {
            if str_eq(self.entries[i].0.as_str(), k) {
                proof {
                    self.entry_at(i as int);
                }
                return i;
            }
            i = i + 1;
        }
        n
    }

    pub fn get(&self, k: &str) -> (r: Option<&V>)
        requires
            self.wf(),
        ensures
            r is Some <==> self@.contains_key(k@),
            r matches Some(v) ==> *v == self@[k@],
    {
        let i: usize = self.find(k);
        if i < self.entries.len() {
            Some(&self.entries[i].1)
        } else {
            None
        }
    }

    /// Sets the value of `k`.
    pub fn insert(&mut self, k: String, v: V)
        requires
            old(self).wf(),
        ensures
            final(self).wf(),
            final(self)@ == old(self)@.insert(k@, v),
    {
        let i: usize = self.find(k.as_str());
        let ghost was = self.entries@;
        let ghost before = *self;
        if i < self.entries.len() {
            self.entries.set(i, (k, v));
        } else {
            proof {
                assert forall|j: int| 0 <= j < was.len() implies (#[trigger] was[j]).0@ != k@ by {
                    before.entry_at(j);
                }
            }
            self.entries.push((k, v));
        }
        proof {
            let want = before@.insert(k@, v);
            assert(self.wf());
            assert forall|x: Seq<char>| self@.contains_key(x) <==> want.contains_key(x) by {
                if self@.contains_key(x) {
                    self.key_has_place(x);
                    let j = choose|j: int|
                        0 <= j < self.entries@.len() && (#[trigger] self.entries@[j]).0@ == x;
                    if j < was.len() {
                        before.entry_at(j);
                    }
                }
                if want.contains_key(x) {
                    if x == k@ {
                        self.entry_at(i as int);
                    } else {
                        before.key_has_place(x);
                        let j = choose|j: int| 0 <= j < was.len() && (#[trigger] was[j]).0@ == x;
                        self.entry_at(j);
                    }
                }
            }
            assert forall|x: Seq<char>| want.contains_key(x) implies self@[x] == want[x] by {
                if x == k@ {
                    self.entry_at(i as int);
                } else {
                    before.key_has_place(x);
                    let j = choose|j: int|
                        0 <= j < was.len() && (#[trigger] was[j]).0@ == x && was[j].1 == before@[x];
                    self.entry_at(j);
                }
            }
            assert(self@ =~= want);
        }
    }

    /// Takes the entry of `k` out.
    pub fn remove(&mut self, k: &str) -> (r: Option<V>)
        requires
            old(self).wf(),
        ensures
            final(self).wf(),
            final(self)@ == old(self)@.remove(k@),
            r is Some <==> old(self)@.contains_key(k@),
            r matches Some(v) ==> v == old(self)@[k@],
    {
        let i: usize = self.find(k);
        let ghost was = self.entries@;
        let ghost before = *self;
        if i == self.entries.len() {
            assert(self@ =~= before@.remove(k@));
            return None;
        }
        let (_, v) = self.entries.remove(i);
        proof {
            assert(self.entries@ =~= was.remove(i as int));
            let want = before@.remove(k@);
            assert forall|a: int, b: int| 0 <= a < b < self.entries@.len() implies (
            #[trigger] self.entries@[a]).0@ != (#[trigger] self.entries@[b]).0@ by {
                let a2 = if a < i { a } else { a + 1 };
                let b2 = if b < i { b } else { b + 1 };
                assert(was[a2].0@ != was[b2].0@);
            }
            assert forall|x: Seq<char>| self@.contains_key(x) <==> want.contains_key(x) by {
                if self@.contains_key(x) {
                    self.key_has_place(x);
                    let j = choose|j: int|
                        0 <= j < self.entries@.len() && (#[trigger] self.entries@[j]).0@ == x;
                    let j2 = if j < i { j } else { j + 1 };
                    before.entry_at(j2);
                    assert(was[i as int].0@ != was[j2].0@);
                }
                if want.contains_key(x) {
                    before.key_has_place(x);
                    let j = choose|j: int| 0 <= j < was.len() && (#[trigger] was[j]).0@ == x;
                    self.entry_at(if j < i { j } else { j - 1 });
                }
            }
            assert forall|x: Seq<char>| want.contains_key(x) implies self@[x] == want[x] by {
                before.key_has_place(x);
                let j = choose|j: int|
                    0 <= j < was.len() && (#[trigger] was[j]).0@ == x && was[j].1 == before@[x];
                self.entry_at(if j < i { j } else { j - 1 });
            }
            assert(self@ =~= want);
        }
        Some(v)
    }
}

} // verus!
