//! Which memories belong to a realm or have a kind.
use crate::table::Named;
use std::collections::BTreeSet;
use vstd::prelude::*;

verus! {

/// Sets of memory ids under names.
pub struct Members {
    pub groups: Named<BTreeSet<u64>>,
}

impl View for Members {
    type V = Map<Seq<char>, Set<u64>>;

    open spec fn view(&self) -> Map<Seq<char>, Set<u64>> {
        self.groups@.map_values(|s: BTreeSet<u64>| s@)
    }
}

/// The set under a name; empty for a name without one.
pub open spec fn members_of(m: Map<Seq<char>, Set<u64>>, name: Seq<char>) -> Set<u64> {
    if m.contains_key(name) {
        m[name]
    } else {
        Set::empty()
    }
}

/// `m` with `id` put under `name`.
pub open spec fn joined(m: Map<Seq<char>, Set<u64>>, name: Seq<char>, id: u64) -> Map<
    Seq<char>,
    Set<u64>,
> {
    m.insert(name, members_of(m, name).insert(id))
}

/// `m` with `id` taken from under `name`; the name stays even when nothing is left under it.
pub open spec fn parted(m: Map<Seq<char>, Set<u64>>, name: Seq<char>, id: u64) -> Map<
    Seq<char>,
    Set<u64>,
> {
    if m.contains_key(name) {
        m.insert(name, m[name].remove(id))
    } else {
        m
    }
}

/// `m` with `id` taken from under `name`, and the name too if nothing is left under it.
pub open spec fn dropped(m: Map<Seq<char>, Set<u64>>, name: Seq<char>, id: u64) -> Map<
    Seq<char>,
    Set<u64>,
> {
    if m.contains_key(name) && m[name].remove(id) == Set::<u64>::empty() {
        m.remove(name)
    } else {
        parted(m, name, id)
    }
}

impl Members {
    pub open spec fn wf(&self) -> bool {
        self.groups.wf()
    }

    pub fn new() -> (r: Self)
        ensures
            r.wf(),
            r@ == Map::<Seq<char>, Set<u64>>::empty(),
    {
        let r = Members { groups: Named::new() };
        assert(r@ =~= Map::<Seq<char>, Set<u64>>::empty());
        r
    }

    pub fn has(&self, name: &str, id: u64) -> (r: bool)
        requires
            self.wf(),
        ensures
            r == members_of(self@, name@).contains(id),
    {
        broadcast use vstd::std_specs::btree::group_btree_axioms;

        match self.groups.get(name) {
            Some(s) => s.contains(&id),
            None => false,
        }
    }

    /// Puts `id` under `name`.
    pub fn join(&mut self, name: &str, id: u64)
        requires
            old(self).wf(),
        ensures
            final(self).wf(),
            final(self)@ == joined(old(self)@, name@, id),
    {
        broadcast use vstd::std_specs::btree::group_btree_axioms;

        let ghost before = self@;
        let mut set: BTreeSet<u64> = match self.groups.remove(name) {
            Some(s) => s,
            None => BTreeSet::new(),
        };
        set.insert(id);
        self.groups.insert(name.to_owned(), set);
        assert(self@ =~= joined(before, name@, id));
    }

    /// Takes `id` from under `name`, keeping the name.
    pub fn part(&mut self, name: &str, id: u64)
        requires
            old(self).wf(),
        ensures
            final(self).wf(),
            final(self)@ == parted(old(self)@, name@, id),
    {
        broadcast use vstd::std_specs::btree::group_btree_axioms;

        let ghost before = self@;
        if let Some(mut set) = self.groups.remove(name) {
            set.remove(&id);
            self.groups.insert(name.to_owned(), set);
        }
        assert(self@ =~= parted(before, name@, id));
    }

    /// Takes `id` from under `name`, and the name too when that leaves nothing.
    pub fn leave(&mut self, name: &str, id: u64)
        requires
            old(self).wf(),
        ensures
            final(self).wf(),
            final(self)@ == dropped(old(self)@, name@, id),
    {
        broadcast use vstd::std_specs::btree::group_btree_axioms;

        let ghost before = self@;
        if let Some(mut set) = self.groups.remove(name) {
            set.remove(&id);
            assert(set@ == before[name@].remove(id));
            if !set.is_empty() {
                assert(set@ != Set::<u64>::empty());
                self.groups.insert(name.to_owned(), set);
            } else {
                assert(set@ =~= Set::<u64>::empty());
            }
        }
        assert(self@ =~= dropped(before, name@, id));
    }
}

/// Joining and leaving again restores a table in which the name had members, none of them `id`.
pub proof fn leaving_undoes_joining(m: Map<Seq<char>, Set<u64>>, name: Seq<char>, id: u64)
    requires
        m.contains_key(name),
        m[name] != Set::<u64>::empty(),
        !m[name].contains(id),
    ensures
        dropped(joined(m, name, id), name, id) == m,
{
    assert(m[name].insert(id).remove(id) =~= m[name]);
    assert(dropped(joined(m, name, id), name, id) =~= m);
}

/// Joining a name adds one membership and changes no other; leaving takes it away again and changes
/// no other.
pub proof fn joining_and_leaving_are_exact(m: Map<Seq<char>, Set<u64>>, name: Seq<char>, id: u64)
    ensures
        forall|n: Seq<char>, k: u64| #[trigger]
            members_of(joined(m, name, id), n).contains(k) <==> members_of(m, n).contains(k) || (n == name
                && k == id),
        forall|n: Seq<char>, k: u64| #[trigger]
            members_of(parted(m, name, id), n).contains(k) <==> members_of(m, n).contains(k) && !(n == name
                && k == id),
        forall|n: Seq<char>, k: u64| #[trigger]
            members_of(dropped(m, name, id), n).contains(k) <==> members_of(m, n).contains(k) && !(n == name
                && k == id),
        dropped(m, name, id).contains_key(name) ==> exists|k: u64|
            members_of(dropped(m, name, id), name).contains(k),
        forall|n: Seq<char>|
            n != name ==> (#[trigger] dropped(m, name, id).contains_key(n) <==> m.contains_key(n)),
{
    assert forall|n: Seq<char>, k: u64| #[trigger]
        members_of(dropped(m, name, id), n).contains(k) <==> members_of(m, n).contains(k) && !(n == name
            && k == id) by {
        if n == name && m.contains_key(name) && m[name].remove(id) == Set::<u64>::empty() {
            assert(!m[name].remove(id).contains(k));
        }
    }
    if dropped(m, name, id).contains_key(name) {
        let rest = m[name].remove(id);
        if forall|k: u64| !rest.contains(k) {
            assert(rest =~= Set::<u64>::empty());
        }
        let k = choose|k: u64| rest.contains(k);
        assert(members_of(dropped(m, name, id), name).contains(k));
    }
}

} // verus!
