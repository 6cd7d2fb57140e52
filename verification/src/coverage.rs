//! Which logged operations the in-memory state already holds.
use std::collections::{BTreeMap, BTreeSet};
use vstd::prelude::*;

verus! {

/// For each writing instance, the highest sequence number that is covered.
pub struct Coverage {
    map: BTreeMap<u32, u64>,
}

impl View for Coverage {
    type V = Map<u32, u64>;

    closed spec fn view(&self) -> Map<u32, u64> {
        self.map@
    }
}

/// `m` covering `inst` up to `seqno` at least.
pub open spec fn raised(m: Map<u32, u64>, inst: u32, seqno: u64) -> Map<u32, u64> {
    m.insert(
        inst,
        if m.contains_key(inst) && m[inst] >= seqno {
            m[inst]
        } else {
            seqno
        },
    )
}

/// `m` covering all that `marks` say.
pub open spec fn merged(m: Map<u32, u64>, marks: Seq<(u32, u64)>) -> Map<u32, u64>
    decreases marks.len(),
{
    if marks.len() == 0 {
        m
    } else {
        raised(merged(m, marks.drop_last()), marks.last().0, marks.last().1)
    }
}

/// `m` covers operation `seqno` of `inst`.
pub open spec fn covers(m: Map<u32, u64>, inst: u32, seqno: u64) -> bool {
    m.contains_key(inst) && seqno <= m[inst]
}

/// Merging forgets nothing and covers every mark.
pub proof fn merging_covers(m: Map<u32, u64>, marks: Seq<(u32, u64)>)
    ensures
        forall|inst: u32, seqno: u64| #[trigger]
            covers(m, inst, seqno) ==> covers(merged(m, marks), inst, seqno),
        forall|k: int|
            0 <= k < marks.len() ==> covers(
                merged(m, marks),
                (#[trigger] marks[k]).0,
                marks[k].1,
            ),
    decreases marks.len(),
{
    if marks.len() > 0 {
        merging_covers(m, marks.drop_last());
        assert forall|k: int| 0 <= k < marks.len() implies covers(
            merged(m, marks),
            (#[trigger] marks[k]).0,
            marks[k].1,
        ) by {
            if k < marks.len() - 1 {
                assert(covers(
                    merged(m, marks.drop_last()),
                    marks.drop_last()[k].0,
                    marks.drop_last()[k].1,
                ));
            }
        }
    }
}

/// Merging covers nothing that neither the coverage nor a mark covers.
pub proof fn merging_invents_nothing(m: Map<u32, u64>, marks: Seq<(u32, u64)>, inst: u32, seqno: u64)
    requires
        covers(merged(m, marks), inst, seqno),
    ensures
        covers(m, inst, seqno) || exists|k: int|
            0 <= k < marks.len() && (#[trigger] marks[k]).0 == inst && seqno <= marks[k].1,
    decreases marks.len(),
{
    if marks.len() > 0 {
        let front = marks.drop_last();
        let last = marks.last();
        if last.0 == inst && seqno <= last.1 {
            assert(marks[marks.len() - 1].0 == inst);
        } else {
            merging_invents_nothing(m, front, inst, seqno);
            if !covers(m, inst, seqno) {
                let k = choose|k: int|
                    0 <= k < front.len() && (#[trigger] front[k]).0 == inst && seqno <= front[k].1;
                assert(marks[k].0 == inst);
            }
        }
    }
}

/// Merging marks that are covered already changes nothing.
pub proof fn merging_is_idempotent(m: Map<u32, u64>, marks: Seq<(u32, u64)>)
    requires
        forall|k: int| 0 <= k < marks.len() ==> covers(m, (#[trigger] marks[k]).0, marks[k].1),
    ensures
        merged(m, marks) == m,
    decreases marks.len(),
{
    if marks.len() > 0 {
        let front = marks.drop_last();
        assert forall|k: int| 0 <= k < front.len() implies covers(
            m,
            (#[trigger] front[k]).0,
            front[k].1,
        ) by {
            assert(covers(m, marks[k].0, marks[k].1));
        }
        merging_is_idempotent(m, front);
        assert(covers(m, marks[marks.len() - 1].0, marks[marks.len() - 1].1));
        assert(merged(m, marks) =~= m);
    }
}

impl Coverage {
    pub fn new() -> (r: Self)
        ensures
            r@ == Map::<u32, u64>::empty(),
    {
        Coverage { map: BTreeMap::new() }
    }

    pub fn get(&self, inst: u32) -> (r: Option<u64>)
        ensures
            r is Some <==> self@.contains_key(inst),
            r matches Some(max) ==> max == self@[inst],
    {
        broadcast use vstd::std_specs::btree::group_btree_axioms;

        match self.map.get(&inst) {
            Some(max) => Some(*max),
            None => None,
        }
    }

    pub fn is_empty(&self) -> (r: bool)
        ensures
            r == (self@ == Map::<u32, u64>::empty()),
    {
        broadcast use vstd::std_specs::btree::group_btree_axioms;

        let r: bool = self.map.is_empty();
        proof {
            if r {
                assert(self@ =~= Map::<u32, u64>::empty());
            }
        }
        r
    }

    /// Covers `inst` up to exactly `seqno`.
    pub fn set(&mut self, inst: u32, seqno: u64)
        ensures
            final(self)@ == old(self)@.insert(inst, seqno),
    {
        broadcast use vstd::std_specs::btree::group_btree_axioms;

        self.map.insert(inst, seqno);
    }

    /// Covers `inst` up to `seqno`.
    pub fn raise(&mut self, inst: u32, seqno: u64)
        ensures
            final(self)@ == raised(old(self)@, inst, seqno),
    {
        broadcast use vstd::std_specs::btree::group_btree_axioms;

        let ghost before = self@;
        let max: u64 = match self.map.get(&inst) {
            Some(old_max) => if *old_max >= seqno {
                *old_max
            } else {
                seqno
            },
            None => seqno,
        };
        self.map.insert(inst, max);
        assert(self@ =~= raised(before, inst, seqno));
    }

    /// Covers what the marks say.
    pub fn merge(&mut self, marks: &Vec<(u32, u64)>)
        ensures
            final(self)@ == merged(old(self)@, marks@),
    {
        let ghost before = self@;
        let n: usize = marks.len();
        let mut i: usize = 0;
        assert(marks@.take(0) =~= Seq::<(u32, u64)>::empty());
        while i < n
            invariant
                n == marks.len(),
                i <= n,
                self@ == merged(before, marks@.take(i as int)),
            decreases n - i,
        {
            let (inst, seqno): (u32, u64) = marks[i];
            self.raise(inst, seqno);
            proof {
                let more = marks@.take(i + 1);
                assert(more.drop_last() =~= marks@.take(i as int));
                assert(more.last() == marks@[i as int]);
            }
            i = i + 1;
        }
        assert(marks@.take(n as int) =~= marks@);
    }
}

/// How many instances are remembered for a memory.
pub const MAX_RECALLERS: usize = 8;

/// For each memory, instances that recalled it.
pub struct Provenance {
    map: BTreeMap<u64, BTreeSet<u32>>,
}

impl View for Provenance {
    type V = Map<u64, Set<u32>>;

    closed spec fn view(&self) -> Map<u64, Set<u32>> {
        self.map@.map_values(|s: BTreeSet<u32>| s@)
    }
}

pub open spec fn recallers(m: Map<u64, Set<u32>>, id: u64) -> Set<u32> {
    if m.contains_key(id) {
        m[id]
    } else {
        Set::empty()
    }
}

/// `m` with `inst` noted for `id`, if there is room.
pub open spec fn noted(m: Map<u64, Set<u32>>, id: u64, inst: u32) -> Map<u64, Set<u32>> {
    m.insert(
        id,
        if recallers(m, id).len() < MAX_RECALLERS {
            recallers(m, id).insert(inst)
        } else {
            recallers(m, id)
        },
    )
}

/// `m` with `inst` noted for all of `ids`.
pub open spec fn all_noted(m: Map<u64, Set<u32>>, ids: Seq<u64>, inst: u32) -> Map<u64, Set<u32>>
    decreases ids.len(),
{
    if ids.len() == 0 {
        m
    } else {
        noted(all_noted(m, ids.drop_last(), inst), ids.last(), inst)
    }
}

/// No memory has more than `MAX_RECALLERS` instances.
pub open spec fn bounded(m: Map<u64, Set<u32>>) -> bool {
    forall|id: u64| #[trigger]
        m.contains_key(id) ==> m[id].finite() && m[id].len() <= MAX_RECALLERS
}

/// Noting keeps the bound.
pub proof fn noting_stays_bounded(m: Map<u64, Set<u32>>, ids: Seq<u64>, inst: u32)
    requires
        bounded(m),
    ensures
        bounded(all_noted(m, ids, inst)),
    decreases ids.len(),
{
    if ids.len() > 0 {
        noting_stays_bounded(m, ids.drop_last(), inst);
    }
}

impl Provenance {
    pub fn new() -> (r: Self)
        ensures
            r@ == Map::<u64, Set<u32>>::empty(),
    {
        let r = Provenance { map: BTreeMap::new() };
        assert(r@ =~= Map::<u64, Set<u32>>::empty());
        r
    }

    /// Whether `inst` is remembered to have recalled `id`.
    pub fn has(&self, id: u64, inst: u32) -> (r: bool)
        ensures
            r == recallers(self@, id).contains(inst),
    {
        broadcast use vstd::std_specs::btree::group_btree_axioms;

        match self.map.get(&id) {
            Some(s) => s.contains(&inst),
            None => false,
        }
    }

    pub fn note(&mut self, id: u64, inst: u32)
        ensures
            final(self)@ == noted(old(self)@, id, inst),
    {
        broadcast use vstd::std_specs::btree::group_btree_axioms;

        let ghost before = self@;
        let mut set: BTreeSet<u32> = match self.map.remove(&id) {
            Some(s) => s,
            None => BTreeSet::new(),
        };
        assert(set@ =~= recallers(before, id));
        if set.len() < MAX_RECALLERS {
            set.insert(inst);
        }
        self.map.insert(id, set);
        assert(self@ =~= noted(before, id, inst));
    }

    pub fn note_all(&mut self, ids: &Vec<u64>, inst: u32)
        ensures
            final(self)@ == all_noted(old(self)@, ids@, inst),
    {
        let ghost before = self@;
        let n: usize = ids.len();
        let mut i: usize = 0;
        assert(ids@.take(0) =~= Seq::<u64>::empty());
        while i < n
            invariant
                n == ids.len(),
                i <= n,
                self@ == all_noted(before, ids@.take(i as int), inst),
            decreases n - i,
        {
            self.note(ids[i], inst);
            proof {
                let more = ids@.take(i + 1);
                assert(more.drop_last() =~= ids@.take(i as int));
                assert(more.last() == ids@[i as int]);
            }
            i = i + 1;
        }
        assert(ids@.take(n as int) =~= ids@);
    }
}

/// Raising covers the writer up to the higher of what was covered and what is new, and no other
/// writer differently.
pub proof fn raising_takes_the_higher(m: Map<u32, u64>, inst: u32, seqno: u64)
    ensures
        raised(m, inst, seqno).contains_key(inst),
        raised(m, inst, seqno)[inst] >= seqno,
        m.contains_key(inst) ==> raised(m, inst, seqno)[inst] >= m[inst] && (raised(m, inst, seqno)[inst]
            == seqno || raised(m, inst, seqno)[inst] == m[inst]),
        !m.contains_key(inst) ==> raised(m, inst, seqno)[inst] == seqno,
        forall|w: u32|
            w != inst ==> (#[trigger] raised(m, inst, seqno).contains_key(w) <==> m.contains_key(w)) && (
            m.contains_key(w) ==> raised(m, inst, seqno)[w] == m[w]),
{
}

/// What is covered after merging, writer by writer: the highest number that was covered or marked.
pub proof fn merged_coverage_is_the_highest(m: Map<u32, u64>, marks: Seq<(u32, u64)>, inst: u32)
    ensures
        ({
            let after = merged(m, marks);
            &&& after.contains_key(inst) <==> m.contains_key(inst) || exists|k: int|
                0 <= k < marks.len() && (#[trigger] marks[k]).0 == inst
            &&& m.contains_key(inst) ==> after[inst] >= m[inst]
            &&& forall|k: int|
                0 <= k < marks.len() && (#[trigger] marks[k]).0 == inst ==> after[inst] >= marks[k].1
            &&& after.contains_key(inst) ==> (m.contains_key(inst) && after[inst] == m[inst]) || exists|k: int|
                0 <= k < marks.len() && (#[trigger] marks[k]).0 == inst && marks[k].1 == after[inst]
        }),
    decreases marks.len(),
{
    if marks.len() > 0 {
        let front = marks.drop_last();
        let after = merged(m, marks);
        merged_coverage_is_the_highest(m, front, inst);
        assert forall|k: int| 0 <= k < marks.len() && (#[trigger] marks[k]).0 == inst implies after[inst]
            >= marks[k].1 by {
            if k < front.len() {
                assert(front[k] == marks[k]);
            }
        }
        if exists|k: int| 0 <= k < front.len() && (#[trigger] front[k]).0 == inst {
            let k = choose|k: int| 0 <= k < front.len() && (#[trigger] front[k]).0 == inst;
            assert(marks[k].0 == inst);
        }
        if exists|k: int| 0 <= k < marks.len() && (#[trigger] marks[k]).0 == inst {
            let k = choose|k: int| 0 <= k < marks.len() && (#[trigger] marks[k]).0 == inst;
            if k < front.len() {
                assert(front[k].0 == inst);
            }
        }
        if after.contains_key(inst) {
            let was = merged(m, front);
            if marks.last().0 == inst && !(was.contains_key(inst) && was[inst] >= marks.last().1) {
                assert(marks[marks.len() - 1].1 == after[inst]);
            } else if !(m.contains_key(inst) && after[inst] == m[inst]) {
                let k = choose|k: int|
                    0 <= k < front.len() && (#[trigger] front[k]).0 == inst && front[k].1 == was[inst];
                assert(marks[k].1 == after[inst]);
            }
        }
    }
}

/// An instance is noted for each memory of a batch that has room, nobody is forgotten, and nobody
/// else is noted.
pub proof fn recallers_are_noted(m: Map<u64, Set<u32>>, ids: Seq<u64>, inst: u32, id: u64)
    requires
        bounded(m),
    ensures
        ids.contains(id) && recallers(m, id).len() < 8 ==> recallers(all_noted(m, ids, inst), id).contains(
            inst,
        ),
        recallers(m, id).subset_of(recallers(all_noted(m, ids, inst), id)),
        forall|w: u32|
            w != inst && #[trigger] recallers(all_noted(m, ids, inst), id).contains(w) ==> recallers(
                m,
                id,
            ).contains(w),
        !ids.contains(id) ==> recallers(all_noted(m, ids, inst), id) == recallers(m, id),
        recallers(m, id).len() >= 8 ==> recallers(all_noted(m, ids, inst), id) == recallers(m, id),
    decreases ids.len(),
{
    if ids.len() > 0 {
        let front = ids.drop_last();
        let was = all_noted(m, front, inst);
        recallers_are_noted(m, front, inst, id);
        noting_stays_bounded(m, front, inst);
        if ids.contains(id) && id != ids.last() {
            let k = choose|k: int| 0 <= k < ids.len() && ids[k] == id;
            assert(front[k] == id);
        }
        if front.contains(id) {
            let k = choose|k: int| 0 <= k < front.len() && front[k] == id;
            assert(ids[k] == id);
        }
        if !ids.contains(id) {
            assert(ids[ids.len() - 1] != id);
        }
        if id == ids.last() {
            if recallers(m, id).len() < 8 && recallers(was, id).len() >= 8 {
                if !recallers(was, id).contains(inst) {
                    assert(recallers(was, id) =~= recallers(m, id));
                }
            }
        }
    }
}

} // verus!
