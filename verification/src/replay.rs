//! Replaying the write-ahead log over a loaded snapshot.
//!
//! The log is walked in time order. A record that the full snapshot covers is skipped, except that
//! operations on the cortical index are judged by that index's own snapshot. State changes that
//! come before the memory they are about are kept and tried again at the end.
use crate::apply::{
    access_step, accesses_done, change_time, folded, folded_nothing, folded_one_more, Effect, Model,
    Projections,
};
use crate::coverage::{all_noted, covers, merged, Coverage, Provenance};
use crate::hex::{hex_u32, parse_hex};
use crate::memory::MemoryState;
use crate::ops::{Op, StateDeltaOp};
use crate::seqs::{filter_ends, filter_step};
use crate::settle::{carried_out, carry_out, settle_one, settles, Arithmetic};
use crate::text::str_eq;
use vstd::prelude::*;

verus! {

/// What a manifest says a snapshot covers: instance ids in hexadecimal, with sequence numbers.
pub open spec fn manifest_marks(entries: Seq<(String, u64)>) -> Seq<(u32, u64)> {
    entries.filter(|e: (String, u64)| hex_u32(e.0@) is Some).map_values(
        |e: (String, u64)| (hex_u32(e.0@)->0, e.1),
    )
}

fn read_marks(entries: &Vec<(String, u64)>) -> (r: Vec<(u32, u64)>)
    ensures
        r@ == manifest_marks(entries@),
{
    let ghost pred = |e: (String, u64)| hex_u32(e.0@) is Some;
    let ghost mark = |e: (String, u64)| (hex_u32(e.0@)->0, e.1);
    let mut out: Vec<(u32, u64)> = Vec::new();
    let n: usize = entries.len();
    let mut i: usize = 0;
    proof {
        filter_ends(entries@, pred);
        assert(entries@.take(0).filter(pred).map_values(mark) =~= Seq::<(u32, u64)>::empty());
    }
    while i < n
        invariant
            n == entries.len(),
            i <= n,
            pred == (|e: (String, u64)| hex_u32(e.0@) is Some),
            mark == (|e: (String, u64)| (hex_u32(e.0@)->0, e.1)),
            out@ == entries@.take(i as int).filter(pred).map_values(mark),
        decreases n - i,
    {
        proof {
            filter_step(entries@, pred, i as int);
        }
        let ghost kept = entries@.take(i as int).filter(pred);
        match parse_hex(entries[i].0.as_str()) {
            Some(inst) => {
                out.push((inst, entries[i].1));
                assert(kept.push(entries@[i as int]).map_values(mark) =~= kept.map_values(mark).push(
                    mark(entries@[i as int]),
                ));
            },
            None => {},
        }
        i = i + 1;
    }
    out
}

/// The coverage that marks set one after the other; of several marks of one instance the last one
/// counts.
pub open spec fn set_marks(marks: Seq<(u32, u64)>) -> Map<u32, u64>
    decreases marks.len(),
{
    if marks.len() == 0 {
        Map::empty()
    } else {
        set_marks(marks.drop_last()).insert(marks.last().0, marks.last().1)
    }
}

/// Reads the coverage that a manifest records for a snapshot. Entries whose key is no instance id
/// are passed over.
pub fn read_coverage(entries: &Vec<(String, u64)>) -> (r: Coverage)
    ensures
        r@ == set_marks(manifest_marks(entries@)),
{
    let marks = read_marks(entries);
    let mut out = Coverage::new();
    let n: usize = marks.len();
    let mut i: usize = 0;
    assert(marks@.take(0) =~= Seq::<(u32, u64)>::empty());
    while i < n
        invariant
            n == marks.len(),
            i <= n,
            out@ == set_marks(marks@.take(i as int)),
        decreases n - i,
    {
        let (inst, seqno): (u32, u64) = marks[i];
        out.set(inst, seqno);
        proof {
            let more = marks@.take(i + 1);
            assert(more.drop_last() =~= marks@.take(i as int));
            assert(more.last() == marks@[i as int]);
        }
        i = i + 1;
    }
    assert(marks@.take(n as int) =~= marks@);
    out
}

/// A snapshot that a manifest knows, with what it covers.
pub struct Family {
    pub snapshot_name: String,
    pub covered: Vec<(String, u64)>,
}

/// `k` is the first family of the snapshot called `name`.
pub open spec fn first_family(families: Seq<Family>, name: Seq<char>, k: int) -> bool {
    &&& 0 <= k < families.len()
    &&& families[k].snapshot_name@ == name
    &&& forall|j: int| 0 <= j < k ==> (#[trigger] families[j]).snapshot_name@ != name
}

/// What the loaded snapshot covers: what the first family of its name says, or nothing.
pub fn family_coverage(families: &Vec<Family>, name: &str) -> (r: Coverage)
    ensures
        forall|k: int| #[trigger]
            first_family(families@, name@, k) ==> r@ == set_marks(
                manifest_marks(families@[k].covered@),
            ),
        (forall|k: int|
            0 <= k < families@.len() ==> (#[trigger] families@[k]).snapshot_name@ != name@) ==> r@
            == Map::<u32, u64>::empty(),
{
    let n: usize = families.len();
    let mut i: usize = 0;
    while i < n
        invariant
            n == families.len(),
            i <= n,
            forall|j: int| 0 <= j < i ==> (#[trigger] families@[j]).snapshot_name@ != name@,
        decreases n - i,
    {
        if str_eq(families[i].snapshot_name.as_str(), name) {
            proof {
                assert forall|k: int| #[trigger] first_family(families@, name@, k) implies k == i by {
                    if k < i {
                        assert(families@[k].snapshot_name@ != name@);
                    } else if i < k {
                        assert(families@[i as int].snapshot_name@ != name@);
                    }
                }
            }
            return read_coverage(&families[i].covered);
        }
        i = i + 1;
    }
    Coverage::new()
}

/// The full snapshot holds the record: by its coverage of the writer, or, for a snapshot without
/// any recorded coverage, by its overall sequence number.
pub open spec fn covered_by_full(full: Map<u32, u64>, full_seqno: u64, inst: u32, seqno: u64) -> bool {
    if full.contains_key(inst) {
        covers(full, inst, seqno)
    } else {
        full == Map::<u32, u64>::empty() && seqno <= full_seqno
    }
}

/// The record is to be applied.
pub open spec fn replays(
    full: Map<u32, u64>,
    full_seqno: u64,
    cortical_seqno: u64,
    inst: u32,
    seqno: u64,
    op: Op,
) -> bool {
    if op.cortical() {
        seqno > cortical_seqno
    } else {
        !covered_by_full(full, full_seqno, inst, seqno)
    }
}

/// A replay in progress.
pub struct Replay {
    pub full: Coverage,
    pub full_seqno: u64,
    pub cortical_seqno: u64,
    pub highest: u64,
    pub provenance: Provenance,
    pub orphan_changes: Vec<StateDeltaOp>,
    pub orphan_accesses: Vec<StateDeltaOp>,
}

impl Replay {
    /// What the loaded snapshot covers.
    pub open spec fn covered(&self) -> Map<u32, u64> {
        self.full@
    }

    pub open spec fn snapshot_seqno(&self) -> u64 {
        self.full_seqno
    }

    pub open spec fn index_seqno(&self) -> u64 {
        self.cortical_seqno
    }

    /// The highest sequence number met.
    pub open spec fn top(&self) -> u64 {
        self.highest
    }

    pub open spec fn applies(&self, inst: u32, seqno: u64, op: Op) -> bool {
        replays(self.covered(), self.snapshot_seqno(), self.index_seqno(), inst, seqno, op)
    }

    /// A replay over a snapshot of the given coverage.
    pub fn new(full: Coverage, full_seqno: u64, cortical_seqno: u64, provenance: Provenance) -> (r: Self)
        ensures
            r.covered() == full@,
            r.snapshot_seqno() == full_seqno,
            r.index_seqno() == cortical_seqno,
            r.top() == full_seqno,
            r.provenance == provenance,
            r.orphan_changes@ == Seq::<StateDeltaOp>::empty(),
            r.orphan_accesses@ == Seq::<StateDeltaOp>::empty(),
    {
        Replay {
            full,
            full_seqno,
            cortical_seqno,
            highest: full_seqno,
            provenance,
            orphan_changes: Vec::new(),
            orphan_accesses: Vec::new(),
        }
    }

    /// Whether a record is to be applied.
    pub fn must_apply(&self, inst: u32, seqno: u64, op: &Op) -> (r: bool)
        ensures
            r == self.applies(inst, seqno, *op),
    {
        if op.is_cortical() {
            return seqno > self.cortical_seqno;
        }
        match self.full.get(inst) {
            Some(max) => seqno > max,
            None => !(self.full.is_empty() && seqno <= self.full_seqno),
        }
    }

    /// Takes one record of the log: applies it, keeps it for later, or skips it. Returns what it
    /// asks of the indexes and organs.
    pub fn step<A: Arithmetic>(
        &mut self,
        inst: u32,
        seqno: u64,
        op: Op,
        ctx: &mut Projections,
        a: &A,
    ) -> (asked: Vec<Effect>)
        requires
            old(ctx).wf(),
        ensures
            final(ctx).wf(),
            final(self).covered() == old(self).covered(),
            final(self).snapshot_seqno() == old(self).snapshot_seqno(),
            final(self).index_seqno() == old(self).index_seqno(),
            final(self).top() == if seqno > old(self).top() {
                seqno
            } else {
                old(self).top()
            },
            step_done(a, *old(self), *final(self), old(ctx)@, final(ctx)@, inst, seqno, op, asked@),
    {
        if seqno > self.highest {
            self.highest = seqno;
        }
        if !self.must_apply(inst, seqno, &op) {
            return Vec::new();
        }
        match &op {
            Op::RecordRecallBatch(b) => {
                self.provenance.note_all(&b.memory_ids, inst);
            },
            _ => {},
        }
        match op {
            Op::UpdateStateBatch(deltas) => {
                self.take_accesses(deltas, ctx);
                Vec::new()
            },
            Op::UpdateState(delta) => {
                broadcast use vstd::std_specs::btree::group_btree_axioms;

                if ctx.states.contains_key(&delta.memory_id) {
                    carry_out(Op::UpdateState(delta), ctx, a)
                } else {
                    self.orphan_changes.push(delta);
                    Vec::new()
                }
            },
            other => carry_out(other, ctx, a),
        }
    }

    fn take_accesses(&mut self, deltas: Vec<StateDeltaOp>, ctx: &mut Projections)
        requires
            old(ctx).wf(),
        ensures
            final(ctx).wf(),
            accesses_done(old(ctx)@, final(ctx)@, deltas@),
            *final(self) == (Replay { orphan_accesses: final(self).orphan_accesses, ..*old(self) }),
            final(self).orphan_accesses@ == old(self).orphan_accesses@ + strays(
                deltas@,
                old(ctx)@.states,
            ),
    {
        let ghost all = deltas@;
        let ghost start = ctx@;
        let ghost before = *self;
        let ghost step = |s: Map<u64, MemoryState>, t: Map<u64, MemoryState>, d: StateDeltaOp|
            access_step(s, t, d);
        let ghost stray = |d: StateDeltaOp| !start.states.contains_key(d.memory_id);
        proof {
            folded_nothing::<Map<u64, MemoryState>, StateDeltaOp>(start.states, step);
            filter_ends(all, stray);
            assert(all.take(0) =~= Seq::<StateDeltaOp>::empty());
            assert(before.orphan_accesses@ + Seq::<StateDeltaOp>::empty() =~= before.orphan_accesses@);
        }
        for d in it: deltas
            invariant
                it.seq() == all,
                ctx.wf(),
                step == (|s: Map<u64, MemoryState>, t: Map<u64, MemoryState>, d: StateDeltaOp|
                    access_step(s, t, d)),
                stray == (|d: StateDeltaOp| !start.states.contains_key(d.memory_id)),
                ctx@ == (Model { states: ctx@.states, ..start }),
                ctx@.states.dom() == start.states.dom(),
                folded(start.states, ctx@.states, all.take(it.index() as int), step),
                *self == (Replay { orphan_accesses: self.orphan_accesses, ..before }),
                self.orphan_accesses@ == before.orphan_accesses@ + all.take(it.index() as int).filter(
                    stray,
                ),
        {
            let ghost k = it.index() as int;
            let ghost mid = ctx@;
            let ghost item = d;
            proof {
                filter_step(all, stray, k);
            }
            let counted: bool = ctx.access(&d);
            proof {
                folded_one_more(start.states, mid.states, ctx@.states, all.take(k), item, step);
                assert(all.take(k + 1) =~= all.take(k).push(item));
                if counted {
                    assert(ctx@.states.remove(item.memory_id).dom() == mid.states.remove(
                        item.memory_id,
                    ).dom());
                    assert(ctx@.states.dom() =~= ctx@.states.remove(item.memory_id).dom().insert(
                        item.memory_id,
                    ));
                    assert(mid.states.dom() =~= mid.states.remove(item.memory_id).dom().insert(
                        item.memory_id,
                    ));
                }
            }
            if !counted {
                self.orphan_accesses.push(d);
                assert(self.orphan_accesses@ =~= before.orphan_accesses@ + all.take(k).filter(
                    stray,
                ).push(item));
            }
        }
        assert(all.take(all.len() as int) =~= all);
    }

    /// Makes the explicit changes that were kept, to the memories that meanwhile have states.
    pub fn late_changes<A: Arithmetic>(&mut self, ctx: &mut Projections, a: &A)
        requires
            old(ctx).wf(),
        ensures
            final(ctx).wf(),
            *final(self) == (Replay { orphan_changes: final(self).orphan_changes, ..*old(self) }),
            final(self).orphan_changes@ == Seq::<StateDeltaOp>::empty(),
            folded(old(ctx)@, final(ctx)@, old(self).orphan_changes@, late_step(a)),
    {
        let mut kept: Vec<StateDeltaOp> = Vec::new();
        core::mem::swap(&mut kept, &mut self.orphan_changes);
        let ghost all = kept@;
        let ghost start = ctx@;
        proof {
            folded_nothing(start, late_step(a));
            assert(all.take(0) =~= Seq::<StateDeltaOp>::empty());
        }
        for d in it: kept
            invariant
                it.seq() == all,
                ctx.wf(),
                folded(start, ctx@, all.take(it.index() as int), late_step(a)),
        {
            let ghost k = it.index() as int;
            let ghost mid = ctx@;
            let ghost item = d;
            change_late(d, ctx, a);
            proof {
                folded_one_more(start, mid, ctx@, all.take(k), item, late_step(a));
                assert(all.take(k + 1) =~= all.take(k).push(item));
            }
        }
        assert(all.take(all.len() as int) =~= all);
    }

    /// Counts the accesses that were kept, for the memories that meanwhile have states.
    pub fn late_accesses(&mut self, ctx: &mut Projections)
        requires
            old(ctx).wf(),
        ensures
            final(ctx).wf(),
            accesses_done(old(ctx)@, final(ctx)@, old(self).orphan_accesses@),
            *final(self) == (Replay { orphan_accesses: final(self).orphan_accesses, ..*old(self) }),
            final(self).orphan_accesses@ == Seq::<StateDeltaOp>::empty(),
    {
        let mut kept: Vec<StateDeltaOp> = Vec::new();
        core::mem::swap(&mut kept, &mut self.orphan_accesses);
        ctx.access_batch(&kept);
    }
}

/// The accesses whose memories have no state.
pub open spec fn strays(deltas: Seq<StateDeltaOp>, states: Map<u64, MemoryState>) -> Seq<StateDeltaOp> {
    deltas.filter(|d: StateDeltaOp| !states.contains_key(d.memory_id))
}

/// A kept change is made as of its own time, if its memory has a state.
pub open spec fn changed_late<A: Arithmetic>(a: &A, before: Model, after: Model, delta: StateDeltaOp) -> bool {
    if before.states.contains_key(delta.memory_id) {
        settles(
            a,
            before,
            after,
            Effect::StateDelta {
                delta,
                now_ms: change_time(delta, before.states[delta.memory_id].created_at_ms),
            },
        )
    } else {
        after == before
    }
}

pub open spec fn late_step<A: Arithmetic>(a: &A) -> spec_fn(Model, Model, StateDeltaOp) -> bool {
    |before: Model, after: Model, delta: StateDeltaOp| changed_late(a, before, after, delta)
}

fn change_late<A: Arithmetic>(delta: StateDeltaOp, ctx: &mut Projections, a: &A)
    requires
        old(ctx).wf(),
    ensures
        final(ctx).wf(),
        changed_late(a, old(ctx)@, final(ctx)@, delta),
{
    broadcast use vstd::std_specs::btree::group_btree_axioms;

    let now: Option<i64> = match ctx.states.get(&delta.memory_id) {
        Some(state) => Some(
            if delta.op_ts_ms > 0 {
                delta.op_ts_ms
            } else {
                state.created_at_ms
            },
        ),
        None => None,
    };
    match now {
        Some(now_ms) => {
            let _ = settle_one(Effect::StateDelta { delta, now_ms }, ctx, a);
        },
        None => {},
    }
}

/// What taking a record does.
pub open spec fn step_done<A: Arithmetic>(
    a: &A,
    before: Replay,
    after: Replay,
    start: Model,
    end: Model,
    inst: u32,
    seqno: u64,
    op: Op,
    asked: Seq<Effect>,
) -> bool {
    let none = Seq::<Effect>::empty();
    if !before.applies(inst, seqno, op) {
        &&& end == start && asked == none
        &&& after.provenance == before.provenance
        &&& after.orphan_changes == before.orphan_changes
        &&& after.orphan_accesses == before.orphan_accesses
    } else {
        &&& after.provenance@ == match op {
            Op::RecordRecallBatch(b) => all_noted(before.provenance@, b.memory_ids@, inst),
            _ => before.provenance@,
        }
        &&& match op {
            Op::UpdateStateBatch(deltas) => {
                &&& accesses_done(start, end, deltas@) && asked == none
                &&& after.orphan_accesses@ == before.orphan_accesses@ + strays(deltas@, start.states)
                &&& after.orphan_changes == before.orphan_changes
            },
            Op::UpdateState(delta) if !start.states.contains_key(delta.memory_id) => {
                &&& end == start && asked == none
                &&& after.orphan_changes@ == before.orphan_changes@.push(delta)
                &&& after.orphan_accesses == before.orphan_accesses
            },
            _ => {
                &&& carried_out(a, start, end, op, asked)
                &&& after.orphan_changes == before.orphan_changes
                &&& after.orphan_accesses == before.orphan_accesses
            },
        }
    }
}

/// One record of the log.
pub struct Record {
    pub inst: u32,
    pub seqno: u64,
    pub op: Op,
}

/// A replay on its way: its own state, the projections, and what was asked of the indexes and
/// organs so far.
pub ghost struct Walk {
    pub replay: Replay,
    pub model: Model,
    pub asked: Seq<Effect>,
}

/// One record was taken.
pub open spec fn record_taken<A: Arithmetic>(a: &A, before: Walk, after: Walk, rec: Record) -> bool {
    &&& after.replay.covered() == before.replay.covered()
    &&& after.replay.snapshot_seqno() == before.replay.snapshot_seqno()
    &&& after.replay.index_seqno() == before.replay.index_seqno()
    &&& after.replay.top() == if rec.seqno > before.replay.top() {
        rec.seqno
    } else {
        before.replay.top()
    }
    &&& exists|part: Seq<Effect>| #[trigger]
        step_done(
            a,
            before.replay,
            after.replay,
            before.model,
            after.model,
            rec.inst,
            rec.seqno,
            rec.op,
            part,
        ) && after.asked == before.asked + part
}

pub open spec fn walk_step<A: Arithmetic>(a: &A) -> spec_fn(Walk, Walk, Record) -> bool {
    |before: Walk, after: Walk, rec: Record| record_taken(a, before, after, rec)
}

/// The highest sequence number of some records, if it is above `floor`.
pub open spec fn highest_of(floor: u64, records: Seq<Record>) -> u64
    decreases records.len(),
{
    if records.len() == 0 {
        floor
    } else {
        let before = highest_of(floor, records.drop_last());
        if records.last().seqno > before {
            records.last().seqno
        } else {
            before
        }
    }
}

/// What comes of a replay.
pub struct Replayed {
    /// What the operations ask of the indexes and organs, in order.
    pub asked: Vec<Effect>,
    pub provenance: Provenance,
    /// What the store covers now.
    pub coverage: Coverage,
    /// The next sequence number, if there is one left.
    pub next_seqno: Option<u64>,
}

/// The replay is at its start.
pub open spec fn starts(r: Replay, full: Map<u32, u64>, full_seqno: u64, cortical_seqno: u64) -> bool {
    &&& r.covered() == full
    &&& r.snapshot_seqno() == full_seqno
    &&& r.index_seqno() == cortical_seqno
    &&& r.top() == full_seqno
    &&& r.orphan_changes@ == Seq::<StateDeltaOp>::empty()
    &&& r.orphan_accesses@ == Seq::<StateDeltaOp>::empty()
}

/// The records were taken one by one, and what had to wait was done at the end.
pub open spec fn replayed_all<A: Arithmetic>(
    a: &A,
    first: Replay,
    last: Replay,
    before: Model,
    after: Model,
    records: Seq<Record>,
    asked: Seq<Effect>,
) -> bool {
    exists|walked: Model, changed: Model|
        {
            &&& folded(
                Walk { replay: first, model: before, asked: Seq::empty() },
                Walk { replay: last, model: walked, asked },
                records,
                walk_step(a),
            )
            &&& #[trigger] folded(walked, changed, last.orphan_changes@, late_step(a))
            &&& accesses_done(changed, after, last.orphan_accesses@)
        }
}

/// Replays the log over a snapshot that covers `full`. `walked` tells how far the log was read of
/// each writer.
pub fn replay_wal<A: Arithmetic>(
    full: Coverage,
    full_seqno: u64,
    cortical_seqno: u64,
    provenance: Provenance,
    records: Vec<Record>,
    walked: &Vec<(u32, u64)>,
    ctx: &mut Projections,
    a: &A,
) -> (r: Replayed)
    requires
        old(ctx).wf(),
    ensures
        final(ctx).wf(),
        exists|first: Replay, last: Replay|
            {
                &&& starts(first, full@, full_seqno, cortical_seqno)
                &&& first.provenance == provenance
                &&& last.provenance == r.provenance
                &&& #[trigger] replayed_all(
                    a,
                    first,
                    last,
                    old(ctx)@,
                    final(ctx)@,
                    records@,
                    r.asked@,
                )
            },
        r.coverage@ == merged(full@, walked@),
        r.next_seqno == if highest_of(full_seqno, records@) < u64::MAX {
            Some((highest_of(full_seqno, records@) + 1) as u64)
        } else {
            None
        },
{
    let ghost all = records@;
    let ghost before = ctx@;
    let mut replay = Replay::new(full, full_seqno, cortical_seqno, provenance);
    let ghost first = replay;
    let mut asked: Vec<Effect> = Vec::new();
    let ghost start = Walk { replay: first, model: before, asked: Seq::empty() };
    proof {
        folded_nothing(start, walk_step(a));
        assert(all.take(0) =~= Seq::<Record>::empty());
    }
    for rec in it: records
        invariant
            it.seq() == all,
            ctx.wf(),
            replay.covered() == full@,
            replay.top() == highest_of(full_seqno, all.take(it.index() as int)),
            folded(
                start,
                Walk { replay, model: ctx@, asked: asked@ },
                all.take(it.index() as int),
                walk_step(a),
            ),
    {
        let ghost k = it.index() as int;
        let ghost mid = Walk { replay, model: ctx@, asked: asked@ };
        let ghost item = rec;
        let Record { inst, seqno, op } = rec;
        let mut part = replay.step(inst, seqno, op, ctx, a);
        let ghost more = part@;
        asked.append(&mut part);
        proof {
            let after = Walk { replay, model: ctx@, asked: asked@ };
            assert(step_done(
                a,
                mid.replay,
                after.replay,
                mid.model,
                after.model,
                item.inst,
                item.seqno,
                item.op,
                more,
            ) && after.asked == mid.asked + more);
            assert(record_taken(a, mid, after, item));
            folded_one_more(start, mid, after, all.take(k), item, walk_step(a));
            assert(all.take(k + 1) =~= all.take(k).push(item));
            assert(all.take(k + 1).drop_last() =~= all.take(k));
        }
    }
    assert(all.take(all.len() as int) =~= all);
    let ghost last = replay;
    let ghost end = ctx@;
    replay.late_changes(ctx, a);
    let ghost changed = ctx@;
    replay.late_accesses(ctx);
    assert(folded(end, changed, last.orphan_changes@, late_step(a)));
    let next_seqno: Option<u64> = replay.highest.checked_add(1);
    let Replay { full: mut coverage, provenance: who, .. } = replay;
    coverage.merge(walked);
    let r = Replayed { asked, provenance: who, coverage, next_seqno };
    assert(replayed_all(a, first, last, old(ctx)@, ctx@, records@, r.asked@));
    r
}

/// A record whose writer's walked numbers are merged into the coverage is skipped by the next
/// replay over that coverage, unless it is on the cortical index.
pub proof fn replayed_once(
    full: Map<u32, u64>,
    walked: Seq<(u32, u64)>,
    full_seqno: u64,
    cortical_seqno: u64,
    inst: u32,
    seqno: u64,
    op: Op,
    k: int,
)
    requires
        0 <= k < walked.len(),
        walked[k].0 == inst,
        seqno <= walked[k].1,
        !op.cortical(),
    ensures
        !replays(merged(full, walked), full_seqno, cortical_seqno, inst, seqno, op),
{
    crate::coverage::merging_covers(full, walked);
    assert(covers(merged(full, walked), walked[k].0, walked[k].1));
}

/// An operation of a writer that a covered snapshot never saw is replayed, however small its
/// sequence number is.
pub proof fn unseen_writers_are_replayed(
    full: Map<u32, u64>,
    full_seqno: u64,
    cortical_seqno: u64,
    inst: u32,
    seqno: u64,
    op: Op,
)
    requires
        full != Map::<u32, u64>::empty(),
        !full.contains_key(inst),
        !op.cortical(),
    ensures
        replays(full, full_seqno, cortical_seqno, inst, seqno, op),
{
}

/// A record on the cortical index is replayed exactly when it is newer than the snapshot of that
/// index, whatever the full snapshot covers.
pub proof fn index_records_follow_the_index_snapshot(r: Replay, inst: u32, seqno: u64, op: Op)
    requires
        op is UpdateSparseCode || op is TrainPQ || op is UpdateResidualPQ,
    ensures
        r.applies(inst, seqno, op) <==> seqno > r.cortical_seqno,
        forall|b: bool| #[trigger]
            call_ensures(Replay::must_apply, (&r, inst, seqno, &op), b) ==> (b <==> seqno
                > r.cortical_seqno),
{
}

/// Any other record is replayed exactly when the full snapshot does not hold it: by what the
/// snapshot covers of its writer, or by its number where nothing at all is known to be covered. A
/// writer that the snapshot never saw is replayed from its first record.
pub proof fn records_beyond_the_snapshot_are_replayed(r: Replay, inst: u32, seqno: u64, op: Op)
    requires
        !(op is UpdateSparseCode || op is TrainPQ || op is UpdateResidualPQ),
    ensures
        forall|b: bool| #[trigger]
            call_ensures(Replay::must_apply, (&r, inst, seqno, &op), b) ==> {
                &&& r.full@.contains_key(inst) ==> (b <==> seqno > r.full@[inst])
                &&& !r.full@.contains_key(inst) && (exists|w: u32| r.full@.contains_key(w)) ==> b
                &&& (forall|w: u32| !r.full@.contains_key(w)) ==> (b <==> seqno > r.full_seqno)
            },
        r.full@.contains_key(inst) ==> (r.applies(inst, seqno, op) <==> seqno > r.full@[inst]),
        !r.full@.contains_key(inst) && (exists|w: u32| r.full@.contains_key(w)) ==> r.applies(
            inst,
            seqno,
            op,
        ),
        (forall|w: u32| !r.full@.contains_key(w)) ==> (r.applies(inst, seqno, op) <==> seqno
            > r.full_seqno),
{
    if forall|w: u32| !r.full@.contains_key(w) {
        assert(r.full@ =~= Map::<u32, u64>::empty());
    }
    if exists|w: u32| r.full@.contains_key(w) {
        let w = choose|w: u32| r.full@.contains_key(w);
        assert(!Map::<u32, u64>::empty().contains_key(w));
    }
}

/// The later a record is, the sooner it is replayed: with a record all later ones of its kind and
/// writer are replayed too.
pub proof fn replaying_is_upward_closed(r: Replay, inst: u32, seqno: u64, later: u64, op: Op)
    requires
        r.applies(inst, seqno, op),
        seqno <= later,
    ensures
        r.applies(inst, later, op),
{
}

/// A sparse code that is newer than the index snapshot is handed to the index; an older one is
/// not, and a record that is skipped changes nothing.
pub proof fn newer_sparse_codes_are_indexed<A: Arithmetic>(
    a: &A,
    before: Replay,
    after: Replay,
    start: Model,
    end: Model,
    inst: u32,
    seqno: u64,
    x: crate::ops::UpdateSparseCodeOp,
    asked: Seq<Effect>,
)
    requires
        step_done(a, before, after, start, end, inst, seqno, Op::UpdateSparseCode(x), asked),
    ensures
        seqno > before.cortical_seqno ==> asked.len() == 1 && (asked[0] matches Effect::CorticalIndex {
            memory_id,
            feature_ids,
            activations,
            strength,
            ts_ms,
            kind,
        } && memory_id == x.memory_id && feature_ids == x.feature_ids && activations == x.activations),
        seqno <= before.cortical_seqno ==> asked.len() == 0 && end == start,
{
    let op = Op::UpdateSparseCode(x);
    if seqno > before.cortical_seqno {
        assert(before.applies(inst, seqno, op));
        assert(carried_out(a, start, end, op, asked));
        let (mid, fx) = choose|mid: Model, fx: Seq<Effect>| #[trigger]
            crate::apply::op_done(start, mid, op, fx) && folded(
                mid,
                end,
                fx,
                crate::settle::settle_step(a),
            ) && asked == crate::settle::outward(fx);
        reveal(Seq::filter);
        let pred = |e: Effect| !crate::settle::inward(e);
        assert(fx.drop_last() =~= Seq::<Effect>::empty());
        assert(fx.drop_last().filter(pred) =~= Seq::<Effect>::empty());
        assert(fx.filter(pred) =~= seq![fx[0]]);
    }
}

/// A change to a memory that has no state yet waits, behind the changes that wait already; nothing
/// that waits is dropped by any other record.
pub proof fn early_changes_wait<A: Arithmetic>(
    a: &A,
    before: Replay,
    after: Replay,
    start: Model,
    end: Model,
    inst: u32,
    seqno: u64,
    op: Op,
    asked: Seq<Effect>,
)
    requires
        step_done(a, before, after, start, end, inst, seqno, op, asked),
    ensures
        before.orphan_changes@.len() <= after.orphan_changes@.len(),
        after.orphan_changes@.take(before.orphan_changes@.len() as int) == before.orphan_changes@,
        op matches Op::UpdateState(d) ==> (before.applies(inst, seqno, op)
            && !start.states.contains_key(d.memory_id) ==> {
            &&& after.orphan_changes@.len() == before.orphan_changes@.len() + 1
            &&& after.orphan_changes@.last() == d
            &&& end == start
        }),
        before.orphan_accesses@.len() <= after.orphan_accesses@.len(),
        after.orphan_accesses@.take(before.orphan_accesses@.len() as int) == before.orphan_accesses@,
        op matches Op::UpdateStateBatch(ds) ==> (before.applies(inst, seqno, op) ==> forall|i: int|
            0 <= i < ds@.len() && !start.states.contains_key((#[trigger] ds@[i]).memory_id)
                ==> after.orphan_accesses@.contains(ds@[i])),
        op matches Op::UpdateStateBatch(ds) ==> (before.applies(inst, seqno, op) ==> forall|k: int|
            before.orphan_accesses@.len() <= k < after.orphan_accesses@.len()
                ==> !start.states.contains_key((#[trigger] after.orphan_accesses@[k]).memory_id)
                && ds@.contains(after.orphan_accesses@[k])),
{
    if op is UpdateStateBatch && before.applies(inst, seqno, op) {
        let ds = op->UpdateStateBatch_0;
        let pred = |d: StateDeltaOp| !start.states.contains_key(d.memory_id);
        let more = ds@.filter(pred);
        assert(after.orphan_accesses@ == before.orphan_accesses@ + more);
        assert forall|i: int|
            0 <= i < ds@.len() && !start.states.contains_key((#[trigger] ds@[i]).memory_id) implies after.orphan_accesses@.contains(
        ds@[i]) by {
            ds@.lemma_filter_contains(pred, i);
            let k = choose|k: int| 0 <= k < more.len() && more[k] == ds@[i];
            assert(after.orphan_accesses@[before.orphan_accesses@.len() + k] == ds@[i]);
        }
        assert forall|k: int|
            before.orphan_accesses@.len() <= k < after.orphan_accesses@.len() implies !start.states.contains_key(
            (#[trigger] after.orphan_accesses@[k]).memory_id,
        ) && ds@.contains(after.orphan_accesses@[k]) by {
            let i = k - before.orphan_accesses@.len();
            assert(more[i] == after.orphan_accesses@[k]);
            ds@.lemma_filter_pred(pred, i);
            assert(more.contains(more[i]));
            ds@.lemma_filter_contains_rev(pred, more[i]);
        }
    }
    assert(after.orphan_accesses@.take(before.orphan_accesses@.len() as int)
        =~= before.orphan_accesses@);
    assert(after.orphan_changes@.take(before.orphan_changes@.len() as int)
        =~= before.orphan_changes@);
}

/// A change that waited reaches its memory, as of its own time or, without one, of the memory's
/// creation.
pub proof fn late_changes_are_made<A: Arithmetic>(a: &A, before: Model, after: Model, d: StateDeltaOp)
    requires
        late_step(a)(before, after, d),
        before.states.contains_key(d.memory_id),
    ensures
        after.states.dom() == before.states.dom(),
        d.op_ts_ms > 0 ==> call_ensures(
            A::change,
            (a, before.states[d.memory_id], d, d.op_ts_ms),
            after.states[d.memory_id],
        ),
        d.op_ts_ms <= 0 ==> call_ensures(
            A::change,
            (a, before.states[d.memory_id], d, before.states[d.memory_id].created_at_ms),
            after.states[d.memory_id],
        ),
        forall|id: u64|
            id != d.memory_id && #[trigger] before.states.contains_key(id) ==> after.states[id]
                == before.states[id],
{
    assert(changed_late(a, before, after, d));
    assert(after.states.dom() =~= before.states.dom());
}

/// The next sequence number is above that of the snapshot and those of all records, and the lowest
/// such number.
pub proof fn next_number_is_fresh(floor: u64, records: Seq<Record>)
    ensures
        floor <= highest_of(floor, records),
        forall|i: int| 0 <= i < records.len() ==> (#[trigger] records[i]).seqno <= highest_of(floor, records),
        highest_of(floor, records) == floor || exists|i: int|
            0 <= i < records.len() && (#[trigger] records[i]).seqno == highest_of(floor, records),
    decreases records.len(),
{
    if records.len() > 0 {
        let front = records.drop_last();
        next_number_is_fresh(floor, front);
        assert forall|i: int| 0 <= i < records.len() implies (#[trigger] records[i]).seqno <= highest_of(
            floor,
            records,
        ) by {
            if i < front.len() {
                assert(front[i] == records[i]);
            }
        }
        if highest_of(floor, records) != floor {
            if records.last().seqno > highest_of(floor, front) {
                assert(records[records.len() - 1].seqno == highest_of(floor, records));
            } else {
                let i = choose|i: int|
                    0 <= i < front.len() && (#[trigger] front[i]).seqno == highest_of(floor, front);
                assert(records[i].seqno == highest_of(floor, records));
            }
        }
    }
}

/// What a manifest says of a writer last is what its coverage has; it has nothing of writers that
/// the manifest does not name.
pub proof fn coverage_is_what_the_manifest_says(entries: Seq<(String, u64)>, inst: u32)
    ensures
        forall|i: int|
            0 <= i < entries.len() && hex_u32((#[trigger] entries[i]).0@) == Some(inst) && (forall|j: int|
                i < j < entries.len() ==> hex_u32((#[trigger] entries[j]).0@) != Some(inst)) ==> set_marks(
                manifest_marks(entries),
            ).contains_key(inst) && set_marks(manifest_marks(entries))[inst] == entries[i].1,
        (forall|i: int|
            0 <= i < entries.len() ==> hex_u32((#[trigger] entries[i]).0@) != Some(inst))
            ==> !set_marks(manifest_marks(entries)).contains_key(inst),
    decreases entries.len(),
{
    let pred = |e: (String, u64)| hex_u32(e.0@) is Some;
    let mark = |e: (String, u64)| (hex_u32(e.0@)->0, e.1);
    reveal(Seq::filter);
    if entries.len() > 0 {
        let front = entries.drop_last();
        let last = entries.last();
        coverage_is_what_the_manifest_says(front, inst);
        assert forall|i: int| 0 <= i < front.len() implies front[i] == #[trigger] entries[i] by {}
        if pred(last) {
            let kept = front.filter(pred);
            assert(entries.filter(pred) == kept.push(last));
            assert(kept.push(last).map_values(mark) =~= kept.map_values(mark).push(mark(last)));
            assert(manifest_marks(entries).drop_last() =~= manifest_marks(front));
            assert(manifest_marks(entries).last() == mark(last));
        } else {
            assert(manifest_marks(entries) =~= manifest_marks(front));
        }
        assert forall|i: int|
            0 <= i < entries.len() && hex_u32((#[trigger] entries[i]).0@) == Some(inst) && (forall|j: int|
                i < j < entries.len() ==> hex_u32((#[trigger] entries[j]).0@) != Some(inst)) implies set_marks(
            manifest_marks(entries),
        ).contains_key(inst) && set_marks(manifest_marks(entries))[inst] == entries[i].1 by {
            if i < front.len() {
                assert(hex_u32(entries[entries.len() - 1].0@) != Some(inst));
                assert(hex_u32(front[i].0@) == Some(inst));
                assert forall|j: int| i < j < front.len() implies hex_u32((#[trigger] front[j]).0@)
                    != Some(inst) by {
                    assert(front[j] == entries[j]);
                }
            }
        }
        if forall|i: int| 0 <= i < entries.len() ==> hex_u32((#[trigger] entries[i]).0@) != Some(inst) {
            assert(hex_u32(entries[entries.len() - 1].0@) != Some(inst));
            assert forall|i: int| 0 <= i < front.len() implies hex_u32((#[trigger] front[i]).0@) != Some(
                inst,
            ) by {
                assert(front[i] == entries[i]);
            }
        }
    } else {
        assert(manifest_marks(entries) =~= Seq::<(u32, u64)>::empty());
    }
}

/// A snapshot covers what the first family of its name says, though others of the name follow, and
/// nothing when there is no family of its name.
pub proof fn the_first_family_counts(families: Vec<Family>, name: &str, r: Coverage, k: int)
    requires
        call_ensures(family_coverage, (&families, name), r),
    ensures
        0 <= k < families@.len() && families@[k].snapshot_name@ == name@ && (forall|j: int|
            0 <= j < k ==> (#[trigger] families@[j]).snapshot_name@ != name@) ==> r@ == set_marks(
            manifest_marks(families@[k].covered@),
        ),
        (forall|j: int| 0 <= j < families@.len() ==> (#[trigger] families@[j]).snapshot_name@ != name@)
            ==> forall|inst: u32| !#[trigger] r@.contains_key(inst),
{
    if 0 <= k < families@.len() && families@[k].snapshot_name@ == name@ && (forall|j: int|
        0 <= j < k ==> (#[trigger] families@[j]).snapshot_name@ != name@) {
        assert(first_family(families@, name@, k));
    }
}

} // verus!
