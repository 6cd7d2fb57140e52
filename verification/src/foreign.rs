//! Taking in what peer instances have logged.
//!
//! Peers' log segments are read in one phase and applied in another. Reading moves the offsets up
//! to which a segment has been seen, so what was read is kept until it is applied.
use crate::anchors::{indexes, AnchorIndex};
use crate::apply::{folded, folded_append, folded_nothing, folded_one_more, Effect, Model, Projections};
use crate::coverage::{all_noted, merged, Coverage, Provenance};
use crate::hex::{hex8, hex_u32, low_digits, parse_hex};
use crate::json::{json_offsets, json_offsets_text, numbering, offsets_of, offsets_text};
use crate::ops::{InstanceId, Op};
use crate::settle::{carried_out, carry_out, Arithmetic};
use crate::table::Named;
use crate::text::{split, split_on, views};
use vstd::prelude::*;
use vstd::string::*;
use vstd::utf8::*;

verus! {

/// The instance that a segment file belongs to: the hexadecimal number in front of the first
/// underscore of its name, or zero.
pub open spec fn segment_writer(name: Seq<char>) -> u32 {
    let pieces = split_on(name, '_');
    if pieces.len() > 1 {
        match hex_u32(pieces[0]) {
            Some(inst) => inst,
            None => 0,
        }
    } else {
        0
    }
}

pub fn segment_instance(name: &str) -> (r: u32)
    ensures
        r == segment_writer(name@),
{
    let pieces = split(name, '_');
    if pieces.len() > 1 {
        assert(views(pieces@)[0] == pieces@[0]@);
        match parse_hex(pieces[0].as_str()) {
            Some(inst) => inst,
            None => 0,
        }
    } else {
        0
    }
}

/// The name of the file that keeps an instance's offsets.
pub fn seen_offsets_name(instance_id: InstanceId) -> (r: String)
    ensures
        r@ == "seen_offsets."@ + low_digits(instance_id as int, 8) + ".json"@,
{
    let mut name = "seen_offsets.".to_owned();
    name.append(hex8(instance_id).as_str());
    name.append(".json");
    name
}

/// Up to which byte each segment has been read.
pub struct SeenOffsets {
    pub table: Named<u64>,
}

impl SeenOffsets {
    pub open spec fn wf(&self) -> bool {
        self.table.wf()
    }

    /// The offset of a segment that was never read is zero.
    pub open spec fn at(&self, path: Seq<char>) -> u64 {
        if self.table@.contains_key(path) {
            self.table@[path]
        } else {
            0
        }
    }

    pub fn new() -> (r: Self)
        ensures
            r.wf(),
            forall|p: Seq<char>| #[trigger] r.at(p) == 0,
    {
        SeenOffsets { table: Named::new() }
    }

    /// The offsets of an instance that has replayed all segments: their sizes.
    pub fn seeded(sizes: Vec<(String, u64)>) -> (r: Self)
        ensures
            r.wf(),
            forall|k: int|
                0 <= k < sizes@.len() && (forall|j: int|
                    k < j < sizes@.len() ==> (#[trigger] sizes@[j]).0@ != sizes@[k].0@) ==> r.at(
                    (#[trigger] sizes@[k]).0@,
                ) == sizes@[k].1,
            forall|p: Seq<char>|
                (forall|j: int| 0 <= j < sizes@.len() ==> (#[trigger] sizes@[j]).0@ != p)
                    ==> #[trigger] r.at(p) == 0,
    {
        let ghost all = sizes@;
        let mut r = Self::new();
        for entry in it: sizes
            invariant
                it.seq() == all,
                r.wf(),
                forall|k: int|
                    0 <= k < it.index() && (forall|j: int|
                        k < j < it.index() ==> (#[trigger] all[j]).0@ != all[k].0@) ==> r.at(
                        (#[trigger] all[k]).0@,
                    ) == all[k].1,
                forall|p: Seq<char>|
                    (forall|j: int| 0 <= j < it.index() ==> (#[trigger] all[j]).0@ != p)
                        ==> #[trigger] r.at(p) == 0,
        {
            let ghost n = it.index() as int;
            let ghost before = r;
            let (path, size) = entry;
            r.advance(path, size);
            proof {
                assert forall|k: int|
                    0 <= k < n + 1 && (forall|j: int|
                        k < j < n + 1 ==> (#[trigger] all[j]).0@ != all[k].0@) implies r.at(
                    (#[trigger] all[k]).0@,
                ) == all[k].1 by {
                    if k < n {
                        assert(all[n].0@ != all[k].0@);
                    }
                }
                assert forall|p: Seq<char>|
                    (forall|j: int| 0 <= j < n + 1 ==> (#[trigger] all[j]).0@ != p) implies #[trigger] r.at(
                    p,
                ) == 0 by {
                    assert(all[n].0@ != p);
                    assert(before.at(p) == 0);
                }
            }
        }
        r
    }

    pub fn offset_of(&self, path: &str) -> (r: u64)
        requires
            self.wf(),
        ensures
            r == self.at(path@),
    {
        match self.table.get(path) {
            Some(offset) => *offset,
            None => 0,
        }
    }

    pub fn advance(&mut self, path: String, offset: u64)
        requires
            old(self).wf(),
        ensures
            final(self).wf(),
            forall|p: Seq<char>| #[trigger]
                final(self).at(p) == if p == path@ {
                    offset
                } else {
                    old(self).at(p)
                },
    {
        self.table.insert(path, offset);
    }

    /// The offsets that `entries` give, the last one for a path that occurs more than once.
    pub fn given(entries: Vec<(String, u64)>) -> (r: Self)
        ensures
            r.wf(),
            r.table@ == numbering(entries@),
    {
        let ghost all = entries@;
        let mut table: Named<u64> = Named::new();
        assert(all.take(0) =~= Seq::empty());
        for entry in it: entries
            invariant
                it.seq() == all,
                table.wf(),
                table@ == numbering(all.take(it.index() as int)),
        {
            let ghost next = all.take(it.index() + 1);
            let (path, offset) = entry;
            table.insert(path, offset);
            assert(next.drop_last() =~= all.take(it.index() as int));
        }
        assert(all.take(all.len() as int) =~= all);
        SeenOffsets { table }
    }

    /// Reads offsets that were written down; nothing when `text` is no JSON object of numbers.
    pub fn read(text: &str) -> (r: Option<Self>)
        ensures
            r is Some <==> json_offsets(encode_utf8(text@)) is Some,
            r matches Some(s) ==> s.wf() && s.table@ == json_offsets(encode_utf8(text@))->0,
    {
        match offsets_of(text.as_bytes()) {
            Some(entries) => Some(Self::given(entries)),
            None => None,
        }
    }

    /// Writes the offsets down.
    pub fn write(&self) -> (r: String)
        requires
            self.wf(),
        ensures
            r@ == json_offsets_text(self.table@),
            json_offsets(encode_utf8(r@)) == Some(self.table@),
    {
        proof {
            entries_number(self.table);
        }
        offsets_text(&self.table.entries)
    }
}

/// The entries of a table hold what the table does.
proof fn entries_number(table: Named<u64>)
    requires
        table.wf(),
    ensures
        numbering(table.entries@) == table@,
{
    numbered(table.entries@);
    assert forall|k: Seq<char>| #[trigger] numbering(table.entries@).contains_key(k) implies table@.contains_key(k)
        && table@[k] == numbering(table.entries@)[k] by {
        let i = choose|i: int|
            0 <= i < table.entries@.len() && (#[trigger] table.entries@[i]).0@ == k
                && table.entries@[i].1 == numbering(table.entries@)[k];
        table.entry_at(i);
    }
    assert forall|k: Seq<char>| #[trigger] table@.contains_key(k) implies numbering(table.entries@).contains_key(k) by {
        table.key_has_place(k);
    }
    assert(numbering(table.entries@) =~= table@);
}

proof fn numbered(e: Seq<(String, u64)>)
    ensures
        forall|k: Seq<char>| #[trigger]
            numbering(e).contains_key(k) ==> exists|i: int|
                0 <= i < e.len() && (#[trigger] e[i]).0@ == k && e[i].1 == numbering(e)[k],
        forall|i: int| 0 <= i < e.len() ==> numbering(e).contains_key((#[trigger] e[i]).0@),
    decreases e.len(),
{
    if e.len() > 0 {
        let front = e.drop_last();
        numbered(front);
        assert forall|k: Seq<char>| #[trigger] numbering(e).contains_key(k) implies exists|i: int|
            0 <= i < e.len() && (#[trigger] e[i]).0@ == k && e[i].1 == numbering(e)[k] by {
            if k == e.last().0@ {
                assert(e[e.len() - 1].0@ == k);
            } else {
                assert(numbering(front).contains_key(k));
                let i = choose|i: int|
                    0 <= i < front.len() && (#[trigger] front[i]).0@ == k && front[i].1
                        == numbering(front)[k];
                assert(e[i].0@ == k);
            }
        }
        assert forall|i: int| 0 <= i < e.len() implies numbering(e).contains_key((#[trigger] e[i]).0@) by {
            if i < front.len() {
                assert(front[i] == e[i]);
            }
        }
    }
}

/// `text` is what writing `saved` gave, and `loaded` what reading `text` gave.
pub open spec fn saved_and_loaded(saved: SeenOffsets, text: Seq<char>, loaded: Option<SeenOffsets>) -> bool {
    &&& json_offsets(encode_utf8(text)) == Some(saved.table@)
    &&& loaded is Some <==> json_offsets(encode_utf8(text)) is Some
    &&& loaded matches Some(s) ==> s.table@ == json_offsets(encode_utf8(text))->0
}

/// Offsets that were written down and read again are the same for every segment.
pub proof fn offsets_survive(saved: SeenOffsets, text: Seq<char>, loaded: Option<SeenOffsets>)
    requires
        saved_and_loaded(saved, text, loaded),
    ensures
        loaded is Some,
        forall|p: Seq<char>| #[trigger] loaded->0.at(p) == saved.at(p),
{
}

/// What was read of a segment: its file name, and operations with their sequence numbers.
pub struct SegmentRead {
    pub name: String,
    pub records: Vec<(u64, Op)>,
}

/// The operations of a segment with the instance that wrote them.
pub open spec fn segment_ops(seg: SegmentRead) -> Seq<(u32, Op)> {
    seg.records@.map_values(|r: (u64, Op)| (segment_writer(seg.name@), r.1))
}

/// The sequence numbers of a segment with the instance that wrote them.
pub open spec fn segment_marks(seg: SegmentRead) -> Seq<(u32, u64)> {
    seg.records@.map_values(|r: (u64, Op)| (segment_writer(seg.name@), r.0))
}

pub open spec fn all_ops(segs: Seq<SegmentRead>) -> Seq<(u32, Op)>
    decreases segs.len(),
{
    if segs.len() == 0 {
        Seq::empty()
    } else {
        all_ops(segs.drop_last()) + segment_ops(segs.last())
    }
}

pub open spec fn all_marks(segs: Seq<SegmentRead>) -> Seq<(u32, u64)>
    decreases segs.len(),
{
    if segs.len() == 0 {
        Seq::empty()
    } else {
        all_marks(segs.drop_last()) + segment_marks(segs.last())
    }
}

/// Peers' operations that were read and not yet applied, and the numbers they have in their logs.
pub struct PendingForeign {
    pub ops: Vec<(InstanceId, Op)>,
    pub marks: Vec<(InstanceId, u64)>,
}

impl PendingForeign {
    pub fn new() -> (r: Self)
        ensures
            r.ops@ == Seq::<(u32, Op)>::empty(),
            r.marks@ == Seq::<(u32, u64)>::empty(),
    {
        PendingForeign { ops: Vec::new(), marks: Vec::new() }
    }

    /// Keeps what was read, after what is kept already. Returns how many operations are pending.
    pub fn collect(&mut self, segs: Vec<SegmentRead>) -> (pending: usize)
        ensures
            final(self).ops@ == old(self).ops@ + all_ops(segs@),
            final(self).marks@ == old(self).marks@ + all_marks(segs@),
            pending == final(self).ops@.len(),
    {
        let ghost all = segs@;
        let ghost ops0 = self.ops@;
        let ghost marks0 = self.marks@;
        assert(all.take(0) =~= Seq::<SegmentRead>::empty());
        assert(ops0 + Seq::<(u32, Op)>::empty() =~= ops0);
        assert(marks0 + Seq::<(u32, u64)>::empty() =~= marks0);
        for seg in it: segs
            invariant
                it.seq() == all,
                self.ops@ == ops0 + all_ops(all.take(it.index() as int)),
                self.marks@ == marks0 + all_marks(all.take(it.index() as int)),
        {
            let ghost k = it.index() as int;
            let ghost whole = seg;
            let ghost ops1 = self.ops@;
            let ghost marks1 = self.marks@;
            let SegmentRead { name, records } = seg;
            let inst: u32 = segment_instance(name.as_str());
            let ghost recs = records@;
            assert(ops1 + segment_ops(whole).take(0) =~= ops1);
            assert(marks1 + segment_marks(whole).take(0) =~= marks1);
            for rec in it2: records
                invariant
                    it2.seq() == recs,
                    recs == whole.records@,
                    inst == segment_writer(whole.name@),
                    self.ops@ == ops1 + segment_ops(whole).take(it2.index() as int),
                    self.marks@ == marks1 + segment_marks(whole).take(it2.index() as int),
            {
                let ghost j = it2.index() as int;
                let ghost item = rec;
                let (seqno, op) = rec;
                self.marks.push((inst, seqno));
                self.ops.push((inst, op));
                proof {
                    assert(segment_ops(whole)[j] == (inst, item.1));
                    assert(segment_marks(whole)[j] == (inst, item.0));
                    assert(self.ops@ =~= ops1 + segment_ops(whole).take(j + 1));
                    assert(self.marks@ =~= marks1 + segment_marks(whole).take(j + 1));
                }
            }
            proof {
                assert(segment_ops(whole).take(recs.len() as int) =~= segment_ops(whole));
                assert(segment_marks(whole).take(recs.len() as int) =~= segment_marks(whole));
                let more = all.take(k + 1);
                assert(more.drop_last() =~= all.take(k));
                assert(more.last() == whole);
                assert(self.ops@ =~= ops0 + all_ops(more));
                assert(self.marks@ =~= marks0 + all_marks(more));
            }
        }
        assert(all.take(all.len() as int) =~= all);
        self.ops.len()
    }

    /// Hands out everything that is pending, if there is anything.
    pub fn take(&mut self) -> (r: Option<PendingForeign>)
        ensures
            old(self).ops@.len() == 0 ==> r is None && *final(self) == *old(self),
            old(self).ops@.len() > 0 ==> {
                &&& r == Some(*old(self))
                &&& final(self).ops@.len() == 0
                &&& final(self).marks@.len() == 0
            },
    {
        if self.ops.len() == 0 {
            return None;
        }
        let mut batch = PendingForeign::new();
        core::mem::swap(&mut batch.ops, &mut self.ops);
        core::mem::swap(&mut batch.marks, &mut self.marks);
        Some(batch)
    }
}

/// Applies one operation of a peer and returns what it asks of the indexes and organs.
pub fn apply_foreign<A: Arithmetic>(
    inst: InstanceId,
    op: Op,
    ctx: &mut Projections,
    provenance: &mut Provenance,
    a: &A,
) -> (asked: Vec<Effect>)
    requires
        old(ctx).wf(),
    ensures
        final(ctx).wf(),
        carried_out(a, old(ctx)@, final(ctx)@, op, asked@),
        final(provenance)@ == match op {
            Op::RecordRecallBatch(b) => all_noted(old(provenance)@, b.memory_ids@, inst),
            _ => old(provenance)@,
        },
{
    match &op {
        Op::RecordRecallBatch(b) => {
            provenance.note_all(&b.memory_ids, inst);
        },
        _ => {},
    }
    carry_out(op, ctx, a)
}

/// A store to which peers' operations are applied: what it holds, what it asks of the indexes and
/// organs, and who recalled what.
pub ghost struct Intake {
    pub model: Model,
    pub asked: Seq<Effect>,
    pub provenance: Map<u64, Set<u32>>,
}

/// One operation of a peer was applied.
pub open spec fn taken_in<A: Arithmetic>(a: &A, before: Intake, after: Intake, item: (InstanceId, Op)) -> bool {
    &&& exists|part: Seq<Effect>| #[trigger]
        carried_out(a, before.model, after.model, item.1, part) && after.asked == before.asked + part
    &&& after.provenance == match item.1 {
        Op::RecordRecallBatch(b) => all_noted(before.provenance, b.memory_ids@, item.0),
        _ => before.provenance,
    }
}

pub open spec fn intake_step<A: Arithmetic>(a: &A) -> spec_fn(Intake, Intake, (InstanceId, Op)) -> bool {
    |before: Intake, after: Intake, item: (InstanceId, Op)| taken_in(a, before, after, item)
}

/// What comes of applying what was pending.
pub struct Applied {
    /// How many operations were applied.
    pub count: usize,
    /// What they ask of the indexes and organs, in order.
    pub asked: Vec<Effect>,
    /// The anchors of the memories as they are now.
    pub anchors: AnchorIndex,
}

/// Applies everything that is pending, in the order in which it was read, and covers it. Nothing
/// happens when nothing is pending.
pub fn sync_foreign_apply<A: Arithmetic>(
    pending: &mut PendingForeign,
    ctx: &mut Projections,
    provenance: &mut Provenance,
    coverage: &mut Coverage,
    a: &A,
) -> (r: Option<Applied>)
    requires
        old(ctx).wf(),
    ensures
        final(ctx).wf(),
        final(pending).ops@.len() == 0,
        r is Some <==> old(pending).ops@.len() > 0,
        r is None ==> {
            &&& final(ctx)@ == old(ctx)@
            &&& final(provenance)@ == old(provenance)@
            &&& final(coverage)@ == old(coverage)@
        },
        r matches Some(done) ==> {
            &&& done.count == old(pending).ops@.len()
            &&& folded(
                Intake { model: old(ctx)@, asked: Seq::empty(), provenance: old(provenance)@ },
                Intake { model: final(ctx)@, asked: done.asked@, provenance: final(provenance)@ },
                old(pending).ops@,
                intake_step(a),
            )
            &&& final(coverage)@ == merged(old(coverage)@, old(pending).marks@)
            &&& indexes(done.anchors.entries@, final(ctx)@.payloads)
        },
{
    let batch = match pending.take() {
        None => {
            return None;
        },
        Some(batch) => batch,
    };
    let ghost start = Intake { model: ctx@, asked: Seq::empty(), provenance: provenance@ };
    let count: usize = batch.ops.len();
    let PendingForeign { ops, marks } = batch;
    let ghost all = ops@;
    let mut asked: Vec<Effect> = Vec::new();
    proof {
        folded_nothing(start, intake_step(a));
        assert(all.take(0) =~= Seq::<(InstanceId, Op)>::empty());
    }
    for item in it: ops
        invariant
            it.seq() == all,
            ctx.wf(),
            folded(
                start,
                Intake { model: ctx@, asked: asked@, provenance: provenance@ },
                all.take(it.index() as int),
                intake_step(a),
            ),
    {
        let ghost k = it.index() as int;
        let ghost mid = Intake { model: ctx@, asked: asked@, provenance: provenance@ };
        let ghost whole = item;
        let (inst, op) = item;
        let mut part = apply_foreign(inst, op, ctx, provenance, a);
        let ghost more = part@;
        asked.append(&mut part);
        proof {
            let after = Intake { model: ctx@, asked: asked@, provenance: provenance@ };
            assert(carried_out(a, mid.model, after.model, whole.1, more) && after.asked == mid.asked
                + more);
            assert(taken_in(a, mid, after, whole));
            folded_one_more(start, mid, after, all.take(k), whole, intake_step(a));
            assert(all.take(k + 1) =~= all.take(k).push(all[k]));
        }
    }
    assert(all.take(all.len() as int) =~= all);
    cover_applied(coverage, &marks);
    Some(Applied { count, asked, anchors: AnchorIndex::rebuild(&ctx.payloads) })
}

/// What was read of a segment from where it had been seen, and where the reading ended.
pub struct ForeignRead {
    pub path: String,
    pub seg: SegmentRead,
    pub end: u64,
}

/// The segments of the first `n` reads.
pub open spec fn segs_of(reads: Seq<ForeignRead>) -> Seq<SegmentRead> {
    reads.map_values(|r: ForeignRead| r.seg)
}

/// Up to where a segment has been seen after the first `n` reads.
pub open spec fn seen_after(before: u64, reads: Seq<ForeignRead>, path: Seq<char>, n: int) -> u64
    decreases n,
{
    if n <= 0 {
        before
    } else if reads[n - 1].path@ == path {
        reads[n - 1].end
    } else {
        seen_after(before, reads, path, n - 1)
    }
}

/// Takes in what was read: it is pending from now on, and will not be read again. Returns how many
/// operations are pending.
pub fn sync_foreign_collect(seen: &mut SeenOffsets, pending: &mut PendingForeign, reads: Vec<ForeignRead>) -> (n:
    usize)
    requires
        old(seen).wf(),
    ensures
        final(seen).wf(),
        forall|p: Seq<char>| #[trigger]
            final(seen).at(p) == seen_after(old(seen).at(p), reads@, p, reads@.len() as int),
        final(pending).ops@ == old(pending).ops@ + all_ops(segs_of(reads@)),
        final(pending).marks@ == old(pending).marks@ + all_marks(segs_of(reads@)),
        n == final(pending).ops@.len(),
{
    let ghost all = reads@;
    let ghost first = *seen;
    let mut segs: Vec<SegmentRead> = Vec::new();
    assert(segs@ =~= segs_of(all.take(0)));
    for read in it: reads
        invariant
            it.seq() == all,
            seen.wf(),
            segs@ == segs_of(all.take(it.index() as int)),
            forall|p: Seq<char>| #[trigger]
                seen.at(p) == seen_after(first.at(p), all, p, it.index() as int),
    {
        let ghost k = it.index() as int;
        let ForeignRead { path, seg, end } = read;
        seen.advance(path, end);
        segs.push(seg);
        assert(segs@ =~= segs_of(all.take(k + 1)));
    }
    assert(all.take(all.len() as int) =~= all);
    pending.collect(segs)
}

/// Extends the coverage by a batch that has been applied.
pub fn cover_applied(coverage: &mut Coverage, marks: &Vec<(InstanceId, u64)>)
    ensures
        final(coverage)@ == merged(old(coverage)@, marks@),
{
    coverage.merge(marks);
}

/// Reading in two goes keeps the same operations as reading at once.
pub proof fn reading_adds_up(first: Seq<SegmentRead>, second: Seq<SegmentRead>)
    ensures
        all_ops(first + second) == all_ops(first) + all_ops(second),
        all_marks(first + second) == all_marks(first) + all_marks(second),
    decreases second.len(),
{
    if second.len() == 0 {
        assert(first + second =~= first);
        assert(all_ops(first) + all_ops(second) =~= all_ops(first));
        assert(all_marks(first) + all_marks(second) =~= all_marks(first));
    } else {
        let both = first + second;
        assert(both.drop_last() =~= first + second.drop_last());
        assert(both.last() == second.last());
        reading_adds_up(first, second.drop_last());
        assert(all_ops(both) =~= all_ops(first) + all_ops(second));
        assert(all_marks(both) =~= all_marks(first) + all_marks(second));
    }
}

/// Applying what is pending in two batches is applying it in one.
pub proof fn batches_add_up<A: Arithmetic>(
    a: &A,
    before: Intake,
    mid: Intake,
    after: Intake,
    first: Seq<(InstanceId, Op)>,
    second: Seq<(InstanceId, Op)>,
)
    requires
        folded(before, mid, first, intake_step(a)),
        folded(mid, after, second, intake_step(a)),
    ensures
        folded(before, after, first + second, intake_step(a)),
{
    folded_append(before, mid, after, first, second, intake_step(a));
}

/// A read that finds nothing new keeps everything that is pending.
pub proof fn empty_reads_lose_nothing(pending: Seq<(u32, Op)>)
    ensures
        pending + all_ops(Seq::<SegmentRead>::empty()) == pending,
{
    assert(pending + all_ops(Seq::<SegmentRead>::empty()) =~= pending);
}

/// The operation and the mark at place `k` are those of one record, with its writer.
pub open spec fn of_one_record(segs: Seq<SegmentRead>, k: int) -> bool {
    exists|s: int, r: int|
        #![trigger segs[s].records@[r]]
        0 <= s < segs.len() && 0 <= r < segs[s].records@.len() && all_ops(segs)[k] == (
            segment_writer(segs[s].name@),
            segs[s].records@[r].1,
        ) && all_marks(segs)[k] == (segment_writer(segs[s].name@), segs[s].records@[r].0)
}

/// Every record of every segment that was read becomes pending, with the instance that wrote it and
/// the number that it has there; nothing else does.
pub proof fn every_record_becomes_pending(segs: Seq<SegmentRead>)
    ensures
        all_ops(segs).len() == all_marks(segs).len(),
        forall|s: int, r: int|
            #![trigger segs[s].records@[r]]
            0 <= s < segs.len() && 0 <= r < segs[s].records@.len() ==> all_ops(segs).contains(
                (segment_writer(segs[s].name@), segs[s].records@[r].1),
            ) && all_marks(segs).contains((segment_writer(segs[s].name@), segs[s].records@[r].0)),
        forall|k: int| 0 <= k < all_ops(segs).len() ==> #[trigger] of_one_record(segs, k),
    decreases segs.len(),
{
    if segs.len() > 0 {
        let front = segs.drop_last();
        let last = segs.last();
        let n = all_ops(front).len() as int;
        every_record_becomes_pending(front);
        assert forall|s: int, r: int|
            #![trigger segs[s].records@[r]]
            0 <= s < segs.len() && 0 <= r < segs[s].records@.len() implies all_ops(segs).contains(
            (segment_writer(segs[s].name@), segs[s].records@[r].1),
        ) && all_marks(segs).contains((segment_writer(segs[s].name@), segs[s].records@[r].0)) by {
            let op = (segment_writer(segs[s].name@), segs[s].records@[r].1);
            let mark = (segment_writer(segs[s].name@), segs[s].records@[r].0);
            if s < front.len() {
                assert(front[s].records@[r] == segs[s].records@[r]);
                let k = choose|k: int| 0 <= k < all_ops(front).len() && all_ops(front)[k] == op;
                assert(all_ops(segs)[k] == op);
                let l = choose|l: int| 0 <= l < all_marks(front).len() && all_marks(front)[l] == mark;
                assert(all_marks(segs)[l] == mark);
            } else {
                assert(all_ops(segs)[n + r] == op);
                assert(all_marks(segs)[n + r] == mark);
            }
        }
        assert forall|k: int| 0 <= k < all_ops(segs).len() implies #[trigger] of_one_record(segs, k) by {
            if k < n {
                assert(of_one_record(front, k));
                let (s, r) = choose|s: int, r: int|
                    #![trigger front[s].records@[r]]
                    0 <= s < front.len() && 0 <= r < front[s].records@.len() && all_ops(front)[k] == (
                        segment_writer(front[s].name@),
                        front[s].records@[r].1,
                    ) && all_marks(front)[k] == (segment_writer(front[s].name@), front[s].records@[r].0);
                assert(segs[s].records@[r] == front[s].records@[r]);
            } else {
                let s = segs.len() - 1;
                assert(segs[s].records@[k - n] == last.records@[k - n]);
            }
        }
    }
}

/// The latest read of a segment says up to where it has been seen; a segment that was not read is
/// where it was.
pub proof fn latest_read_counts(before: u64, reads: Seq<ForeignRead>, path: Seq<char>, n: int)
    requires
        0 <= n <= reads.len(),
    ensures
        forall|i: int|
            0 <= i < n && (#[trigger] reads[i]).path@ == path && (forall|j: int|
                i < j < n ==> (#[trigger] reads[j]).path@ != path) ==> seen_after(before, reads, path, n)
                == reads[i].end,
        (forall|i: int| 0 <= i < n ==> (#[trigger] reads[i]).path@ != path) ==> seen_after(
            before,
            reads,
            path,
            n,
        ) == before,
    decreases n,
{
    if n > 0 {
        latest_read_counts(before, reads, path, n - 1);
        assert forall|i: int|
            0 <= i < n && (#[trigger] reads[i]).path@ == path && (forall|j: int|
                i < j < n ==> (#[trigger] reads[j]).path@ != path) implies seen_after(
            before,
            reads,
            path,
            n,
        ) == reads[i].end by {
            if i < n - 1 {
                assert(reads[n - 1].path@ != path);
            }
        }
    }
}

/// A segment named after an instance, in eight hexadecimal digits and an underscore, was written by
/// that instance.
pub proof fn segments_are_named_after_their_writer(inst: u32, rest: Seq<char>)
    ensures
        segment_writer(low_digits(inst as int, 8).push('_') + rest) == inst,
        forall|name: Seq<char>|
            (forall|i: int| 0 <= i < name.len() ==> name[i] != '_') ==> #[trigger] segment_writer(name) == 0,
{
    let digits = low_digits(inst as int, 8);
    crate::hex::hex_round_trip(inst);
    crate::hex::low_digits_are_digits(inst as int, 8);
    crate::text::splitting_goes_part_by_part(digits, rest, '_');
    assert forall|i: int| 0 <= i < digits.len() implies digits[i] != '_' by {
        assert('0' <= digits[i] <= '9' || 'a' <= digits[i] <= 'f');
    }
    crate::text::whole_texts_are_one_piece(digits, '_');
    crate::text::split_is_not_empty(rest, '_');
    assert forall|name: Seq<char>| (forall|i: int| 0 <= i < name.len() ==> name[i] != '_') implies #[trigger] segment_writer(
    name) == 0 by {
        crate::text::whole_texts_are_one_piece(name, '_');
    }
}

/// A peer's recall is noted under the peer, for the memories that it recalled, and only then.
pub proof fn peers_recalls_are_noted<A: Arithmetic>(
    a: &A,
    before: Intake,
    after: Intake,
    inst: InstanceId,
    op: Op,
    id: u64,
)
    requires
        taken_in(a, before, after, (inst, op)),
        crate::coverage::bounded(before.provenance),
    ensures
        op matches Op::RecordRecallBatch(b) ==> (b.memory_ids@.contains(id)
            && crate::coverage::recallers(before.provenance, id).len() < 8
            ==> crate::coverage::recallers(after.provenance, id).contains(inst)),
        !(op is RecordRecallBatch) ==> after.provenance == before.provenance,
        before.asked.is_prefix_of(after.asked),
{
    if op is RecordRecallBatch {
        crate::coverage::recallers_are_noted(
            before.provenance,
            op->RecordRecallBatch_0.memory_ids@,
            inst,
            id,
        );
    }
    let part = choose|part: Seq<Effect>| #[trigger]
        carried_out(a, before.model, after.model, op, part) && after.asked == before.asked + part;
    assert(after.asked.subrange(0, before.asked.len() as int) =~= before.asked);
}

/// The operations of a segment, and their numbers, go by the instance that the name of the segment
/// gives.
pub proof fn operations_go_by_the_name_of_their_segment(seg: SegmentRead, inst: u32, i: int)
    requires
        segment_writer(seg.name@) == inst,
        0 <= i < seg.records@.len(),
    ensures
        segment_ops(seg)[i] == (inst, seg.records@[i].1),
        segment_marks(seg)[i] == (inst, seg.records@[i].0),
        segment_ops(seg).len() == seg.records@.len(),
        segment_marks(seg).len() == seg.records@.len(),
{
}

} // verus!
