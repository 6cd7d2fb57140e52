//! Choosing the snapshot to load, and telling which snapshot files may go.
use crate::error::FieldError;
use crate::memory::{MemoryPayload, MemoryState};
use crate::order::{lists, sort_order, sorts_before, sorts_range, Ranked};
use crate::seqs::filter_members;
use crate::table::{key_list, lists_keys};
use crate::text::{
    begins, contains_text, ends, ends_with, holds_text, split, split_on, splitting_goes_part_by_part,
    starts_with, str_eq, views, whole_texts_are_one_piece,
};
use std::collections::BTreeMap;
use vstd::prelude::*;
use vstd::string::*;

verus! {

/// `name` is a file name of a full snapshot.
pub open spec fn snapshot_name(name: Seq<char>) -> bool {
    begins(name, "chitta."@) && ends(name, ".snapshot"@)
}

pub fn is_snapshot_name(name: &str) -> (r: bool)
    ensures
        r == snapshot_name(name@),
{
    starts_with(name, "chitta.") && ends_with(name, ".snapshot")
}

/// `name` is a file name of a cortical snapshot.
pub open spec fn cortex_name(name: Seq<char>) -> bool {
    begins(name, "cortex."@) && ends(name, ".snapshot"@)
}

pub fn is_cortex_name(name: &str) -> (r: bool)
    ensures
        r == cortex_name(name@),
{
    starts_with(name, "cortex.") && ends_with(name, ".snapshot")
}

/// A snapshot file, with the sequence number in its header if that can be read.
pub struct SnapshotFile {
    pub path: String,
    pub seqno: Option<u64>,
}

/// The best snapshot among some files, and all others in the order in which they were passed over.
pub struct Scan {
    pub best: Option<usize>,
    pub seqno: u64,
    pub stale: Vec<usize>,
}

/// The place of the best of the first `n` files.
pub open spec fn best_of(files: Seq<SnapshotFile>, n: int) -> Option<int>
    decreases n,
{
    if n <= 0 {
        None
    } else {
        let before = best_of(files, n - 1);
        if files[n - 1].seqno is Some && files[n - 1].seqno->0 > seqno_at(files, before) {
            Some(n - 1)
        } else {
            before
        }
    }
}

/// The sequence number to beat.
pub open spec fn seqno_at(files: Seq<SnapshotFile>, best: Option<int>) -> u64 {
    match best {
        Some(i) => files[i].seqno->0,
        None => 0,
    }
}

/// The places that are not the best of the first `n` files, in the order in which they lost.
pub open spec fn losers(files: Seq<SnapshotFile>, n: int) -> Seq<usize>
    decreases n,
{
    if n <= 0 {
        Seq::empty()
    } else if best_of(files, n) != Some(n - 1) {
        losers(files, n - 1).push((n - 1) as usize)
    } else {
        match best_of(files, n - 1) {
            Some(i) => losers(files, n - 1).push(i as usize),
            None => losers(files, n - 1),
        }
    }
}

proof fn best_of_is_readable(files: Seq<SnapshotFile>, n: int)
    requires
        0 <= n <= files.len(),
    ensures
        best_of(files, n) matches Some(i) ==> 0 <= i < n && files[i].seqno is Some && files[i].seqno->0
            > 0,
    decreases n,
{
    if n > 0 {
        best_of_is_readable(files, n - 1);
    }
}

/// The best snapshot has the highest sequence number, is the first that has it, and is missing
/// only when no file has a sequence number above zero.
pub proof fn best_is_highest(files: Seq<SnapshotFile>, n: int)
    requires
        0 <= n <= files.len(),
    ensures
        forall|j: int|
            0 <= j < n && (#[trigger] files[j]).seqno is Some ==> files[j].seqno->0 <= seqno_at(
                files,
                best_of(files, n),
            ),
        best_of(files, n) matches Some(i) ==> {
            &&& 0 <= i < n
            &&& files[i].seqno is Some
            &&& forall|j: int|
                0 <= j < i && (#[trigger] files[j]).seqno is Some ==> files[j].seqno->0 < files[i].seqno->0
        },
        best_of(files, n) is None ==> forall|j: int|
            0 <= j < n && (#[trigger] files[j]).seqno is Some ==> files[j].seqno->0 == 0,
    decreases n,
{
    if n > 0 {
        best_is_highest(files, n - 1);
        best_of_is_readable(files, n - 1);
    }
}

/// Every file is either the best or a loser.
pub proof fn every_file_is_sorted_out(files: Seq<SnapshotFile>, n: int, j: int)
    requires
        0 <= j < n <= files.len(),
        n <= usize::MAX,
    ensures
        best_of(files, n) == Some(j) || losers(files, n).contains(j as usize),
    decreases n,
{
    best_of_is_readable(files, n);
    best_of_is_readable(files, n - 1);
    let l = losers(files, n);
    let before = losers(files, n - 1);
    if j < n - 1 {
        every_file_is_sorted_out(files, n - 1, j);
        if before.contains(j as usize) {
            let k = choose|k: int| 0 <= k < before.len() && before[k] == j as usize;
            assert(l[k] == j as usize);
        } else if best_of(files, n) == Some(n - 1) {
            assert(best_of(files, n - 1) == Some(j));
            assert(l[before.len() as int] == j as usize);
        }
    } else if best_of(files, n) != Some(n - 1) {
        assert(l[before.len() as int] == j as usize);
    }
}

/// Finds the best snapshot.
pub fn scan_snapshots(files: &Vec<SnapshotFile>) -> (r: Scan)
    ensures
        match r.best {
            Some(i) => best_of(files@, files@.len() as int) == Some(i as int),
            None => best_of(files@, files@.len() as int) is None,
        },
        r.seqno == seqno_at(files@, best_of(files@, files@.len() as int)),
        r.stale@ == losers(files@, files@.len() as int),
        forall|k: int| 0 <= k < r.stale@.len() ==> #[trigger] r.stale@[k] < files@.len(),
{
    let mut best: Option<usize> = None;
    let mut top: u64 = 0;
    let mut stale: Vec<usize> = Vec::new();
    let n: usize = files.len();
    let mut i: usize = 0;
    while i < n
        invariant
            n == files.len(),
            i <= n,
            match best {
                Some(b) => best_of(files@, i as int) == Some(b as int) && b < i,
                None => best_of(files@, i as int) is None,
            },
            top == seqno_at(files@, best_of(files@, i as int)),
            stale@ == losers(files@, i as int),
            forall|k: int| 0 <= k < stale@.len() ==> #[trigger] stale@[k] < i,
        decreases n - i,
    {
        match files[i].seqno {
            Some(seqno) if seqno > top => {
                match best {
                    Some(prev) => {
                        stale.push(prev);
                    },
                    None => {},
                }
                best = Some(i);
                top = seqno;
            },
            _ => {
                stale.push(i);
            },
        }
        i = i + 1;
    }
    Scan { best, seqno: top, stale }
}

/// A place among the files, ordered by falling sequence number.
#[derive(Clone, Copy)]
pub struct Aged {
    pub seqno: u64,
    pub place: usize,
}

impl Ranked for Aged {
    open spec fn ahead(&self, other: &Self) -> bool {
        self.seqno > other.seqno
    }

    proof fn ahead_asymmetric(a: &Self, b: &Self) {
    }

    proof fn ahead_transitive(a: &Self, b: &Self, c: &Self) {
    }

    proof fn tie_transitive(a: &Self, b: &Self, c: &Self) {
    }

    fn is_ahead(&self, other: &Self) -> (r: bool) {
        self.seqno > other.seqno
    }
}

/// The readable ones of the places `places`.
pub open spec fn readable(files: Seq<SnapshotFile>, places: Seq<usize>) -> Seq<Aged> {
    places.filter(|p: usize| files[p as int].seqno is Some).map_values(
        |p: usize| Aged { seqno: files[p as int].seqno->0, place: p },
    )
}

/// `out` lists the readable ones of `places`, highest sequence number first.
pub open spec fn newest_first(files: Seq<SnapshotFile>, places: Seq<usize>, out: Seq<usize>) -> bool {
    let all = readable(files, places);
    exists|p: Seq<usize>|
        {
            &&& #[trigger] sorts_range(p, all, 0, all.len() as int)
            &&& out.len() == all.len()
            &&& forall|i: int| 0 <= i < out.len() ==> #[trigger] out[i] == all[p[i] as int].place
        }
}

fn readable_places(files: &Vec<SnapshotFile>, places: &Vec<usize>) -> (r: Vec<Aged>)
    requires
        forall|k: int| 0 <= k < places@.len() ==> #[trigger] places@[k] < files@.len(),
    ensures
        r@ == readable(files@, places@),
        forall|k: int| 0 <= k < r@.len() ==> (#[trigger] r@[k]).place < files@.len(),
{
    let ghost pred = |p: usize| files@[p as int].seqno is Some;
    let ghost aged = |p: usize| Aged { seqno: files@[p as int].seqno->0, place: p };
    let mut out: Vec<Aged> = Vec::new();
    let n: usize = places.len();
    let mut i: usize = 0;
    proof {
        crate::seqs::filter_ends(places@, pred);
        assert(places@.take(0).filter(pred).map_values(aged) =~= Seq::<Aged>::empty());
    }
    while i < n
        invariant
            n == places.len(),
            i <= n,
            forall|k: int| 0 <= k < places@.len() ==> #[trigger] places@[k] < files@.len(),
            pred == (|p: usize| files@[p as int].seqno is Some),
            aged == (|p: usize| Aged { seqno: files@[p as int].seqno->0, place: p }),
            out@ == places@.take(i as int).filter(pred).map_values(aged),
            forall|k: int| 0 <= k < out@.len() ==> (#[trigger] out@[k]).place < files@.len(),
        decreases n - i,
    {
        proof {
            crate::seqs::filter_step(places@, pred, i as int);
        }
        let place: usize = places[i];
        let ghost kept = places@.take(i as int).filter(pred);
        match files[place].seqno {
            Some(seqno) => {
                out.push(Aged { seqno, place });
                assert(kept.push(place).map_values(aged) =~= kept.map_values(aged).push(aged(place)));
            },
            None => {},
        }
        i = i + 1;
    }
    out
}

/// The readable ones of some places, highest sequence number first.
pub fn sort_newest_first(files: &Vec<SnapshotFile>, places: &Vec<usize>) -> (out: Vec<usize>)
    requires
        forall|k: int| 0 <= k < places@.len() ==> #[trigger] places@[k] < files@.len(),
    ensures
        newest_first(files@, places@, out@),
        forall|k: int| 0 <= k < out@.len() ==> #[trigger] out@[k] < files@.len(),
{
    let all = readable_places(files, places);
    let p = sort_order(&all);
    let mut out: Vec<usize> = Vec::new();
    let n: usize = p.len();
    let mut i: usize = 0;
    while i < n
        invariant
            n == p.len(),
            i <= n,
            sorts_range(p@, all@, 0, all@.len() as int),
            forall|k: int| 0 <= k < all@.len() ==> (#[trigger] all@[k]).place < files@.len(),
            out.len() == i,
            forall|k: int| 0 <= k < i ==> #[trigger] out@[k] == all@[p@[k] as int].place,
            forall|k: int| 0 <= k < i ==> #[trigger] out@[k] < files@.len(),
        decreases n - i,
    {
        out.push(all[p[i]].place);
        i = i + 1;
    }
    assert(sorts_range(p@, readable(files@, places@), 0, readable(files@, places@).len() as int));
    out
}

/// The paths at some places.
pub open spec fn paths_at(files: Seq<SnapshotFile>, places: Seq<usize>) -> Seq<Seq<char>> {
    places.map_values(|p: usize| files[p as int].path@)
}

/// Tells the paths other than `path`.
pub open spec fn other_than(path: Seq<char>) -> spec_fn(Seq<char>) -> bool {
    |p: Seq<char>| p != path
}

/// The order in which snapshots are tried: the best first, then the others by falling sequence
/// number. A snapshot that a manifest has committed comes before all of them.
pub open spec fn tried(
    files: Seq<SnapshotFile>,
    others: Seq<usize>,
    committed: Option<Seq<char>>,
) -> Seq<Seq<char>> {
    let best = best_of(files, files.len() as int);
    let rest = match best {
        Some(i) => seq![files[i].path@] + paths_at(files, others),
        None => paths_at(files, others),
    };
    match committed {
        Some(path) => seq![path] + rest.filter(other_than(path)),
        None => rest,
    }
}

/// The snapshots to try, in order.
pub fn candidates(files: &Vec<SnapshotFile>, committed: Option<String>) -> (r: Vec<String>)
    ensures
        exists|others: Seq<usize>|
            {
                &&& #[trigger] newest_first(files@, losers(files@, files@.len() as int), others)
                &&& views(r@) == tried(
                    files@,
                    others,
                    match committed {
                        Some(p) => Some(p@),
                        None => None,
                    },
                )
            },
{
    let scan = scan_snapshots(files);
    let others = sort_newest_first(files, &scan.stale);
    let mut rest: Vec<String> = Vec::new();
    match scan.best {
        Some(i) => {
            proof {
                best_of_is_readable(files@, files@.len() as int);
            }
            rest.push(files[i].path.clone());
        },
        None => {},
    }
    let ghost head = views(rest@);
    let n: usize = others.len();
    let mut k: usize = 0;
    assert(views(rest@) =~= head + paths_at(files@, others@.take(0)));
    while k < n
        invariant
            n == others.len(),
            k <= n,
            forall|j: int| 0 <= j < others@.len() ==> #[trigger] others@[j] < files@.len(),
            views(rest@) == head + paths_at(files@, others@.take(k as int)),
        decreases n - k,
    {
        let ghost was = rest@;
        let path = files[others[k]].path.clone();
        rest.push(path);
        proof {
            crate::text::views_push(was, path);
            assert(paths_at(files@, others@.take(k + 1)) =~= paths_at(files@, others@.take(k as int)).push(
                path@,
            ));
            assert(views(rest@) =~= head + paths_at(files@, others@.take(k + 1)));
        }
        k = k + 1;
    }
    assert(others@.take(n as int) =~= others@);
    let ghost all = match best_of(files@, files@.len() as int) {
        Some(i) => seq![files@[i].path@] + paths_at(files@, others@),
        None => paths_at(files@, others@),
    };
    assert(views(rest@) =~= all);
    match committed {
        None => rest,
        Some(path) => {
            let ghost other = other_than(path@);
            let mut out: Vec<String> = Vec::new();
            out.push(path.clone());
            let m: usize = rest.len();
            let mut i: usize = 0;
            proof {
                crate::seqs::filter_ends(all, other);
                assert(views(out@) =~= seq![path@] + all.take(0).filter(other));
            }
            while i < m
                invariant
                    m == rest.len(),
                    m == all.len(),
                    i <= m,
                    views(rest@) == all,
                    other == other_than(path@),
                    views(out@) == seq![path@] + all.take(i as int).filter(other),
                decreases m - i,
            {
                proof {
                    crate::seqs::filter_step(all, other, i as int);
                    assert(views(rest@)[i as int] == rest@[i as int]@);
                }
                if !str_eq(rest[i].as_str(), path.as_str()) {
                    let ghost was = out@;
                    let copy = rest[i].clone();
                    out.push(copy);
                    proof {
                        crate::text::views_push(was, copy);
                        assert(views(out@) =~= seq![path@] + all.take(i + 1).filter(other));
                    }
                }
                i = i + 1;
            }
            proof {
                assert(all.take(m as int) =~= all);
                assert(newest_first(files@, losers(files@, files@.len() as int), others@));
                assert(views(out@) =~= tried(files@, others@, Some(path@)));
            }
            out
        },
    }
}

/// The newest of the places in `order` stays as a backup; the rest may be deleted.
pub open spec fn surplus(order: Seq<usize>) -> Seq<usize> {
    if order.len() == 0 {
        order
    } else {
        order.subrange(1, order.len() as int)
    }
}

/// The stale snapshots that may be deleted: all readable ones but the newest.
pub fn surplus_snapshots(files: &Vec<SnapshotFile>) -> (r: Vec<usize>)
    ensures
        exists|order: Seq<usize>| #[trigger]
            newest_first(files@, losers(files@, files@.len() as int), order) && r@ == surplus(order),
        forall|k: int| 0 <= k < r@.len() ==> #[trigger] r@[k] < files@.len(),
{
    let scan = scan_snapshots(files);
    let mut order = sort_newest_first(files, &scan.stale);
    let ghost all = order@;
    if order.len() > 0 {
        order.remove(0);
        assert(order@ =~= all.subrange(1, all.len() as int));
    }
    order
}

/// The best snapshot is never among those that may be deleted.
pub proof fn best_is_kept(files: Seq<SnapshotFile>, i: int)
    requires
        best_of(files, files.len() as int) == Some(i),
        files.len() <= usize::MAX,
    ensures
        !losers(files, files.len() as int).contains(i as usize),
{
    best_of_is_readable(files, files.len() as int);
    losers_exclude_best(files, files.len() as int, i);
}

proof fn losers_exclude_best(files: Seq<SnapshotFile>, n: int, i: int)
    requires
        0 <= n <= files.len(),
        files.len() <= usize::MAX,
        best_of(files, n) == Some(i) || i >= n,
        0 <= i < files.len(),
    ensures
        !losers(files, n).contains(i as usize),
    decreases n,
{
    if n > 0 {
        best_of_is_readable(files, n);
        best_of_is_readable(files, n - 1);
        losers_exclude_best(files, n - 1, i);
        let l = losers(files, n);
        let before = losers(files, n - 1);
        if l.contains(i as usize) {
            let k = choose|k: int| 0 <= k < l.len() && l[k] == i as usize;
            if k < before.len() {
                assert(before[k] == i as usize);
            }
        }
    }
}

/// What is known of a snapshot that was read.
pub struct SnapshotFacts {
    /// The content sidecar was read.
    pub contents_loaded: bool,
    /// There are payloads and none has content.
    pub stripped: bool,
    /// Payloads that were written with an embedding.
    pub embedded: usize,
    /// Those of them whose embedding has the compiled length.
    pub matching: usize,
    pub header: Option<HeaderFacts>,
}

/// What the identity header of a snapshot says.
#[derive(Clone, Copy, Debug)]
pub struct HeaderFacts {
    pub embed_dim: u32,
    /// The header names the compiled vector space.
    pub matches_compiled: bool,
}

/// What to do with a snapshot.
#[derive(Debug, PartialEq, Eq, Structural)]
pub enum Verdict {
    /// Load it and carry on its lineage.
    Adopt,
    /// Load it and begin a new lineage.
    Accept,
    /// Its content is gone.
    RefuseStripped,
    /// All its embeddings have another length.
    RefuseDimension,
    /// It belongs to another vector space.
    RefuseSpace,
}

/// How a snapshot is judged. `migrate` accepts foreign embeddings to be computed anew, `reindex`
/// accepts a foreign vector space.
pub open spec fn verdict(f: SnapshotFacts, embed_dim: u32, migrate: bool, reindex: bool) -> Verdict {
    if !f.contents_loaded && f.stripped {
        Verdict::RefuseStripped
    } else if f.embedded > 0 && f.matching == 0 && !migrate {
        Verdict::RefuseDimension
    } else {
        match f.header {
            None => Verdict::Accept,
            Some(h) => if h.matches_compiled {
                Verdict::Adopt
            } else if h.embed_dim != embed_dim && f.matching > 0 {
                // The header lies: the payloads are of the compiled length.
                Verdict::Accept
            } else if !migrate && !reindex {
                Verdict::RefuseSpace
            } else {
                Verdict::Accept
            },
        }
    }
}

pub fn judge(f: &SnapshotFacts, embed_dim: u32, migrate: bool, reindex: bool) -> (r: Verdict)
    ensures
        r == verdict(*f, embed_dim, migrate, reindex),
{
    if !f.contents_loaded && f.stripped {
        return Verdict::RefuseStripped;
    }
    if f.embedded > 0 && f.matching == 0 && !migrate {
        return Verdict::RefuseDimension;
    }
    match &f.header {
        None => Verdict::Accept,
        Some(h) => {
            if h.matches_compiled {
                Verdict::Adopt
            } else if h.embed_dim != embed_dim && f.matching > 0 {
                Verdict::Accept
            } else if !migrate && !reindex {
                Verdict::RefuseSpace
            } else {
                Verdict::Accept
            }
        },
    }
}

/// How far the candidates have been tried.
#[derive(Clone, Copy, Debug, PartialEq, Eq, Structural)]
pub struct Choice {
    /// The number of candidates that were refused or could not be read.
    pub refused: u64,
    /// A candidate was loaded: the one after the refused ones.
    pub loaded: bool,
    /// The loaded candidate's lineage is carried on.
    pub adopted: bool,
}

/// The snapshot is loaded.
pub open spec fn accepted(v: Option<Verdict>) -> bool {
    v == Some(Verdict::Adopt) || v == Some(Verdict::Accept)
}

/// The choice after one more candidate. `v` is missing when the candidate could not be read.
pub open spec fn chosen(c: Choice, v: Option<Verdict>) -> Choice {
    if c.loaded {
        c
    } else if accepted(v) {
        Choice { refused: c.refused, loaded: true, adopted: v == Some(Verdict::Adopt) }
    } else {
        Choice {
            refused: if c.refused < u64::MAX {
                (c.refused + 1) as u64
            } else {
                u64::MAX
            },
            loaded: false,
            adopted: false,
        }
    }
}

/// The choice after all of `outcomes`.
pub open spec fn choice_after(outcomes: Seq<Option<Verdict>>) -> Choice
    decreases outcomes.len(),
{
    if outcomes.len() == 0 {
        Choice { refused: 0, loaded: false, adopted: false }
    } else {
        chosen(choice_after(outcomes.drop_last()), outcomes.last())
    }
}

impl Choice {
    pub fn new() -> (r: Self)
        ensures
            r == choice_after(Seq::empty()),
    {
        Choice { refused: 0, loaded: false, adopted: false }
    }

    /// Takes note of a candidate, and says whether the next one is to be tried.
    pub fn step(&mut self, v: Option<Verdict>) -> (again: bool)
        ensures
            *final(self) == chosen(*old(self), v),
            again == !final(self).loaded,
    {
        if !self.loaded {
            match v {
                Some(Verdict::Adopt) => {
                    self.loaded = true;
                    self.adopted = true;
                },
                Some(Verdict::Accept) => {
                    self.loaded = true;
                    self.adopted = false;
                },
                _ => {
                    self.refused = self.refused.saturating_add(1);
                    self.adopted = false;
                },
            }
        }
        !self.loaded
    }
}

/// The candidate that is loaded is the first acceptable one.
pub proof fn first_acceptable_is_loaded(outcomes: Seq<Option<Verdict>>)
    requires
        outcomes.len() < u64::MAX,
    ensures
        choice_after(outcomes).loaded <==> exists|i: int|
            0 <= i < outcomes.len() && accepted(#[trigger] outcomes[i]),
        choice_after(outcomes).loaded ==> {
            let i = choice_after(outcomes).refused as int;
            &&& 0 <= i < outcomes.len()
            &&& accepted(outcomes[i])
            &&& choice_after(outcomes).adopted == (outcomes[i] == Some(Verdict::Adopt))
            &&& forall|j: int| 0 <= j < i ==> !accepted(#[trigger] outcomes[j])
        },
        !choice_after(outcomes).loaded ==> choice_after(outcomes).refused == outcomes.len(),
    decreases outcomes.len(),
{
    if outcomes.len() > 0 {
        let before = outcomes.drop_last();
        first_acceptable_is_loaded(before);
        assert forall|j: int| 0 <= j < before.len() implies #[trigger] outcomes[j] == before[j] by {}
        if choice_after(before).loaded {
            let i = choice_after(before).refused as int;
            assert(accepted(outcomes[i]));
        } else {
            assert forall|j: int| 0 <= j < before.len() implies !accepted(#[trigger] outcomes[j]) by {
                assert(!accepted(before[j]));
            }
            if accepted(outcomes.last()) {
                assert(accepted(outcomes[outcomes.len() - 1]));
            }
        }
    }
}

/// A snapshot without embedded payloads, with its content and without a header, is always loaded.
pub proof fn plain_snapshots_load(f: SnapshotFacts, embed_dim: u32, migrate: bool, reindex: bool)
    requires
        f.contents_loaded,
        f.embedded == 0 || f.matching > 0,
        f.header is None,
    ensures
        verdict(f, embed_dim, migrate, reindex) == Verdict::Accept,
{
}

/// Content that only a missing sidecar held is never served as empty.
pub proof fn stripped_content_is_never_served(f: SnapshotFacts, embed_dim: u32, migrate: bool, reindex: bool)
    requires
        !f.contents_loaded,
        f.stripped,
    ensures
        verdict(f, embed_dim, migrate, reindex) == Verdict::RefuseStripped,
{
}

/// There are payloads and none has content.
pub open spec fn content_stripped(payloads: Map<u64, MemoryPayload>) -> bool {
    &&& payloads != Map::<u64, MemoryPayload>::empty()
    &&& forall|id: u64| #[trigger] payloads.contains_key(id) ==> payloads[id].content@.len() == 0
}

/// The payloads that were written with an embedding.
pub open spec fn embedded_ids(payloads: Map<u64, MemoryPayload>) -> Set<u64> {
    payloads.dom().filter(|id: u64| payloads[id].embedding_dim > 0)
}

/// The payloads that were written with an embedding of length `dim`.
pub open spec fn matching_ids(payloads: Map<u64, MemoryPayload>, dim: u32) -> Set<u64> {
    payloads.dom().filter(|id: u64| payloads[id].embedding_dim > 0 && payloads[id].embedding_dim == dim)
}

/// Gathers what has to be known of a snapshot's payloads.
pub fn survey(
    payloads: &BTreeMap<u64, MemoryPayload>,
    contents_loaded: bool,
    embed_dim: u32,
    header: Option<HeaderFacts>,
) -> (r: SnapshotFacts)
    ensures
        r.contents_loaded == contents_loaded,
        r.header == header,
        r.stripped == content_stripped(payloads@),
        r.embedded == embedded_ids(payloads@).len(),
        r.matching == matching_ids(payloads@, embed_dim).len(),
{
    broadcast use vstd::std_specs::btree::group_btree_axioms;

    let ids = key_list(payloads);
    let n: usize = ids.len();
    let mut stripped: bool = n > 0;
    let mut embedded: usize = 0;
    let mut matching: usize = 0;
    let ghost mut seen_embedded = Set::<u64>::empty();
    let ghost mut seen_matching = Set::<u64>::empty();
    let mut i: usize = 0;
    while i < n
        invariant
            n == ids.len(),
            i <= n,
            lists_keys(ids@, payloads@),
            stripped <==> n > 0 && forall|k: int|
                0 <= k < i ==> payloads@[#[trigger] ids@[k]].content@.len() == 0,
            embedded <= i,
            matching <= i,
            seen_embedded.finite(),
            seen_matching.finite(),
            embedded == seen_embedded.len(),
            matching == seen_matching.len(),
            forall|id: u64| #[trigger]
                seen_embedded.contains(id) <==> payloads@.contains_key(id) && payloads@[id].embedding_dim
                    > 0 && ids@.take(i as int).contains(id),
            forall|id: u64| #[trigger]
                seen_matching.contains(id) <==> payloads@.contains_key(id) && payloads@[id].embedding_dim
                    > 0 && payloads@[id].embedding_dim == embed_dim && ids@.take(i as int).contains(id),
        decreases n - i,
    {
        let id: u64 = ids[i];
        proof {
            assert(payloads@.contains_key(ids@[i as int]));
            let less = ids@.take(i as int);
            let more = ids@.take(i + 1);
            assert(more =~= less.push(id));
            assert forall|x: u64| #[trigger] more.contains(x) <==> less.contains(x) || x == id by {
                if less.contains(x) {
                    let k = choose|k: int| 0 <= k < less.len() && less[k] == x;
                    assert(more[k] == x);
                }
                assert(more[i as int] == id);
            }
            assert(!less.contains(id)) by {
                if less.contains(id) {
                    let k = choose|k: int| 0 <= k < less.len() && less[k] == id;
                    assert(ids@[k] < ids@[i as int]);
                }
            }
        }
        match payloads.get(&id) {
            Some(p) => {
                if p.content.len() > 0 {
                    stripped = false;
                    assert(payloads@[ids@[i as int]].content@.len() > 0);
                }
                if p.embedding_dim > 0 {
                    proof {
                        seen_embedded = seen_embedded.insert(id);
                    }
                    embedded = embedded + 1;
                    if p.embedding_dim == embed_dim {
                        proof {
                            seen_matching = seen_matching.insert(id);
                        }
                        matching = matching + 1;
                    }
                }
            },
            None => {},
        }
        i = i + 1;
    }
    proof {
        assert(ids@.take(n as int) =~= ids@);
        assert(seen_embedded =~= embedded_ids(payloads@));
        assert(seen_matching =~= matching_ids(payloads@, embed_dim));
        if n == 0 {
            assert(payloads@ =~= Map::<u64, MemoryPayload>::empty());
        } else {
            assert(payloads@.contains_key(ids@[0]));
        }
        if stripped {
            assert forall|id: u64| #[trigger] payloads@.contains_key(id) implies payloads@[id].content@.len()
                == 0 by {
                let k = choose|k: int| 0 <= k < ids@.len() && ids@[k] == id;
                assert(payloads@[ids@[k]].content@.len() == 0);
            }
        } else if n > 0 {
            let k = choose|k: int|
                0 <= k < n && payloads@[#[trigger] ids@[k]].content@.len() != 0;
            assert(payloads@.contains_key(ids@[k]));
        }
    }
    SnapshotFacts { contents_loaded, stripped, embedded, matching, header }
}

/// Refuses to go on with an empty store when there were snapshots and none could be loaded.
pub fn check_loaded(had_snapshots: bool, loaded: bool) -> (r: Result<(), FieldError>)
    ensures
        r is Err <==> had_snapshots && !loaded,
        r matches Err(e) ==> e matches FieldError::Manifest(m) && m@
            == "all full snapshots failed to load — refusing to start with empty store (this prevents data loss; fix the snapshot format or restore from backup)"@,
{
    if had_snapshots && !loaded {
        Err(
            FieldError::Manifest(
                "all full snapshots failed to load — refusing to start with empty store (this prevents data loss; fix the snapshot format or restore from backup)".to_owned(),
            ),
        )
    } else {
        Ok(())
    }
}

/// The extensions of sidecars that are worthless without their snapshot.
pub open spec fn orphan_extension(ext: Seq<char>) -> bool {
    ||| ext == "emb"@
    ||| ext == "bin"@
    ||| ext == "hnsw"@
    ||| ext == "pld"@
    ||| ext == "delta.hnsw"@
    ||| ext == "snapshot.tmp"@
    ||| ext == "lsh"@
    ||| ext == "organs"@
    ||| ext == "turbo"@
    ||| ext == "turbo.meta"@
}

/// The extensions of all files that go with a snapshot when it is deleted.
pub fn snapshot_sidecars() -> (r: Vec<String>)
    ensures
        views(r@) == seq![
            "emb"@,
            "bin"@,
            "mu"@,
            "shdr"@,
            "hnsw"@,
            "pld"@,
            "snapshot.tmp"@,
            "lsh"@,
            "organs"@,
            "turbo"@,
            "turbo.meta"@,
            "delta.hnsw"@,
        ],
{
    let mut r: Vec<String> = Vec::new();
    r.push("emb".to_owned());
    r.push("bin".to_owned());
    r.push("mu".to_owned());
    r.push("shdr".to_owned());
    r.push("hnsw".to_owned());
    r.push("pld".to_owned());
    r.push("snapshot.tmp".to_owned());
    r.push("lsh".to_owned());
    r.push("organs".to_owned());
    r.push("turbo".to_owned());
    r.push("turbo.meta".to_owned());
    r.push("delta.hnsw".to_owned());
    assert(views(r@) =~= seq![
        "emb"@,
        "bin"@,
        "mu"@,
        "shdr"@,
        "hnsw"@,
        "pld"@,
        "snapshot.tmp"@,
        "lsh"@,
        "organs"@,
        "turbo"@,
        "turbo.meta"@,
        "delta.hnsw"@,
    ]);
    r
}

/// The second dot-separated part of a file name.
pub open spec fn name_hash(name: Seq<char>) -> Option<Seq<char>> {
    if split_on(name, '.').len() >= 2 {
        Some(split_on(name, '.')[1])
    } else {
        None
    }
}

/// What follows the second dot of a file name.
pub open spec fn name_rest(name: Seq<char>) -> Seq<char> {
    let pieces = split_on(name, '.');
    name.skip((pieces[0].len() + pieces[1].len() + 2) as int)
}

/// The family that a snapshot file belongs to.
pub fn family_of(name: &str) -> (r: Option<String>)
    ensures
        r is Some <==> name_hash(name@) is Some,
        r matches Some(s) ==> s@ == name_hash(name@)->0,
{
    let pieces = split(name, '.');
    if pieces.len() >= 2 {
        assert(views(pieces@)[1] == pieces@[1]@);
        Some(pieces[1].clone())
    } else {
        None
    }
}

/// The file is a sidecar of a snapshot that is neither the best nor its backup.
pub open spec fn orphaned(name: Seq<char>, live: Seq<String>) -> bool {
    &&& begins(name, "chitta."@)
    &&& split_on(name, '.').len() >= 3
    &&& !holds_text(live, split_on(name, '.')[1])
    &&& orphan_extension(name_rest(name))
}

proof fn pieces_fill(s: Seq<char>, sep: char)
    ensures
        split_on(s, sep).len() >= 1,
        pieces_len(split_on(s, sep)) == s.len(),
    decreases s.len(),
{
    if s.len() > 0 {
        pieces_fill(s.drop_last(), sep);
        let front = split_on(s.drop_last(), sep);
        if s.last() == sep {
            assert(front.push(Seq::<char>::empty()).drop_last() =~= front);
        } else {
            assert(front.drop_last().push(front.last().push(s.last())).drop_last()
                =~= front.drop_last());
            assert(pieces_len(front) == pieces_len(front.drop_last()) + 1 + front.last().len());
        }
    } else {
        assert(seq![Seq::<char>::empty()].drop_last() =~= Seq::<Seq<char>>::empty());
        assert(pieces_len(Seq::<Seq<char>>::empty()) == -1);
    }
}

/// The length of pieces with one separator between any two.
spec fn pieces_len(pieces: Seq<Seq<char>>) -> int
    decreases pieces.len(),
{
    if pieces.len() == 0 {
        -1
    } else {
        pieces_len(pieces.drop_last()) + 1 + pieces.last().len()
    }
}

proof fn two_pieces_fit(pieces: Seq<Seq<char>>)
    requires
        pieces.len() >= 3,
    ensures
        pieces[0].len() + pieces[1].len() + 2 <= pieces_len(pieces),
    decreases pieces.len(),
{
    let front = pieces.drop_last();
    if pieces.len() == 3 {
        let f2 = front.drop_last();
        assert(f2.drop_last() =~= Seq::<Seq<char>>::empty());
        assert(pieces_len(f2.drop_last()) == -1);
        assert(pieces_len(f2) == f2.last().len());
        assert(pieces_len(front) == pieces_len(f2) + 1 + front.last().len());
    } else {
        two_pieces_fit(front);
    }
}

/// Whether a file is a sidecar without a snapshot worth keeping. `live` lists the families of the
/// best snapshot and of its backup.
pub fn is_orphaned(name: &str, live: &Vec<String>) -> (r: bool)
    ensures
        r == orphaned(name@, live@),
{
    if !starts_with(name, "chitta.") {
        return false;
    }
    let pieces = split(name, '.');
    if pieces.len() < 3 {
        return false;
    }
    proof {
        assert(views(pieces@)[0] == pieces@[0]@);
        assert(views(pieces@)[1] == pieces@[1]@);
        pieces_fill(name@, '.');
        two_pieces_fit(split_on(name@, '.'));
    }
    if contains_text(live, pieces[1].as_str()) {
        return false;
    }
    let a: usize = pieces[0].as_str().unicode_len();
    let b: usize = pieces[1].as_str().unicode_len();
    let n: usize = name.unicode_len();
    let ext = name.substring_char(a + b + 2, n);
    assert(ext@ =~= name_rest(name@));
    str_eq(ext, "emb") || str_eq(ext, "bin") || str_eq(ext, "hnsw") || str_eq(ext, "pld") || str_eq(
        ext,
        "delta.hnsw",
    ) || str_eq(ext, "snapshot.tmp") || str_eq(ext, "lsh") || str_eq(ext, "organs") || str_eq(
        ext,
        "turbo",
    ) || str_eq(ext, "turbo.meta")
}

/// The identity of a store across openings.
#[derive(Clone, Copy, Debug, PartialEq, Eq, Structural)]
pub struct Lineage {
    pub epoch: u64,
    pub writer: u128,
}

/// The lineage of this opening: the loaded one carried on, or a new one made from the instance and
/// the time.
pub fn next_lineage(loaded: Option<Lineage>, instance_id: u32, nanos: u128) -> (r: Lineage)
    ensures
        r.epoch == match loaded {
            Some(l) => if l.epoch < u64::MAX {
                (l.epoch + 1) as u64
            } else {
                u64::MAX
            },
            None => 1,
        },
        r.writer == match loaded {
            Some(l) => l.writer,
            None => ((instance_id as u128) << 96) ^ nanos,
        },
{
    match loaded {
        Some(l) => Lineage { epoch: l.epoch.saturating_add(1), writer: l.writer },
        None => Lineage { epoch: 1, writer: ((instance_id as u128) << 96) ^ nanos },
    }
}

/// The memories that wait for an embedding.
pub open spec fn pending_ids(states: Map<u64, MemoryState>) -> Set<u64> {
    states.dom().filter(|id: u64| states[id].embed_pending && !states[id].deleted)
}

/// How many memories wait for an embedding.
pub fn count_pending(states: &BTreeMap<u64, MemoryState>) -> (r: usize)
    ensures
        r == pending_ids(states@).len(),
{
    broadcast use vstd::std_specs::btree::group_btree_axioms;

    let ids = key_list(states);
    let n: usize = ids.len();
    let mut count: usize = 0;
    let ghost mut seen = Set::<u64>::empty();
    let mut i: usize = 0;
    while i < n
        invariant
            n == ids.len(),
            i <= n,
            lists_keys(ids@, states@),
            count <= i,
            seen.finite(),
            count == seen.len(),
            forall|id: u64| #[trigger]
                seen.contains(id) <==> states@.contains_key(id) && states@[id].embed_pending
                    && !states@[id].deleted && ids@.take(i as int).contains(id),
        decreases n - i,
    {
        let id: u64 = ids[i];
        proof {
            assert(states@.contains_key(ids@[i as int]));
            let less = ids@.take(i as int);
            let more = ids@.take(i + 1);
            assert(more =~= less.push(id));
            assert forall|x: u64| #[trigger] more.contains(x) <==> less.contains(x) || x == id by {
                if less.contains(x) {
                    let k = choose|k: int| 0 <= k < less.len() && less[k] == x;
                    assert(more[k] == x);
                }
                assert(more[i as int] == id);
            }
            assert(!less.contains(id)) by {
                if less.contains(id) {
                    let k = choose|k: int| 0 <= k < less.len() && less[k] == id;
                    assert(ids@[k] < ids@[i as int]);
                }
            }
        }
        match states.get(&id) {
            Some(s) => {
                if s.embed_pending && !s.deleted {
                    proof {
                        seen = seen.insert(id);
                    }
                    count = count + 1;
                }
            },
            None => {},
        }
        i = i + 1;
    }
    proof {
        assert(ids@.take(n as int) =~= ids@);
        assert(seen =~= pending_ids(states@));
    }
    count
}

/// The scan names the first of the newest readable snapshots, and passes over every other file.
/// Nothing is named only when no file has a sequence number above zero.
pub proof fn the_newest_snapshot_is_named(files: Vec<SnapshotFile>, r: Scan, j: int)
    requires
        call_ensures(scan_snapshots, (&files,), r),
        0 <= j < files@.len(),
    ensures
        files@[j].seqno matches Some(n) ==> n <= r.seqno,
        r.best matches Some(i) ==> {
            &&& i < files@.len()
            &&& files@[i as int].seqno == Some(r.seqno)
            &&& r.seqno > 0
            &&& files@[j].seqno == Some(r.seqno) ==> i <= j
        },
        r.best is None ==> r.seqno == 0,
        r.stale@.contains(j as usize) <==> r.best != Some(j as usize),
{
    assert(files.len() == files@.len());
    let n = files@.len() as int;
    best_is_highest(files@, n);
    best_of_is_readable(files@, n);
    every_file_is_sorted_out(files@, n, j);
    if r.best == Some(j as usize) {
        best_is_kept(files@, j);
    }
}

proof fn readable_places_are_listed(files: Seq<SnapshotFile>, places: Seq<usize>)
    ensures
        forall|p: usize|
            #![trigger places.contains(p)]
            places.contains(p) && files[p as int].seqno is Some <==> exists|k: int|
                0 <= k < readable(files, places).len() && (#[trigger] readable(files, places)[k]).place == p,
        forall|k: int|
            0 <= k < readable(files, places).len() ==> files[(#[trigger] readable(
                files,
                places,
            )[k]).place as int].seqno == Some(readable(files, places)[k].seqno) && places.contains(
                readable(files, places)[k].place,
            ),
{
    let met = |p: usize| files[p as int].seqno is Some;
    let kept = places.filter(met);
    let all = readable(files, places);
    filter_members(places, met);
    assert(all.len() == kept.len());
    assert forall|k: int| 0 <= k < all.len() implies files[(#[trigger] all[k]).place as int].seqno == Some(
        all[k].seqno,
    ) && places.contains(all[k].place) by {
        assert(all[k].place == kept[k]);
        assert(kept.contains(kept[k]));
    }
    assert forall|p: usize|
        #![trigger places.contains(p)]
        places.contains(p) && files[p as int].seqno is Some <==> exists|k: int|
            0 <= k < all.len() && (#[trigger] all[k]).place == p by {
        if places.contains(p) && met(p) {
            assert(kept.contains(p));
            let k = kept.index_of(p);
            assert(all[k].place == p);
        }
        if exists|k: int| 0 <= k < all.len() && (#[trigger] all[k]).place == p {
            let k = choose|k: int| 0 <= k < all.len() && (#[trigger] all[k]).place == p;
            assert(files[all[k].place as int].seqno is Some);
        }
    }
}

/// Sorting puts no file behind an older one.
pub proof fn newer_snapshots_come_first(
    files: Seq<SnapshotFile>,
    places: Seq<usize>,
    out: Seq<usize>,
    i: int,
    j: int,
)
    requires
        newest_first(files, places, out),
        0 <= i < j < out.len(),
    ensures
        files[out[i] as int].seqno is Some,
        files[out[j] as int].seqno is Some,
        files[out[i] as int].seqno->0 >= files[out[j] as int].seqno->0,
{
    readable_places_are_listed(files, places);
    let all = readable(files, places);
    let q = choose|q: Seq<usize>|
        {
            &&& #[trigger] sorts_range(q, all, 0, all.len() as int)
            &&& out.len() == all.len()
            &&& forall|i: int| 0 <= i < out.len() ==> #[trigger] out[i] == all[q[i] as int].place
        };
    assert(out[i] == all[q[i] as int].place);
    assert(out[j] == all[q[j] as int].place);
    assert(sorts_before(all, q[i] as int, q[j] as int));
}

/// Sorting keeps the readable files and no others.
pub proof fn newest_first_lists(files: Seq<SnapshotFile>, places: Seq<usize>, out: Seq<usize>, p: usize)
    requires
        newest_first(files, places, out),
    ensures
        out.contains(p) <==> places.contains(p) && files[p as int].seqno is Some,
{
    readable_places_are_listed(files, places);
    let all = readable(files, places);
    let q = choose|q: Seq<usize>|
        {
            &&& #[trigger] sorts_range(q, all, 0, all.len() as int)
            &&& out.len() == all.len()
            &&& forall|i: int| 0 <= i < out.len() ==> #[trigger] out[i] == all[q[i] as int].place
        };
    if places.contains(p) && files[p as int].seqno is Some {
        let k = choose|k: int| 0 <= k < all.len() && (#[trigger] all[k]).place == p;
        assert(lists(q, k));
        let i = choose|i: int| 0 <= i < q.len() && #[trigger] q[i] == k;
        assert(out[i] == p);
    }
    if out.contains(p) {
        let i = out.index_of(p);
        let k = q[i] as int;
        assert(0 <= k < all.len());
        assert(all[k].place == p);
        assert(places.contains(all[k].place));
    }
}

/// A snapshot that a manifest has committed is tried first and once. Without one the newest
/// snapshot is tried first. Every readable snapshot is tried.
pub proof fn every_readable_snapshot_is_tried(
    files: Vec<SnapshotFile>,
    committed: Option<String>,
    r: Vec<String>,
    j: int,
)
    requires
        call_ensures(candidates, (&files, committed), r),
        0 <= j < files@.len(),
        files@[j].seqno is Some,
    ensures
        views(r@).contains(files@[j].path@),
        committed matches Some(path) ==> {
            &&& r@[0]@ == path@
            &&& forall|k: int| 1 <= k < r@.len() ==> (#[trigger] r@[k])@ != path@
        },
        committed is None && files@[j].seqno->0 > 0 ==> exists|i: int|
            {
                &&& 0 <= i < files@.len()
                &&& #[trigger] files@[i].seqno is Some
                &&& files@[i].seqno->0 >= files@[j].seqno->0
                &&& r@[0]@ == files@[i].path@
            },
{
    assert(files.len() == files@.len());
    let n = files@.len() as int;
    let named = match committed {
        Some(p) => Some(p@),
        None => None,
    };
    let others = choose|others: Seq<usize>|
        {
            &&& #[trigger] newest_first(files@, losers(files@, n), others)
            &&& views(r@) == tried(files@, others, named)
        };
    let best = best_of(files@, n);
    best_is_highest(files@, n);
    best_of_is_readable(files@, n);
    every_file_is_sorted_out(files@, n, j);
    newest_first_lists(files@, losers(files@, n), others, j as usize);
    let rest = match best {
        Some(i) => seq![files@[i].path@] + paths_at(files@, others),
        None => paths_at(files@, others),
    };
    if best == Some(j) {
        assert(rest[0] == files@[j].path@);
    } else {
        let k = others.index_of(j as usize);
        assert(paths_at(files@, others)[k] == files@[j].path@);
        if best is Some {
            assert(rest[k + 1] == files@[j].path@);
        } else {
            assert(rest[k] == files@[j].path@);
        }
    }
    assert(rest.contains(files@[j].path@));
    assert(views(r@).len() == r@.len());
    match committed {
        Some(path) => {
            let met = other_than(path@);
            let kept = rest.filter(met);
            assert(views(r@) == seq![path@] + kept);
            assert(views(r@)[0] == path@);
            assert forall|k: int| 1 <= k < r@.len() implies (#[trigger] r@[k])@ != path@ by {
                assert(views(r@)[k] == kept[k - 1]);
                rest.lemma_filter_pred(met, k - 1);
                assert(met(kept[k - 1]));
            }
            if files@[j].path@ != path@ {
                filter_members(rest, met);
                assert(met(files@[j].path@));
                assert(kept.contains(files@[j].path@));
                let k = kept.index_of(files@[j].path@);
                assert(views(r@)[k + 1] == files@[j].path@);
            }
        },
        None => {
            if files@[j].seqno->0 > 0 {
                let i = best->0;
                assert(views(r@)[0] == files@[i].path@);
            }
        },
    }
}

proof fn losers_differ(files: Seq<SnapshotFile>, n: int)
    requires
        0 <= n <= files.len(),
        files.len() <= usize::MAX,
    ensures
        losers(files, n).no_duplicates(),
        forall|k: int| 0 <= k < losers(files, n).len() ==> #[trigger] losers(files, n)[k] < n,
    decreases n,
{
    if n > 0 {
        losers_differ(files, n - 1);
        best_of_is_readable(files, n - 1);
        if best_of(files, n - 1) is Some {
            losers_exclude_best(files, n - 1, best_of(files, n - 1)->0);
        }
    }
}

proof fn readable_places_differ(files: Seq<SnapshotFile>, places: Seq<usize>)
    requires
        places.no_duplicates(),
    ensures
        forall|i: int, j: int|
            0 <= i < j < readable(files, places).len() ==> (#[trigger] readable(files, places)[i]).place
                != (#[trigger] readable(files, places)[j]).place,
    decreases places.len(),
{
    reveal(Seq::filter);
    let met = |p: usize| files[p as int].seqno is Some;
    if places.len() > 0 {
        let front = places.drop_last();
        readable_places_differ(files, front);
        readable_places_are_listed(files, front);
        let all = readable(files, places);
        let before = readable(files, front);
        if met(places.last()) {
            assert(all.drop_last() =~= before);
            assert forall|i: int, j: int| 0 <= i < j < all.len() implies (#[trigger] all[i]).place != (
            #[trigger] all[j]).place by {
                assert(all[i] == before[i]);
                if j < before.len() {
                    assert(all[j] == before[j]);
                } else {
                    assert(all[j].place == places.last());
                    assert(front.contains(before[i].place));
                    let k = front.index_of(before[i].place);
                    assert(places[k] == before[i].place);
                }
            }
        } else {
            assert(all =~= before);
        }
    }
}

/// The newest of the snapshots that are passed over is kept, and so is the best one. The others
/// that are readable are deleted, and no file that is unreadable.
pub proof fn a_backup_is_kept(files: Vec<SnapshotFile>, r: Vec<usize>, j: int)
    requires
        call_ensures(surplus_snapshots, (&files,), r),
        0 <= j < files@.len(),
        best_of(files@, files@.len() as int) != Some(j),
        files@[j].seqno is Some,
    ensures
        exists|b: int|
            {
                &&& 0 <= b < files@.len()
                &&& best_of(files@, files@.len() as int) != Some(b)
                &&& (#[trigger] files@[b]).seqno is Some
                &&& files@[b].seqno->0 >= files@[j].seqno->0
                &&& !r@.contains(b as usize)
                &&& b != j ==> r@.contains(j as usize)
            },
{
    assert(files.len() == files@.len());
    let n = files@.len() as int;
    let lost = losers(files@, n);
    let order = choose|order: Seq<usize>| #[trigger]
        newest_first(files@, lost, order) && r@ == surplus(order);
    every_file_is_sorted_out(files@, n, j);
    newest_first_lists(files@, lost, order, j as usize);
    let k = order.index_of(j as usize);
    let b = order[0] as int;
    assert(order.contains(order[0]));
    newest_first_lists(files@, lost, order, order[0]);
    losers_differ(files@, n);
    readable_places_differ(files@, lost);
    if best_of(files@, n) == Some(b) {
        best_is_kept(files@, b);
    }
    let all = readable(files@, lost);
    let q = choose|q: Seq<usize>|
        {
            &&& #[trigger] sorts_range(q, all, 0, all.len() as int)
            &&& order.len() == all.len()
            &&& forall|i: int| 0 <= i < order.len() ==> #[trigger] order[i] == all[q[i] as int].place
        };
    if r@.contains(order[0]) {
        let i = r@.index_of(order[0]);
        assert(order[i + 1] == order[0]);
        assert(sorts_before(all, q[0] as int, q[i + 1] as int));
        assert(q[0] != q[i + 1]);
        assert(all[q[0] as int].place == all[q[i + 1] as int].place);
    }
    if k > 0 {
        newer_snapshots_come_first(files@, lost, order, 0, k);
        assert(r@[k - 1] == order[k]);
    }
    assert(files@[b].seqno is Some);
}

/// The best snapshot and the unreadable ones are never deleted.
pub proof fn only_stale_snapshots_are_deleted(files: Vec<SnapshotFile>, r: Vec<usize>, k: int)
    requires
        call_ensures(surplus_snapshots, (&files,), r),
        0 <= k < r@.len(),
    ensures
        files@[r@[k] as int].seqno is Some,
        best_of(files@, files@.len() as int) != Some(r@[k] as int),
{
    assert(files.len() == files@.len());
    let n = files@.len() as int;
    let lost = losers(files@, n);
    let order = choose|order: Seq<usize>| #[trigger]
        newest_first(files@, lost, order) && r@ == surplus(order);
    assert(order[k + 1] == r@[k]);
    assert(order.contains(order[k + 1]));
    newest_first_lists(files@, lost, order, order[k + 1]);
    if best_of(files@, n) == Some(r@[k] as int) {
        best_is_kept(files@, r@[k] as int);
    }
}

/// A snapshot is refused for one of three faults, and an order to migrate or to index anew sets
/// aside the faults that it mends.
pub proof fn only_faulty_snapshots_are_refused(
    f: SnapshotFacts,
    embed_dim: u32,
    migrate: bool,
    reindex: bool,
    r: Verdict,
)
    requires
        call_ensures(judge, (&f, embed_dim, migrate, reindex), r),
    ensures
        r == Verdict::RefuseStripped <==> f.stripped && !f.contents_loaded,
        r == Verdict::RefuseDimension ==> !migrate && f.matching == 0 && f.embedded > 0,
        r == Verdict::RefuseSpace ==> !migrate && !reindex && (f.header matches Some(h)
            && !h.matches_compiled && (h.embed_dim == embed_dim || f.matching == 0)),
        r == Verdict::Adopt ==> (f.header matches Some(h) && h.matches_compiled),
        migrate && (f.contents_loaded || !f.stripped) ==> r == Verdict::Adopt || r == Verdict::Accept,
        f.contents_loaded && !migrate && f.embedded > 0 && f.matching == 0 ==> r
            == Verdict::RefuseDimension,
        f.contents_loaded && f.matching > 0 ==> (f.header matches Some(h) ==> (h.matches_compiled ==> r
            == Verdict::Adopt)),
        f.contents_loaded && f.matching > 0 && !migrate && !reindex ==> (f.header matches Some(h) ==> (
        !h.matches_compiled && h.embed_dim == embed_dim ==> r == Verdict::RefuseSpace)),
        f.contents_loaded && f.matching > 0 ==> (f.header matches Some(h) ==> (!h.matches_compiled
            && h.embed_dim != embed_dim ==> r == Verdict::Accept)),
{
}

/// A refused or unreadable candidate is counted and the next one is tried; a loaded one ends the
/// search, and its lineage is carried on only when it is adopted.
pub proof fn a_loaded_candidate_ends_the_search(before: Choice, v: Option<Verdict>)
    requires
        !before.loaded,
        before.refused < u64::MAX,
    ensures
        v == Some(Verdict::Adopt) ==> chosen(before, v) == (Choice { loaded: true, adopted: true, ..before }),
        v == Some(Verdict::Accept) ==> chosen(before, v) == (Choice {
            loaded: true,
            adopted: false,
            ..before
        }),
        v is None || v == Some(Verdict::RefuseStripped) || v == Some(Verdict::RefuseDimension) || v
            == Some(Verdict::RefuseSpace) ==> !chosen(before, v).loaded && chosen(before, v).refused
            == before.refused + 1,
{
}

/// One memory with content shows that the content is not gone, and one whose embedding has the
/// compiled length is counted as embedded and as matching.
pub proof fn a_survey_counts_what_is_there(
    payloads: BTreeMap<u64, MemoryPayload>,
    contents_loaded: bool,
    embed_dim: u32,
    header: Option<HeaderFacts>,
    r: SnapshotFacts,
    id: u64,
)
    requires
        call_ensures(survey, (&payloads, contents_loaded, embed_dim, header), r),
        payloads@.contains_key(id),
    ensures
        r.contents_loaded == contents_loaded,
        r.header == header,
        payloads@[id].content@.len() > 0 ==> !r.stripped,
        (forall|k: u64| #[trigger] payloads@.contains_key(k) ==> payloads@[k].content@.len() == 0)
            ==> r.stripped,
        payloads@[id].embedding_dim > 0 ==> r.embedded > 0,
        embed_dim > 0 && payloads@[id].embedding_dim == embed_dim ==> r.matching > 0,
        (forall|k: u64| #[trigger] payloads@.contains_key(k) ==> payloads@[k].embedding_dim == 0)
            ==> r.embedded == 0,
        (forall|k: u64| #[trigger]
            payloads@.contains_key(k) ==> payloads@[k].embedding_dim != embed_dim) ==> r.matching == 0,
        (forall|k: u64| #[trigger] payloads@.contains_key(k) ==> payloads@[k].embedding_dim > 0)
            ==> r.embedded == payloads@.len(),
        (forall|k: u64| #[trigger] payloads@.contains_key(k) ==> payloads@[k].embedding_dim > 0
            && payloads@[k].embedding_dim == embed_dim) ==> r.matching == payloads@.len(),
        r.matching <= r.embedded <= payloads@.len(),
{
    broadcast use vstd::map::group_map_axioms, vstd::set::group_set_axioms;

    let all = payloads@.dom();
    let e = embedded_ids(payloads@);
    let m = matching_ids(payloads@, embed_dim);
    assert(payloads@.dom().contains(id));
    assert(all.finite());
    assert(e.subset_of(all));
    assert(m.subset_of(e));
    vstd::set_lib::lemma_len_subset(e, all);
    vstd::set_lib::lemma_len_subset(m, e);
    if payloads@[id].embedding_dim > 0 {
        assert(e.contains(id));
        if e.len() == 0 {
            assert(e =~= Set::empty());
        }
    }
    if embed_dim > 0 && payloads@[id].embedding_dim == embed_dim {
        assert(m.contains(id));
    }
    if forall|k: u64| #[trigger] payloads@.contains_key(k) ==> payloads@[k].embedding_dim == 0 {
        assert(e =~= Set::empty());
    }
    if forall|k: u64| #[trigger] payloads@.contains_key(k) ==> payloads@[k].embedding_dim != embed_dim {
        assert(m =~= Set::empty());
    }
    if forall|k: u64| #[trigger] payloads@.contains_key(k) ==> payloads@[k].embedding_dim > 0 {
        assert(e =~= all);
    }
    if forall|k: u64| #[trigger] payloads@.contains_key(k) ==> payloads@[k].embedding_dim > 0
        && payloads@[k].embedding_dim == embed_dim {
        assert(m =~= all);
    }
}

/// Every opening of a store is later than the one it carries on, by the same writer. A new lineage
/// begins at one, and its writer tells instances apart.
pub proof fn lineages_go_on(loaded: Option<Lineage>, instance_id: u32, nanos: u128, r: Lineage)
    requires
        call_ensures(next_lineage, (loaded, instance_id, nanos), r),
    ensures
        loaded matches Some(l) ==> r.writer == l.writer && (l.epoch < u64::MAX ==> r.epoch == l.epoch + 1)
            && r.epoch >= l.epoch,
        loaded is None ==> r.epoch == 1,
        loaded is None && nanos < 0x1_0000_0000_0000_0000_0000_0000 ==> r.writer >> 96 == instance_id
            && r.writer & 0xffff_ffff_ffff_ffff_ffff_ffff == nanos,
{
    if loaded is None && nanos < 0x1_0000_0000_0000_0000_0000_0000 {
        let i = instance_id as u128;
        assert(((i << 96) ^ nanos) >> 96 == i && ((i << 96) ^ nanos)
            & 0xffff_ffff_ffff_ffff_ffff_ffff == nanos) by (bit_vector)
            requires
                i < 0x1_0000_0000,
                nanos < 0x1_0000_0000_0000_0000_0000_0000,
        ;
    }
}

/// A live memory that begins to wait is counted once more; one that is deleted is not counted.
pub proof fn waiting_memories_are_counted(states: Map<u64, MemoryState>, id: u64, s: MemoryState)
    requires
        !states.contains_key(id),
        states.dom().finite(),
    ensures
        pending_ids(states.insert(id, s)).len() == pending_ids(states).len() + (if s.embed_pending
            && !s.deleted {
            1int
        } else {
            0
        }),
        pending_ids(Map::empty()).len() == 0,
{
    broadcast use vstd::map::group_map_axioms, vstd::set::group_set_axioms;

    let before = pending_ids(states);
    let after = pending_ids(states.insert(id, s));
    assert(before.subset_of(states.dom()));
    vstd::set_lib::lemma_len_subset(before, states.dom());
    if s.embed_pending && !s.deleted {
        assert(after =~= before.insert(id));
    } else {
        assert(after =~= before);
    }
    assert(pending_ids(Map::empty()) =~= Set::empty());
}

/// A file that is named after a family and an extension is an orphan when the extension is that
/// of a sidecar and the family is not a live one.
pub proof fn sidecars_of_dead_families_are_orphans(
    name: &str,
    live: Vec<String>,
    family: Seq<char>,
    ext: Seq<char>,
    r: bool,
)
    requires
        call_ensures(is_orphaned, (name, &live), r),
        name@ == "chitta."@ + family + "."@ + ext,
        forall|i: int| 0 <= i < family.len() ==> family[i] != '.',
    ensures
        r ==> !views(live@).contains(family),
        !views(live@).contains(family) && (ext == "emb"@ || ext == "bin"@ || ext == "hnsw"@ || ext
            == "pld"@ || ext == "delta.hnsw"@ || ext == "snapshot.tmp"@ || ext == "lsh"@ || ext
            == "organs"@ || ext == "turbo"@ || ext == "turbo.meta"@) ==> r,
        ext == "snapshot"@ || ext == "mu"@ || ext == "shdr"@ ==> !r,
{
    reveal_strlit("chitta.");
    reveal_strlit("chitta");
    reveal_strlit(".");
    reveal_strlit("emb");
    reveal_strlit("bin");
    reveal_strlit("hnsw");
    reveal_strlit("pld");
    reveal_strlit("delta.hnsw");
    reveal_strlit("snapshot.tmp");
    reveal_strlit("lsh");
    reveal_strlit("organs");
    reveal_strlit("turbo");
    reveal_strlit("turbo.meta");
    reveal_strlit("snapshot");
    reveal_strlit("mu");
    reveal_strlit("shdr");
    let head = "chitta"@;
    let n = name@;
    assert(n =~= head.push('.') + (family.push('.') + ext));
    splitting_goes_part_by_part(head, family.push('.') + ext, '.');
    splitting_goes_part_by_part(family, ext, '.');
    whole_texts_are_one_piece(head, '.');
    whole_texts_are_one_piece(family, '.');
    pieces_fill(ext, '.');
    let parts = split_on(n, '.');
    assert(parts =~= seq![head] + (seq![family] + split_on(ext, '.')));
    assert(parts[0] == head);
    assert(parts[1] == family);
    assert(parts.len() >= 3);
    assert(n.take(7) =~= "chitta."@);
    assert(name_rest(n) =~= ext);
    if holds_text(live@, family) {
        let i = choose|i: int| 0 <= i < live@.len() && (#[trigger] live@[i])@ == family;
        assert(views(live@)[i] == family);
    }
    if views(live@).contains(family) {
        let i = views(live@).index_of(family);
        assert(live@[i]@ == family);
    }
    assert("snapshot"@.len() == 8);
    assert("snapshot.tmp"@.len() == 12);
    if ext == "shdr"@ {
        assert(ext[0] == 's');
        assert("hnsw"@[0] == 'h');
    }
}

/// A snapshot and a cortical snapshot are told apart by their names.
pub proof fn snapshot_names_tell_what_they_hold(middle: Seq<char>, name: Seq<char>)
    ensures
        snapshot_name("chitta."@ + middle + ".snapshot"@),
        cortex_name("cortex."@ + middle + ".snapshot"@),
        !(snapshot_name(name) && cortex_name(name)),
{
    reveal_strlit("chitta.");
    reveal_strlit("cortex.");
    reveal_strlit(".snapshot");
    let a = "chitta."@ + middle + ".snapshot"@;
    let b = "cortex."@ + middle + ".snapshot"@;
    assert(a.take(7) =~= "chitta."@);
    assert(b.take(7) =~= "cortex."@);
    assert(a.skip(a.len() - 9) =~= ".snapshot"@);
    assert(b.skip(b.len() - 9) =~= ".snapshot"@);
    assert("chitta."@[1] == 'h');
    assert("cortex."@[1] == 'o');
    if snapshot_name(name) && cortex_name(name) {
        assert(name.take(7)[1] == 'h');
        assert(name.take(7)[1] == 'o');
    }
}

} // verus!
