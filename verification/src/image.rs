//! The mapped image of a store: fixed-width arrays behind a table of sections.
use crate::bytes::{le_bytes, put_all, put_le};
use crate::table::{key_list, lists_keys};
use crate::text::{str_eq, views, views_push};
use std::collections::BTreeMap;
use vstd::prelude::*;
use vstd::string::*;
use vstd::utf8::*;

verus! {

pub const MAGIC: u64 = 0x3432_565F_4154_5443;

pub const FORMAT_VERSION: u32 = 1;

/// Bytes in a row of the state table.
pub const ROW: usize = 64;

pub const HEADER_RESERVED: usize = 4096;

/// Bytes in an entry of the section table.
pub const SECTION_ENTRY: usize = 56;

/// Bytes in front of the section table.
pub const TABLE_START: usize = 28;

pub const ALIGN: usize = 4096;

/// The row of a memory without an embedding.
pub const NO_EMBEDDING: u32 = 0xFFFF_FFFF;

/// The checksum of a byte string.
pub uninterp spec fn crc32(bytes: Seq<u8>) -> u32;

/// `crc32fast::Hasher`, fed `bytes` at once and finalized: the CRC-32 of `bytes`.
#[verifier::external_body]
fn crc32_of(bytes: &[u8]) -> (r: u32)
    ensures
        r == crc32(bytes@),
{
    let mut h = crc32fast::Hasher::new();
    h.update(bytes);
    h.finalize()
}

/// The checksum of a section.
pub fn checksum(bytes: &[u8]) -> (r: u64)
    ensures
        r == crc32(bytes@) as u64,
{
    crc32_of(bytes) as u64
}

/// `s` followed by zeros up to length `n`.
pub open spec fn zero_padded(s: Seq<u8>, n: int) -> Seq<u8> {
    s + Seq::new(
        if n > s.len() {
            (n - s.len()) as nat
        } else {
            0
        },
        |i: int| 0u8,
    )
}

/// A section name as sixteen bytes, padded with zeros.
pub fn name16(s: &str) -> (r: [u8; 16])
    requires
        s.spec_bytes().len() <= 16,
    ensures
        r@ == zero_padded(s.spec_bytes(), 16),
{
    let b = s.as_bytes();
    let mut out: [u8; 16] = [0u8; 16];
    let n: usize = b.len();
    let mut i: usize = 0;
    while i < n
        invariant
            n == b@.len(),
            n <= 16,
            i <= n,
            forall|k: int| 0 <= k < i ==> out@[k] == b@[k],
            forall|k: int| i <= k < 16 ==> out@[k] == 0,
        decreases n - i,
    {
        out[i] = b[i];
        i = i + 1;
    }
    assert(out@ =~= zero_padded(s.spec_bytes(), 16));
    out
}

/// Names that are stored once each and referred to by number.
pub struct Interner {
    pub order: Vec<String>,
}

/// The names after `s` was added.
pub open spec fn interned(names: Seq<Seq<char>>, s: Seq<char>) -> Seq<Seq<char>> {
    if names.contains(s) {
        names
    } else {
        names.push(s)
    }
}

/// The number of a name.
pub open spec fn name_id(names: Seq<Seq<char>>, s: Seq<char>) -> u32 {
    names.index_of(s) as u32
}

/// No name occurs twice.
pub open spec fn distinct(names: Seq<Seq<char>>) -> bool {
    forall|i: int, j: int| 0 <= i < j < names.len() ==> names[i] != names[j]
}

/// A name with its length in front.
pub open spec fn name_bytes(s: Seq<char>) -> Seq<u8> {
    le_bytes(encode_utf8(s).len() as int, 4) + encode_utf8(s)
}

pub open spec fn names_bytes(names: Seq<Seq<char>>) -> Seq<u8>
    decreases names.len(),
{
    if names.len() == 0 {
        Seq::empty()
    } else {
        names_bytes(names.drop_last()) + name_bytes(names.last())
    }
}

/// A table of names: their number, then each name.
pub open spec fn table_bytes(names: Seq<Seq<char>>) -> Seq<u8> {
    le_bytes(names.len() as int, 4) + names_bytes(names)
}

/// A name that was numbered keeps its number.
pub proof fn numbers_are_stable(names: Seq<Seq<char>>, s: Seq<char>, t: Seq<char>)
    requires
        distinct(names),
        names.contains(s),
    ensures
        name_id(interned(names, t), s) == name_id(names, s),
        distinct(interned(names, t)),
{
    let more = interned(names, t);
    let i = names.index_of(s);
    let j = more.index_of(s);
    assert(more[i] == s);
    assert(more.contains(s));
    assert(i == j);
}

impl View for Interner {
    type V = Seq<Seq<char>>;

    open spec fn view(&self) -> Seq<Seq<char>> {
        views(self.order@)
    }
}

impl Interner {
    pub open spec fn wf(&self) -> bool {
        distinct(self@)
    }

    pub fn new() -> (r: Self)
        ensures
            r@ == Seq::<Seq<char>>::empty(),
            r.wf(),
    {
        let r = Interner { order: Vec::new() };
        assert(r@ =~= Seq::<Seq<char>>::empty());
        r
    }

    /// The number of `s`, which is added when it is new.
    pub fn intern(&mut self, s: &str) -> (id: u32)
        requires
            old(self).wf(),
        ensures
            final(self).wf(),
            final(self)@ == interned(old(self)@, s@),
            final(self)@.contains(s@),
            id == name_id(final(self)@, s@),
    {
        let n: usize = self.order.len();
        let mut i: usize = 0;
        while i < n
            invariant
                n == self.order.len(),
                i <= n,
                self.wf(),
                *self == *old(self),
                forall|k: int| 0 <= k < i ==> #[trigger] self@[k] != s@,
            decreases n - i,
        {
            assert(self@[i as int] == self.order@[i as int]@);
            if str_eq(self.order[i].as_str(), s) {
                assert(self@.contains(s@));
                assert(self@.index_of(s@) == i as int);
                return i as u32;
            }
            i = i + 1;
        }
        let copy = s.to_owned();
        proof {
            views_push(self.order@, copy);
        }
        self.order.push(copy);
        proof {
            assert(!old(self)@.contains(s@));
            assert(self@ == old(self)@.push(s@));
            assert(self@[n as int] == s@);
            assert(self@.contains(s@));
            assert(self@.index_of(s@) == n as int);
        }
        n as u32
    }

    pub fn encode(&self) -> (r: Vec<u8>)
        ensures
            r@ == table_bytes(self@),
    {
        let mut out: Vec<u8> = Vec::new();
        let n: usize = self.order.len();
        put_le(&mut out, n as u64, 4);
        let ghost head = out@;
        let mut i: usize = 0;
        assert(self@.take(0) =~= Seq::<Seq<char>>::empty());
        assert(out@ =~= head + names_bytes(self@.take(0)));
        while i < n
            invariant
                n == self.order.len(),
                i <= n,
                out@ == head + names_bytes(self@.take(i as int)),
            decreases n - i,
        {
            let ghost was = out@;
            let b = self.order[i].as_str().as_bytes();
            put_le(&mut out, b.len() as u64, 4);
            put_all(&mut out, b);
            proof {
                let now = self@.take(i + 1);
                assert(now.drop_last() =~= self@.take(i as int));
                assert(now.last() == self.order@[i as int]@);
                assert(out@ =~= was + name_bytes(now.last()));
                assert(out@ =~= head + names_bytes(now));
            }
            i = i + 1;
        }
        assert(self@.take(n as int) =~= self@);
        assert(head =~= le_bytes(n as int, 4));
        out
    }
}

/// The next multiple of `align`.
pub open spec fn aligned(n: int, align: int) -> int {
    (n + align - 1) / align * align
}

/// Appends zeros until the length is a multiple of `align`.
pub fn pad_to(out: &mut Vec<u8>, align: usize)
    requires
        align > 0,
    ensures
        final(out)@ == zero_padded(old(out)@, aligned(old(out)@.len() as int, align as int)),
{
    let ghost start = out@.len() as int;
    let ghost goal = aligned(start, align as int);
    proof {
        aligned_bounds(start, align as int);
    }
    assert(out@ =~= zero_padded(old(out)@, out@.len() as int));
    while out.len() % align != 0
        invariant
            align > 0,
            start == old(out)@.len(),
            goal == aligned(start, align as int),
            start <= out@.len() <= goal,
            out@ == zero_padded(old(out)@, out@.len() as int),
        decreases goal - out@.len(),
    {
        proof {
            aligned_bounds(start, align as int);
        }
        out.push(0);
        assert(out@ =~= zero_padded(old(out)@, out@.len() as int));
    }
    proof {
        aligned_unique(start, align as int, out@.len() as int);
    }
}

pub proof fn aligned_bounds(n: int, align: int)
    requires
        n >= 0,
        align > 0,
    ensures
        n <= aligned(n, align) < n + align,
        aligned(n, align) % align == 0,
{
    let q = (n + align - 1) / align;
    assert(q * align == align * q) by (nonlinear_arith);
    vstd::arithmetic::div_mod::lemma_fundamental_div_mod(n + align - 1, align);
    vstd::arithmetic::div_mod::lemma_mod_bound(n + align - 1, align);
    vstd::arithmetic::div_mod::lemma_mod_multiples_basic(q, align);
}

/// The only multiple of `align` from `n` up to the next one is the next one.
proof fn aligned_unique(n: int, align: int, m: int)
    requires
        n >= 0,
        align > 0,
        n <= m <= aligned(n, align),
        m % align == 0,
    ensures
        m == aligned(n, align),
{
    aligned_bounds(n, align);
    let a = aligned(n, align);
    if m < a {
        vstd::arithmetic::div_mod::lemma_fundamental_div_mod(a, align);
        vstd::arithmetic::div_mod::lemma_fundamental_div_mod(m, align);
        let x = a / align;
        let y = m / align;
        assert(x > y) by (nonlinear_arith)
            requires
                align * x > align * y,
                align > 0,
        ;
        assert(align * x >= align * y + align) by (nonlinear_arith)
            requires
                x >= y + 1,
                align > 0,
        ;
    }
}

/// What the image keeps of a memory's state.
pub struct StateFacts {
    pub deleted: bool,
    pub strength: u32,
    pub confidence: u32,
}

/// What the image keeps of a memory's payload.
pub struct PayloadFacts {
    pub realm: String,
    pub kind: String,
    pub content: Vec<u8>,
    pub created_at_ms: i64,
    pub authored_at_ms: i64,
    pub candidate: bool,
}

/// A loaded snapshot, as far as the image is made from it.
pub struct Family {
    pub seqno: u64,
    pub states: BTreeMap<u64, StateFacts>,
    pub payloads: BTreeMap<u64, PayloadFacts>,
    pub ack_scores: BTreeMap<u64, i32>,
    /// The bytes of the embeddings.
    pub embeddings: BTreeMap<u64, Vec<u8>>,
}

/// A row of the state table.
pub struct Row {
    pub id: u64,
    pub realm_id: u32,
    pub kind_id: u32,
    pub created_at_ms: i64,
    pub authored_at_ms: i64,
    pub flags: u32,
    pub ack: i32,
    pub content_off: u64,
    pub content_len: u32,
    pub emb_row: u32,
    pub strength: u32,
    pub confidence: u32,
}

/// The first half of a row.
pub open spec fn row_front(r: Row) -> Seq<u8> {
    le_bytes(r.id as int, 8) + le_bytes(r.realm_id as int, 4) + le_bytes(r.kind_id as int, 4)
        + le_bytes((r.created_at_ms as u64) as int, 8) + le_bytes((r.authored_at_ms as u64) as int, 8)
}

/// The second half of a row.
pub open spec fn row_back(r: Row) -> Seq<u8> {
    le_bytes(r.flags as int, 4) + le_bytes((r.ack as u32) as int, 4) + le_bytes(r.content_off as int, 8)
        + le_bytes(r.content_len as int, 4) + le_bytes(r.emb_row as int, 4) + le_bytes(
        r.strength as int,
        4,
    ) + le_bytes(r.confidence as int, 4)
}

pub open spec fn row_bytes(r: Row) -> Seq<u8> {
    row_front(r) + row_back(r)
}

fn put_row(out: &mut Vec<u8>, r: &Row)
    ensures
        final(out)@ == old(out)@ + row_bytes(*r),
{
    put_le(out, r.id, 8);
    put_le(out, r.realm_id as u64, 4);
    put_le(out, r.kind_id as u64, 4);
    put_le(out, r.created_at_ms as u64, 8);
    put_le(out, r.authored_at_ms as u64, 8);
    assert(out@ =~= old(out)@ + row_front(*r));
    put_le(out, r.flags as u64, 4);
    put_le(out, (r.ack as u32) as u64, 4);
    put_le(out, r.content_off, 8);
    put_le(out, r.content_len as u64, 4);
    put_le(out, r.emb_row as u64, 4);
    put_le(out, r.strength as u64, 4);
    put_le(out, r.confidence as u64, 4);
    assert(out@ =~= old(out)@ + row_bytes(*r));
}

/// The contents of the four sections.
pub struct Image {
    pub state: Vec<u8>,
    pub arena: Vec<u8>,
    pub emb: Vec<u8>,
    pub names: Interner,
}

/// The contents of the four sections, mathematically.
#[verifier::ext_equal]
pub ghost struct ImageView {
    pub state: Seq<u8>,
    pub arena: Seq<u8>,
    pub emb: Seq<u8>,
    pub names: Seq<Seq<char>>,
}

impl View for Image {
    type V = ImageView;

    open spec fn view(&self) -> ImageView {
        ImageView { state: self.state@, arena: self.arena@, emb: self.emb@, names: self.names@ }
    }
}

impl Family {
    pub open spec fn realm_of(&self, id: u64) -> Seq<char> {
        if self.payloads@.contains_key(id) {
            self.payloads@[id].realm@
        } else {
            Seq::empty()
        }
    }

    pub open spec fn kind_of(&self, id: u64) -> Seq<char> {
        if self.payloads@.contains_key(id) {
            self.payloads@[id].kind@
        } else {
            Seq::empty()
        }
    }

    pub open spec fn content_of(&self, id: u64) -> Seq<u8> {
        if self.payloads@.contains_key(id) {
            self.payloads@[id].content@
        } else {
            Seq::empty()
        }
    }

    /// Bit 0 marks a deleted memory, bit 1 a candidate.
    pub open spec fn flags_of(&self, id: u64) -> u32 {
        let deleted: u32 = if self.states@[id].deleted {
            1
        } else {
            0
        };
        let candidate: u32 = if self.payloads@.contains_key(id) && self.payloads@[id].candidate {
            2
        } else {
            0
        };
        (deleted + candidate) as u32
    }

    pub open spec fn emb_of(&self, id: u64) -> Seq<u8> {
        if self.embeddings@.contains_key(id) {
            self.embeddings@[id]@
        } else {
            Seq::empty()
        }
    }

    /// The row that is added to `im` for memory `id`.
    pub open spec fn row_of(&self, im: ImageView, row_len: int, id: u64) -> Row {
        let with_realm = interned(im.names, self.realm_of(id));
        let with_kind = interned(with_realm, self.kind_of(id));
        Row {
            id,
            realm_id: name_id(with_realm, self.realm_of(id)),
            kind_id: name_id(with_kind, self.kind_of(id)),
            created_at_ms: if self.payloads@.contains_key(id) {
                self.payloads@[id].created_at_ms
            } else {
                0
            },
            authored_at_ms: if self.payloads@.contains_key(id) {
                self.payloads@[id].authored_at_ms
            } else {
                0
            },
            flags: self.flags_of(id),
            ack: if self.ack_scores@.contains_key(id) {
                self.ack_scores@[id]
            } else {
                0
            },
            content_off: im.arena.len() as u64,
            content_len: self.content_of(id).len() as u32,
            emb_row: if self.embeddings@.contains_key(id) {
                (im.emb.len() as int / row_len) as u32
            } else {
                NO_EMBEDDING
            },
            strength: self.states@[id].strength,
            confidence: self.states@[id].confidence,
        }
    }

    /// `im` with memory `id` added.
    pub open spec fn grown(&self, im: ImageView, row_len: int, id: u64) -> ImageView {
        ImageView {
            state: im.state + row_bytes(self.row_of(im, row_len, id)),
            arena: im.arena + self.content_of(id),
            emb: im.emb + self.emb_of(id),
            names: interned(interned(im.names, self.realm_of(id)), self.kind_of(id)),
        }
    }

    /// The image of the memories `ids`.
    pub open spec fn image(&self, row_len: int, ids: Seq<u64>) -> ImageView
        decreases ids.len(),
    {
        if ids.len() == 0 {
            ImageView {
                state: Seq::empty(),
                arena: Seq::empty(),
                emb: Seq::empty(),
                names: Seq::empty(),
            }
        } else {
            self.grown(self.image(row_len, ids.drop_last()), row_len, ids.last())
        }
    }
}

/// Makes the arrays of the image; `row_len` is the number of bytes in an embedding.
pub fn build_arrays(f: &Family, row_len: usize) -> (r: (Vec<u64>, Image))
    requires
        row_len > 0,
    ensures
        lists_keys(r.0@, f.states@),
        r.1@ == f.image(row_len as int, r.0@),
        r.1.names.wf(),
{
    broadcast use vstd::std_specs::btree::group_btree_axioms;

    let ids = key_list(&f.states);
    let mut im = Image {
        state: Vec::new(),
        arena: Vec::new(),
        emb: Vec::new(),
        names: Interner::new(),
    };
    let n: usize = ids.len();
    let mut i: usize = 0;
    assert(ids@.take(0) =~= Seq::<u64>::empty());
    assert(im@ =~= f.image(row_len as int, ids@.take(0)));
    while i < n
        invariant
            n == ids.len(),
            i <= n,
            row_len > 0,
            lists_keys(ids@, f.states@),
            im@ == f.image(row_len as int, ids@.take(i as int)),
            im.names.wf(),
        decreases n - i,
    {
        let id: u64 = ids[i];
        proof {
            assert(f.states@.contains_key(ids@[i as int]));
            assert(ids@.take(i + 1).drop_last() =~= ids@.take(i as int));
        }
        add_memory(f, &mut im, row_len, id);
        i = i + 1;
    }
    assert(ids@.take(n as int) =~= ids@);
    (ids, im)
}

fn add_memory(f: &Family, im: &mut Image, row_len: usize, id: u64)
    requires
        row_len > 0,
        f.states@.contains_key(id),
        old(im).names.wf(),
    ensures
        final(im)@ == f.grown(old(im)@, row_len as int, id),
        final(im).names.wf(),
{
    broadcast use vstd::std_specs::btree::group_btree_axioms;

    let st = f.states.get(&id).unwrap();
    let pl = f.payloads.get(&id);
    let content_off: u64 = im.arena.len() as u64;
    let mut created_at_ms: i64 = 0;
    let mut authored_at_ms: i64 = 0;
    let mut flags: u32 = if st.deleted {
        1
    } else {
        0
    };
    let realm_id: u32;
    let kind_id: u32;
    let content_len: u32;
    match pl {
        Some(p) => {
            realm_id = im.names.intern(p.realm.as_str());
            kind_id = im.names.intern(p.kind.as_str());
            put_all(&mut im.arena, p.content.as_slice());
            content_len = p.content.len() as u32;
            created_at_ms = p.created_at_ms;
            authored_at_ms = p.authored_at_ms;
            if p.candidate {
                flags = flags + 2;
            }
        },
        None => {
            proof {
                reveal_strlit("");
                assert(""@ =~= Seq::<char>::empty());
            }
            realm_id = im.names.intern("");
            kind_id = im.names.intern("");
            content_len = 0;
        },
    }
    let emb_row: u32;
    match f.embeddings.get(&id) {
        Some(v) => {
            emb_row = (im.emb.len() / row_len) as u32;
            put_all(&mut im.emb, v.as_slice());
        },
        None => {
            emb_row = NO_EMBEDDING;
        },
    }
    let ack: i32 = match f.ack_scores.get(&id) {
        Some(a) => *a,
        None => 0,
    };
    let row = Row {
        id,
        realm_id,
        kind_id,
        created_at_ms,
        authored_at_ms,
        flags,
        ack,
        content_off,
        content_len,
        emb_row,
        strength: st.strength,
        confidence: st.confidence,
    };
    put_row(&mut im.state, &row);
    proof {
        let o = old(im)@;
        let want = f.row_of(o, row_len as int, id);
        assert(row.content_len == want.content_len);
        assert(row.emb_row == want.emb_row);
        assert(row == want);
        assert(im.arena@ =~= o.arena + f.content_of(id));
        assert(im.emb@ =~= o.emb + f.emb_of(id));
        assert(im@ =~= f.grown(o, row_len as int, id));
    }
}

/// A table of names gives their number and then each name, with the number of its bytes in front.
pub proof fn name_tables_spell_names(names: Seq<Seq<char>>, s: Seq<char>)
    ensures
        names_bytes(Seq::empty()).len() == 0,
        names_bytes(names.push(s)) == names_bytes(names) + le_bytes(encode_utf8(s).len() as int, 4)
            + encode_utf8(s),
        table_bytes(names) == le_bytes(names.len() as int, 4) + names_bytes(names),
{
    assert(names.push(s).drop_last() =~= names);
    assert(names_bytes(names.push(s)) =~= names_bytes(names) + le_bytes(encode_utf8(s).len() as int, 4)
        + encode_utf8(s));
}

/// A padded name begins with the name and goes on with zeros.
pub proof fn names_are_padded_with_zeros(s: Seq<u8>, n: int, i: int)
    requires
        s.len() <= n,
        0 <= i < n,
    ensures
        zero_padded(s, n).len() == n,
        i < s.len() ==> zero_padded(s, n)[i] == s[i],
        i >= s.len() ==> zero_padded(s, n)[i] == 0,
{
}

} // verus!
