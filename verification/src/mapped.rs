//! Files that hold a mapped image: writing them, checking them, and looking memories up in them.
use crate::bytes::{
    get_le, le_bytes, le_bytes_len, le_value, put_all, put_le, read_after_write, spans,
    write_after_read,
};
use crate::image::{
    aligned, aligned_bounds, checksum, crc32, name16, pad_to, zero_padded, Image, ImageView,
    ALIGN, FORMAT_VERSION, HEADER_RESERVED, MAGIC, ROW, SECTION_ENTRY, TABLE_START,
};
use vstd::prelude::*;
use vstd::string::*;

verus! {

/// A section before it is placed in a file.
pub struct Body {
    pub name: [u8; 16],
    pub bytes: Vec<u8>,
    pub elem_size: u32,
    pub elem_count: u64,
}

/// An entry of the section table.
pub struct SectionDesc {
    pub name: [u8; 16],
    pub offset: u64,
    pub len: u64,
    pub elem_size: u32,
    pub elem_count: u64,
    pub checksum: u64,
    pub align: u32,
}

/// The bytes of an entry of the section table.
pub open spec fn desc_bytes(d: SectionDesc) -> Seq<u8> {
    d.name@ + le_bytes(d.offset as int, 8) + le_bytes(d.len as int, 8) + le_bytes(
        d.elem_size as int,
        4,
    ) + le_bytes(d.elem_count as int, 8) + le_bytes(d.checksum as int, 8) + le_bytes(d.align as int, 4)
}

/// Where the first of `count` sections begins.
pub open spec fn first_offset(count: int) -> int {
    let table = TABLE_START + count * SECTION_ENTRY;
    aligned(
        if table > HEADER_RESERVED {
            table
        } else {
            HEADER_RESERVED as int
        },
        ALIGN as int,
    )
}

/// Where section `i` begins; for the number of sections, where the next one would begin.
pub open spec fn offset_of(bodies: Seq<Body>, i: int) -> int
    decreases i,
{
    if i <= 0 {
        first_offset(bodies.len() as int)
    } else {
        aligned(offset_of(bodies, i - 1) + bodies[i - 1].bytes@.len(), ALIGN as int)
    }
}

/// The entry of section `i`.
pub open spec fn desc_of(bodies: Seq<Body>, i: int) -> SectionDesc {
    SectionDesc {
        name: bodies[i].name,
        offset: offset_of(bodies, i) as u64,
        len: bodies[i].bytes@.len() as u64,
        elem_size: bodies[i].elem_size,
        elem_count: bodies[i].elem_count,
        checksum: crc32(bodies[i].bytes@) as u64,
        align: ALIGN as u32,
    }
}

/// What stands in front of the section table.
pub open spec fn preamble(seqno: u64, count: int) -> Seq<u8> {
    le_bytes(MAGIC as int, 8) + le_bytes(FORMAT_VERSION as int, 4) + le_bytes(0, 4) + le_bytes(
        seqno as int,
        8,
    ) + le_bytes(count, 4)
}

/// The preamble and the first `n` entries of the section table.
pub open spec fn head_upto(seqno: u64, bodies: Seq<Body>, n: int) -> Seq<u8>
    decreases n,
{
    if n <= 0 {
        preamble(seqno, bodies.len() as int)
    } else {
        head_upto(seqno, bodies, n - 1) + desc_bytes(desc_of(bodies, n - 1))
    }
}

/// The file up to the end of its first `n` sections.
pub open spec fn file_upto(seqno: u64, bodies: Seq<Body>, n: int) -> Seq<u8>
    decreases n,
{
    if n <= 0 {
        zero_padded(
            head_upto(seqno, bodies, bodies.len() as int),
            first_offset(bodies.len() as int),
        )
    } else {
        zero_padded(file_upto(seqno, bodies, n - 1), offset_of(bodies, n - 1)) + bodies[n
            - 1].bytes@
    }
}

/// The file that holds the sections `bodies`.
pub open spec fn file_bytes(seqno: u64, bodies: Seq<Body>) -> Seq<u8> {
    file_upto(seqno, bodies, bodies.len() as int)
}

proof fn first_offset_bounds(count: int)
    requires
        count >= 0,
    ensures
        first_offset(count) >= HEADER_RESERVED,
        first_offset(count) >= TABLE_START + count * SECTION_ENTRY,
        first_offset(count) % (ALIGN as int) == 0,
        first_offset(count) == aligned(TABLE_START + count * SECTION_ENTRY, ALIGN as int),
{
    let table = TABLE_START + count * SECTION_ENTRY;
    aligned_bounds(table, ALIGN as int);
    aligned_bounds(HEADER_RESERVED as int, ALIGN as int);
}

pub(crate) proof fn offsets_grow(bodies: Seq<Body>, i: int, j: int)
    requires
        0 <= i <= j <= bodies.len(),
    ensures
        HEADER_RESERVED <= offset_of(bodies, i) <= offset_of(bodies, j),
        offset_of(bodies, i) % (ALIGN as int) == 0,
        i < j ==> offset_of(bodies, i) + bodies[i].bytes@.len() <= offset_of(bodies, j),
    decreases j,
{
    first_offset_bounds(bodies.len() as int);
    if i > 0 {
        offsets_grow(bodies, 0, i - 1);
        aligned_bounds(offset_of(bodies, i - 1) + bodies[i - 1].bytes@.len(), ALIGN as int);
    }
    if i < j {
        offsets_grow(bodies, i, j - 1);
        aligned_bounds(offset_of(bodies, j - 1) + bodies[j - 1].bytes@.len(), ALIGN as int);
    }
}

proof fn desc_len(d: SectionDesc)
    ensures
        desc_bytes(d).len() == SECTION_ENTRY,
{
    le_bytes_len(d.offset as int, 8);
    le_bytes_len(d.len as int, 8);
    le_bytes_len(d.elem_size as int, 4);
    le_bytes_len(d.elem_count as int, 8);
    le_bytes_len(d.checksum as int, 8);
    le_bytes_len(d.align as int, 4);
}

pub(crate) proof fn preamble_parts(seqno: u64, count: int)
    ensures
        preamble(seqno, count).len() == TABLE_START,
        preamble(seqno, count).subrange(0, 8) == le_bytes(MAGIC as int, 8),
        preamble(seqno, count).subrange(8, 12) == le_bytes(FORMAT_VERSION as int, 4),
        preamble(seqno, count).subrange(24, 28) == le_bytes(count, 4),
{
    le_bytes_len(MAGIC as int, 8);
    le_bytes_len(FORMAT_VERSION as int, 4);
    le_bytes_len(0, 4);
    le_bytes_len(seqno as int, 8);
    le_bytes_len(count, 4);
    let p = preamble(seqno, count);
    assert(p.subrange(0, 8) =~= le_bytes(MAGIC as int, 8));
    assert(p.subrange(8, 12) =~= le_bytes(FORMAT_VERSION as int, 4));
    assert(p.subrange(24, 28) =~= le_bytes(count, 4));
}

pub(crate) proof fn head_parts(seqno: u64, bodies: Seq<Body>, n: int)
    requires
        0 <= n <= bodies.len(),
    ensures
        head_upto(seqno, bodies, n).len() == TABLE_START + n * SECTION_ENTRY,
        head_upto(seqno, bodies, n).subrange(0, 28) == preamble(seqno, bodies.len() as int),
        forall|i: int|
            0 <= i < n ==> #[trigger] entry(head_upto(seqno, bodies, n), i) == desc_bytes(
                desc_of(bodies, i),
            ),
    decreases n,
{
    preamble_parts(seqno, bodies.len() as int);
    let h = head_upto(seqno, bodies, n);
    if n <= 0 {
        assert(h.subrange(0, 28) =~= h);
    } else {
        head_parts(seqno, bodies, n - 1);
        desc_len(desc_of(bodies, n - 1));
        let g = head_upto(seqno, bodies, n - 1);
        assert(h.subrange(0, 28) =~= g.subrange(0, 28));
        assert forall|i: int| 0 <= i < n implies #[trigger] entry(h, i) == desc_bytes(
            desc_of(bodies, i),
        ) by {
            if i < n - 1 {
                assert(entry(h, i) =~= entry(g, i));
            } else {
                assert(entry(h, i) =~= desc_bytes(desc_of(bodies, i)));
            }
        }
    }
}

/// The bytes of entry `i` of a section table.
pub open spec fn entry(map: Seq<u8>, i: int) -> Seq<u8> {
    map.subrange(TABLE_START + i * SECTION_ENTRY, TABLE_START + (i + 1) * SECTION_ENTRY)
}

pub(crate) proof fn file_parts(seqno: u64, bodies: Seq<Body>, n: int)
    requires
        0 <= n <= bodies.len(),
    ensures
        n == 0 ==> file_upto(seqno, bodies, n).len() == offset_of(bodies, 0),
        n > 0 ==> file_upto(seqno, bodies, n).len() == offset_of(bodies, n - 1) + bodies[n
            - 1].bytes@.len(),
        file_upto(seqno, bodies, n).len() >= TABLE_START + bodies.len() * SECTION_ENTRY,
        file_upto(seqno, bodies, n).take(TABLE_START + bodies.len() * SECTION_ENTRY) == head_upto(
            seqno,
            bodies,
            bodies.len() as int,
        ),
        forall|i: int|
            0 <= i < n ==> #[trigger] file_upto(seqno, bodies, n).subrange(
                offset_of(bodies, i),
                offset_of(bodies, i) + bodies[i].bytes@.len(),
            ) == bodies[i].bytes@,
    decreases n,
{
    let count = bodies.len() as int;
    let head = head_upto(seqno, bodies, count);
    head_parts(seqno, bodies, count);
    first_offset_bounds(count);
    let f = file_upto(seqno, bodies, n);
    if n <= 0 {
        assert(f.take(TABLE_START + count * SECTION_ENTRY) =~= head);
    } else {
        file_parts(seqno, bodies, n - 1);
        let g = file_upto(seqno, bodies, n - 1);
        let at = offset_of(bodies, n - 1);
        offsets_grow(bodies, 0, n - 1);
        if n > 1 {
            offsets_grow(bodies, n - 2, n - 1);
        }
        assert(g.len() <= at);
        assert(f.take(TABLE_START + count * SECTION_ENTRY) =~= g.take(
            TABLE_START + count * SECTION_ENTRY,
        ));
        assert forall|i: int| 0 <= i < n implies #[trigger] f.subrange(
            offset_of(bodies, i),
            offset_of(bodies, i) + bodies[i].bytes@.len(),
        ) == bodies[i].bytes@ by {
            let from = offset_of(bodies, i);
            let to = from + bodies[i].bytes@.len();
            if i < n - 1 {
                offsets_grow(bodies, i, n - 2);
                if i < n - 2 {
                    offsets_grow(bodies, i, n - 2);
                }
                assert(to <= g.len());
                assert(f.subrange(from, to) =~= g.subrange(from, to));
            } else {
                assert(f.subrange(from, to) =~= bodies[i].bytes@);
            }
        }
    }
}

/// Every entry of the section table can be written down.
pub open spec fn fits(bodies: Seq<Body>) -> bool {
    &&& offset_of(bodies, bodies.len() as int) <= usize::MAX
    &&& bodies.len() < 0x1_0000_0000
}

fn align_up(n: usize) -> (r: usize)
    requires
        aligned(n as int, ALIGN as int) <= usize::MAX,
    ensures
        r == aligned(n as int, ALIGN as int),
{
    let over: usize = n % ALIGN;
    proof {
        let a = ALIGN as int;
        let q = n as int / a;
        assert(n == q * 4096 + over);
        if over == 0 {
            assert((n + 4095) / 4096 == q);
        } else {
            assert((n + 4095) / 4096 == q + 1);
        }
    }
    if over == 0 {
        n
    } else {
        n - over + ALIGN
    }
}

/// Whether a file can hold the sections.
pub fn bodies_fit(bodies: &Vec<Body>) -> (r: bool)
    ensures
        r == fits(bodies@),
{
    let n: usize = bodies.len();
    if n as u64 >= 0x1_0000_0000 {
        return false;
    }
    proof {
        first_offset_bounds(n as int);
    }
    let table: u128 = TABLE_START as u128 + n as u128 * SECTION_ENTRY as u128;
    let mut offset: u128 = align_wide(
        if table > HEADER_RESERVED as u128 {
            table
        } else {
            HEADER_RESERVED as u128
        },
    );
    let mut i: usize = 0;
    while i < n
        invariant
            n == bodies.len(),
            i <= n,
            offset == offset_of(bodies@, i as int),
            bodies@.len() < 0x1_0000_0000,
        decreases n - i,
    {
        if offset > usize::MAX as u128 {
            proof {
                offsets_grow(bodies@, i as int, n as int);
            }
            return false;
        }
        offset = align_wide(offset + bodies[i].bytes.len() as u128);
        i = i + 1;
    }
    offset <= usize::MAX as u128
}

fn align_wide(n: u128) -> (r: u128)
    requires
        n <= 0x1_0000_0000_0000_0000_0000,
    ensures
        r == aligned(n as int, ALIGN as int),
{
    let over: u128 = n % (ALIGN as u128);
    proof {
        let q = n as int / 4096;
        assert(n == q * 4096 + over);
        if over == 0 {
            assert((n + 4095) / 4096 == q);
        } else {
            assert((n + 4095) / 4096 == q + 1);
        }
    }
    if over == 0 {
        n
    } else {
        n - over + ALIGN as u128
    }
}

/// The section table of `bodies`.
pub fn place(bodies: &Vec<Body>) -> (r: Vec<SectionDesc>)
    requires
        fits(bodies@),
    ensures
        r@.len() == bodies@.len(),
        forall|i: int| 0 <= i < r@.len() ==> #[trigger] r@[i] == desc_of(bodies@, i),
{
    let n: usize = bodies.len();
    proof {
        first_offset_bounds(n as int);
        offsets_grow(bodies@, 0, n as int);
    }
    let table: usize = TABLE_START + n * SECTION_ENTRY;
    let mut offset: usize = align_up(
        if table > HEADER_RESERVED {
            table
        } else {
            HEADER_RESERVED
        },
    );
    let mut descs: Vec<SectionDesc> = Vec::new();
    let mut i: usize = 0;
    while i < n
        invariant
            n == bodies.len(),
            i <= n,
            fits(bodies@),
            offset == offset_of(bodies@, i as int),
            descs.len() == i,
            forall|k: int| 0 <= k < i ==> #[trigger] descs@[k] == desc_of(bodies@, k),
        decreases n - i,
    {
        let b = &bodies[i];
        descs.push(
            SectionDesc {
                name: b.name,
                offset: offset as u64,
                len: b.bytes.len() as u64,
                elem_size: b.elem_size,
                elem_count: b.elem_count,
                checksum: checksum(b.bytes.as_slice()),
                align: ALIGN as u32,
            },
        );
        proof {
            offsets_grow(bodies@, i as int, i + 1);
            offsets_grow(bodies@, i + 1, n as int);
        }
        offset = align_up(offset + b.bytes.len());
        i = i + 1;
    }
    descs
}

/// The preamble and the section table, padded to a multiple of the alignment.
fn encode_head(seqno: u64, descs: &Vec<SectionDesc>, Ghost(bodies): Ghost<Seq<Body>>) -> (r: Vec<u8>)
    requires
        descs@.len() == bodies.len(),
        forall|i: int| 0 <= i < descs@.len() ==> #[trigger] descs@[i] == desc_of(bodies, i),
    ensures
        r@ == file_upto(seqno, bodies, 0),
{
    let n: usize = descs.len();
    let mut head: Vec<u8> = Vec::new();
    put_le(&mut head, MAGIC, 8);
    put_le(&mut head, FORMAT_VERSION as u64, 4);
    put_le(&mut head, 0, 4);
    put_le(&mut head, seqno, 8);
    put_le(&mut head, n as u64, 4);
    assert(head@ =~= preamble(seqno, n as int));
    let mut i: usize = 0;
    while i < n
        invariant
            n == descs.len(),
            n == bodies.len(),
            i <= n,
            forall|k: int| 0 <= k < descs@.len() ==> #[trigger] descs@[k] == desc_of(bodies, k),
            head@ == head_upto(seqno, bodies, i as int),
        decreases n - i,
    {
        let ghost was = head@;
        let d = &descs[i];
        put_all(&mut head, d.name.as_slice());
        put_le(&mut head, d.offset, 8);
        put_le(&mut head, d.len, 8);
        put_le(&mut head, d.elem_size as u64, 4);
        put_le(&mut head, d.elem_count, 8);
        put_le(&mut head, d.checksum, 8);
        put_le(&mut head, d.align as u64, 4);
        assert(head@ =~= was + desc_bytes(*d));
        i = i + 1;
    }
    proof {
        head_parts(seqno, bodies, n as int);
        first_offset_bounds(n as int);
    }
    pad_to(&mut head, ALIGN);
    head
}

/// The whole file that holds the sections `bodies`.
pub fn encode_file(seqno: u64, bodies: &Vec<Body>) -> (r: Vec<u8>)
    requires
        fits(bodies@),
    ensures
        r@ == file_bytes(seqno, bodies@),
{
    let descs = place(bodies);
    let mut out = encode_head(seqno, &descs, Ghost(bodies@));
    let n: usize = bodies.len();
    let mut i: usize = 0;
    while i < n
        invariant
            n == bodies.len(),
            n == descs.len(),
            i <= n,
            fits(bodies@),
            forall|k: int| 0 <= k < descs@.len() ==> #[trigger] descs@[k] == desc_of(bodies@, k),
            out@ == file_upto(seqno, bodies@, i as int),
        decreases n - i,
    {
        proof {
            file_parts(seqno, bodies@, i as int);
            offsets_grow(bodies@, 0, i as int);
            offsets_grow(bodies@, i as int, n as int);
            if i > 0 {
                offsets_grow(bodies@, i - 1, i as int);
            }
            assert(descs@[i as int] == desc_of(bodies@, i as int));
        }
        let goal: usize = descs[i].offset as usize;
        let ghost base = out@;
        assert(out@ =~= zero_padded(base, out@.len() as int));
        while out.len() < goal
            invariant
                base.len() <= out@.len() <= goal,
                out@ == zero_padded(base, out@.len() as int),
            decreases goal - out@.len(),
        {
            out.push(0);
            assert(out@ =~= zero_padded(base, out@.len() as int));
        }
        put_all(&mut out, bodies[i].bytes.as_slice());
        i = i + 1;
    }
    out
}

/// `bodies` are the four sections of an image of `memories` memories.
pub open spec fn sections_of(bodies: Seq<Body>, im: ImageView, memories: nat, row_len: int) -> bool {
    &&& bodies.len() == 4
    &&& bodies[0].name@ == zero_padded("state".spec_bytes(), 16)
    &&& bodies[0].bytes@ == im.state
    &&& bodies[0].elem_size == ROW
    &&& bodies[0].elem_count == memories
    &&& bodies[1].name@ == zero_padded("arena".spec_bytes(), 16)
    &&& bodies[1].bytes@ == im.arena
    &&& bodies[1].elem_size == 1
    &&& bodies[1].elem_count == im.arena.len()
    &&& bodies[2].name@ == zero_padded("emb".spec_bytes(), 16)
    &&& bodies[2].bytes@ == im.emb
    &&& bodies[2].elem_size == row_len as u32
    &&& bodies[2].elem_count == im.emb.len() as int / row_len
    &&& bodies[3].name@ == zero_padded("strings".spec_bytes(), 16)
    &&& bodies[3].bytes@ == crate::image::table_bytes(im.names)
    &&& bodies[3].elem_size == 1
    &&& bodies[3].elem_count == im.names.len()
}

proof fn section_names_are_short()
    ensures
        "state".spec_bytes().len() == 5,
        "arena".spec_bytes().len() == 5,
        "emb".spec_bytes().len() == 3,
        "strings".spec_bytes().len() == 7,
{
    broadcast use vstd::string::is_ascii_spec_bytes;

    reveal_strlit("state");
    reveal_strlit("arena");
    reveal_strlit("emb");
    reveal_strlit("strings");
    assert(is_ascii("state"));
    assert(is_ascii("arena"));
    assert(is_ascii("emb"));
    assert(is_ascii("strings"));
}

/// The sections of an image.
pub fn sections(im: Image, memories: usize, row_len: usize) -> (r: Vec<Body>)
    requires
        row_len > 0,
    ensures
        sections_of(r@, im@, memories as nat, row_len as int),
{
    proof {
        section_names_are_short();
    }
    let strings = im.names.encode();
    let names: u64 = im.names.order.len() as u64;
    let arena_len: u64 = im.arena.len() as u64;
    let rows: u64 = (im.emb.len() / row_len) as u64;
    let mut r: Vec<Body> = Vec::new();
    r.push(
        Body {
            name: name16("state"),
            bytes: im.state,
            elem_size: ROW as u32,
            elem_count: memories as u64,
        },
    );
    r.push(Body { name: name16("arena"), bytes: im.arena, elem_size: 1, elem_count: arena_len });
    r.push(Body { name: name16("emb"), bytes: im.emb, elem_size: row_len as u32, elem_count: rows });
    r.push(Body { name: name16("strings"), bytes: strings, elem_size: 1, elem_count: names });
    r
}

/// Why a file is not a mapped image.
#[derive(Clone, Copy, Debug, PartialEq, Eq, Structural)]
pub enum Fault {
    /// The file ends inside its header.
    Short,
    Magic,
    Version,
    /// A section reaches past the end of the file.
    Bounds,
    Misaligned,
    /// The length of a section disagrees with its elements.
    Elements,
    Checksum,
}

pub open spec fn sec_offset(map: Seq<u8>, i: int) -> int {
    le_value(entry(map, i).subrange(16, 24))
}

pub open spec fn sec_len(map: Seq<u8>, i: int) -> int {
    le_value(entry(map, i).subrange(24, 32))
}

pub open spec fn sec_elem_size(map: Seq<u8>, i: int) -> int {
    le_value(entry(map, i).subrange(32, 36))
}

pub open spec fn sec_elem_count(map: Seq<u8>, i: int) -> int {
    le_value(entry(map, i).subrange(36, 44))
}

pub open spec fn sec_checksum(map: Seq<u8>, i: int) -> int {
    le_value(entry(map, i).subrange(44, 52))
}

pub open spec fn sec_align(map: Seq<u8>, i: int) -> int {
    le_value(entry(map, i).subrange(52, 56))
}

/// The bytes of section `i`.
pub open spec fn sec_bytes(map: Seq<u8>, i: int) -> Seq<u8> {
    map.subrange(sec_offset(map, i), sec_offset(map, i) + sec_len(map, i))
}

/// What is wrong with entry `i` of the section table.
pub open spec fn entry_fault(map: Seq<u8>, i: int) -> Option<Fault> {
    if TABLE_START + (i + 1) * SECTION_ENTRY > map.len() {
        Some(Fault::Short)
    } else if sec_offset(map, i) + sec_len(map, i) > map.len() {
        Some(Fault::Bounds)
    } else if sec_align(map, i) == 0 || sec_offset(map, i) % sec_align(map, i) != 0 {
        Some(Fault::Misaligned)
    } else if sec_elem_size(map, i) > 1 && sec_len(map, i) != sec_elem_size(map, i) * sec_elem_count(
        map,
        i,
    ) {
        Some(Fault::Elements)
    } else {
        None
    }
}

/// What is wrong with the first faulty one of the first `n` entries.
pub open spec fn table_fault(map: Seq<u8>, n: int) -> Option<Fault>
    decreases n,
{
    if n <= 0 {
        None
    } else {
        match table_fault(map, n - 1) {
            Some(f) => Some(f),
            None => entry_fault(map, n - 1),
        }
    }
}

/// All of the first `n` sections have the checksum that the table gives.
pub open spec fn sums_agree(map: Seq<u8>, n: int) -> bool {
    forall|i: int| 0 <= i < n ==> crc32(#[trigger] sec_bytes(map, i)) == sec_checksum(map, i)
}

/// The number of sections that the header gives.
pub open spec fn section_count(map: Seq<u8>) -> int {
    le_value(map.subrange(24, 28))
}

/// What is wrong with a file. The checksums count only where `full` is set.
pub open spec fn map_fault(map: Seq<u8>, full: bool) -> Option<Fault> {
    if map.len() < 8 {
        Some(Fault::Short)
    } else if le_value(map.subrange(0, 8)) != MAGIC {
        Some(Fault::Magic)
    } else if map.len() < 12 {
        Some(Fault::Short)
    } else if le_value(map.subrange(8, 12)) != FORMAT_VERSION {
        Some(Fault::Version)
    } else if map.len() < TABLE_START {
        Some(Fault::Short)
    } else if table_fault(map, section_count(map)) is Some {
        table_fault(map, section_count(map))
    } else if full && !sums_agree(map, section_count(map)) {
        Some(Fault::Checksum)
    } else {
        None
    }
}

fn name_at(map: &[u8], at: usize) -> (r: [u8; 16])
    requires
        at + 16 <= map@.len(),
    ensures
        r@ == map@.subrange(at as int, at + 16),
{
    let n: usize = map.len();
    let mut name: [u8; 16] = [0u8; 16];
    let mut i: usize = 0;
    while i < 16
        invariant
            i <= 16,
            n == map@.len(),
            at + 16 <= n,
            forall|k: int| 0 <= k < i ==> name@[k] == map@[at + k],
        decreases 16 - i,
    {
        name[i] = map[at + i];
        i = i + 1;
    }
    assert(name@ =~= map@.subrange(at as int, at + 16));
    name
}

proof fn entry_piece(map: Seq<u8>, i: int, from: int, to: int)
    requires
        0 <= i,
        0 <= from <= to <= SECTION_ENTRY,
        TABLE_START + (i + 1) * SECTION_ENTRY <= map.len(),
    ensures
        entry(map, i).subrange(from, to) == map.subrange(
            TABLE_START + i * SECTION_ENTRY + from,
            TABLE_START + i * SECTION_ENTRY + to,
        ),
{
    assert(entry(map, i).subrange(from, to) =~= map.subrange(
        TABLE_START + i * SECTION_ENTRY + from,
        TABLE_START + i * SECTION_ENTRY + to,
    ));
}

/// Reads entry `i` of the section table.
fn read_desc(map: &[u8], i: usize) -> (d: SectionDesc)
    requires
        TABLE_START + (i + 1) * SECTION_ENTRY <= map@.len(),
    ensures
        desc_bytes(d) == entry(map@, i as int),
        d.offset == sec_offset(map@, i as int),
        d.len == sec_len(map@, i as int),
        d.elem_size == sec_elem_size(map@, i as int),
        d.elem_count == sec_elem_count(map@, i as int),
        d.checksum == sec_checksum(map@, i as int),
        d.align == sec_align(map@, i as int),
{
    let n: usize = map.len();
    let b: usize = TABLE_START + i * SECTION_ENTRY;
    let ghost e = entry(map@, i as int);
    proof {
        entry_piece(map@, i as int, 16, 24);
        entry_piece(map@, i as int, 24, 32);
        entry_piece(map@, i as int, 32, 36);
        entry_piece(map@, i as int, 36, 44);
        entry_piece(map@, i as int, 44, 52);
        entry_piece(map@, i as int, 52, 56);
        write_after_read(e.subrange(16, 24));
        write_after_read(e.subrange(24, 32));
        write_after_read(e.subrange(32, 36));
        write_after_read(e.subrange(36, 44));
        write_after_read(e.subrange(44, 52));
        write_after_read(e.subrange(52, 56));
        spans();
    }
    let d = SectionDesc {
        name: name_at(map, b),
        offset: get_le(map, b + 16, 8),
        len: get_le(map, b + 24, 8),
        elem_size: get_le(map, b + 32, 4) as u32,
        elem_count: get_le(map, b + 36, 8),
        checksum: get_le(map, b + 44, 8),
        align: get_le(map, b + 52, 4) as u32,
    };
    assert(desc_bytes(d) =~= e);
    d
}

/// A file whose section table was checked.
pub struct Mapped<'a> {
    pub map: &'a [u8],
    pub sections: Vec<SectionDesc>,
}

impl<'a> Mapped<'a> {
    /// Every section lies inside the file.
    pub open spec fn wf(&self) -> bool {
        forall|i: int|
            0 <= i < self.sections@.len() ==> (#[trigger] self.sections@[i]).offset
                + self.sections@[i].len <= self.map@.len()
    }

    /// The bytes of the first section that is called `name`.
    pub fn section(&self, name: &str) -> (r: Option<&[u8]>)
        requires
            self.wf(),
            name.spec_bytes().len() <= 16,
        ensures
            r is None ==> forall|i: int|
                0 <= i < self.sections@.len() ==> (#[trigger] self.sections@[i]).name@ != zero_padded(
                    name.spec_bytes(),
                    16,
                ),
            r matches Some(s) ==> exists|i: int|
                {
                    &&& 0 <= i < self.sections@.len()
                    &&& (#[trigger] self.sections@[i]).name@ == zero_padded(name.spec_bytes(), 16)
                    &&& s@ == self.map@.subrange(
                        self.sections@[i].offset as int,
                        self.sections@[i].offset + self.sections@[i].len,
                    )
                    &&& forall|j: int|
                        0 <= j < i ==> (#[trigger] self.sections@[j]).name@ != zero_padded(
                            name.spec_bytes(),
                            16,
                        )
                },
    {
        let want = name16(name);
        let n: usize = self.sections.len();
        let size: usize = self.map.len();
        let mut i: usize = 0;
        while i < n
            invariant
                n == self.sections@.len(),
                size == self.map@.len(),
                i <= n,
                self.wf(),
                want@ == zero_padded(name.spec_bytes(), 16),
                forall|j: int|
                    0 <= j < i ==> (#[trigger] self.sections@[j]).name@ != zero_padded(
                        name.spec_bytes(),
                        16,
                    ),
            decreases n - i,
        {
            let d = &self.sections[i];
            if crate::text::bytes_eq(d.name.as_slice(), want.as_slice()) {
                assert(self.sections@[i as int].name@ == want@);
                let from: usize = d.offset as usize;
                let to: usize = (d.offset + d.len) as usize;
                return Some(vstd::slice::slice_subrange(self.map, from, to));
            }
            i = i + 1;
        }
        None
    }
}

/// Checks the header, the section table and, where `full` is set, the checksums of a file.
pub fn map_and_validate<'a>(map: &'a [u8], full: bool) -> (r: Result<Mapped<'a>, Fault>)
    ensures
        match r {
            Ok(m) => {
                &&& map_fault(map@, full) is None
                &&& m.wf()
                &&& m.map@ == map@
                &&& m.sections@.len() == section_count(map@)
                &&& forall|i: int|
                    0 <= i < m.sections@.len() ==> desc_bytes(#[trigger] m.sections@[i]) == entry(
                        map@,
                        i,
                    )
            },
            Err(e) => map_fault(map@, full) == Some(e),
        },
{
    let size: usize = map.len();
    if size < 8 {
        return Err(Fault::Short);
    }
    if get_le(map, 0, 8) != MAGIC {
        return Err(Fault::Magic);
    }
    if size < 12 {
        return Err(Fault::Short);
    }
    if get_le(map, 8, 4) != FORMAT_VERSION as u64 {
        return Err(Fault::Version);
    }
    if size < TABLE_START {
        return Err(Fault::Short);
    }
    proof {
        write_after_read(map@.subrange(24, 28));
        spans();
    }
    let count: u64 = get_le(map, 24, 4);
    let mut sections: Vec<SectionDesc> = Vec::new();
    let mut i: u64 = 0;
    while i < count
        invariant
            size == map@.len(),
            count == section_count(map@),
            count < 0x1_0000_0000,
            size >= TABLE_START,
            le_value(map@.subrange(0, 8)) == MAGIC,
            le_value(map@.subrange(8, 12)) == FORMAT_VERSION,
            i <= count,
            i <= usize::MAX,
            sections@.len() == i,
            table_fault(map@, i as int) is None,
            forall|k: int|
                0 <= k < i ==> {
                    &&& desc_bytes(#[trigger] sections@[k]) == entry(map@, k)
                    &&& sections@[k].offset == sec_offset(map@, k)
                    &&& sections@[k].len == sec_len(map@, k)
                    &&& sections@[k].checksum == sec_checksum(map@, k)
                    &&& sections@[k].offset + sections@[k].len <= map@.len()
                },
        ensures
            i == count,
        decreases count - i,
    {
        assert((i + 1) * (SECTION_ENTRY as u64) <= 0x1_0000_0000 * 56) by (nonlinear_arith)
            requires
                i + 1 <= 0x1_0000_0000,
                SECTION_ENTRY as u64 == 56,
        ;
        if TABLE_START as u64 + (i + 1) * SECTION_ENTRY as u64 > size as u64 {
            proof {
                fault_is_first(map@, i as int, count as int);
            }
            return Err(Fault::Short);
        }
        let d = read_desc(map, i as usize);
        if d.offset > u64::MAX - d.len || d.offset + d.len > size as u64 {
            proof {
                fault_is_first(map@, i as int, count as int);
            }
            return Err(Fault::Bounds);
        }
        if d.align == 0 || d.offset % d.align as u64 != 0 {
            proof {
                fault_is_first(map@, i as int, count as int);
            }
            return Err(Fault::Misaligned);
        }
        proof {
            let size = d.elem_size as int;
            let items = d.elem_count as int;
            assert(0 <= size * items <= 0xFFFF_FFFF * 0xFFFF_FFFF_FFFF_FFFF) by (nonlinear_arith)
                requires
                    0 <= size <= 0xFFFF_FFFF,
                    0 <= items <= 0xFFFF_FFFF_FFFF_FFFF,
            ;
        }
        if d.elem_size > 1 && d.len as u128 != d.elem_size as u128 * d.elem_count as u128 {
            proof {
                fault_is_first(map@, i as int, count as int);
            }
            return Err(Fault::Elements);
        }
        sections.push(d);
        i = i + 1;
    }
    let m = Mapped { map, sections };
    if full {
        let n: usize = m.sections.len();
        let mut k: usize = 0;
        while k < n
            invariant
                size == map@.len(),
                m.map@ == map@,
                n == m.sections@.len(),
                n == section_count(map@),
                k <= n,
                m.wf(),
                forall|j: int|
                    0 <= j < n ==> {
                        &&& (#[trigger] m.sections@[j]).offset == sec_offset(map@, j)
                        &&& m.sections@[j].len == sec_len(map@, j)
                        &&& m.sections@[j].checksum == sec_checksum(map@, j)
                    },
                sums_agree(map@, k as int),
                map.len() >= TABLE_START,
                le_value(map@.subrange(0, 8)) == MAGIC,
                le_value(map@.subrange(8, 12)) == FORMAT_VERSION,
                table_fault(map@, section_count(map@)) is None,
                full,
            decreases n - k,
        {
            let d = &m.sections[k];
            assert(m.sections@[k as int].offset == sec_offset(map@, k as int));
            let body = vstd::slice::slice_subrange(map, d.offset as usize, (d.offset + d.len) as usize);
            assert(body@ == sec_bytes(map@, k as int));
            if checksum(body) != d.checksum {
                assert(!sums_agree(map@, n as int));
                return Err(Fault::Checksum);
            }
            k = k + 1;
        }
    }
    Ok(m)
}

proof fn fault_is_first(map: Seq<u8>, i: int, n: int)
    requires
        0 <= i < n,
        table_fault(map, i) is None,
        entry_fault(map, i) is Some,
    ensures
        table_fault(map, n) == entry_fault(map, i),
    decreases n,
{
    if i < n - 1 {
        fault_is_first(map, i, n - 1);
    }
}

/// How many bytes at either end of a section are sampled.
pub const SAMPLE: usize = 65536;

/// The checksums of the first and the last bytes of a section, combined.
pub fn sampled(body: &[u8]) -> (r: u64)
    ensures
        ({
            let n = if body@.len() < SAMPLE {
                body@.len() as int
            } else {
                SAMPLE as int
            };
            r == (crc32(body@.take(n)) as u64) ^ (crc32(body@.skip(body@.len() - n)) as u64)
        }),
{
    let len: usize = body.len();
    let n: usize = if len < SAMPLE {
        len
    } else {
        SAMPLE
    };
    let head = vstd::slice::slice_subrange(body, 0, n);
    let tail = vstd::slice::slice_subrange(body, len - n, len);
    assert(head@ =~= body@.take(n as int));
    assert(tail@ =~= body@.skip(len - n));
    checksum(head) ^ checksum(tail)
}

/// A file begins with its mark, the version of its form, the sequence number and the number of its
/// sections.
pub proof fn files_begin_with_their_facts(seqno: u64, bodies: Seq<Body>)
    requires
        bodies.len() < 0x1_0000_0000,
    ensures
        ({
            let file = file_bytes(seqno, bodies);
            &&& le_value(file.subrange(0, 8)) == 0x3432_565F_4154_5443
            &&& le_value(file.subrange(8, 12)) == 1
            &&& le_value(file.subrange(16, 24)) == seqno
            &&& le_value(file.subrange(24, 28)) == bodies.len()
        }),
{
    let n = bodies.len() as int;
    let file = file_bytes(seqno, bodies);
    file_parts(seqno, bodies, n);
    head_parts(seqno, bodies, n);
    preamble_parts(seqno, n);
    spans();
    let head = file.take(TABLE_START + n * SECTION_ENTRY);
    let p = preamble(seqno, n);
    assert(head.subrange(0, 28) == p);
    assert(file.subrange(0, 28) =~= head.subrange(0, 28));
    le_bytes_len(MAGIC as int, 8);
    le_bytes_len(FORMAT_VERSION as int, 4);
    le_bytes_len(0, 4);
    le_bytes_len(seqno as int, 8);
    le_bytes_len(n, 4);
    assert(p.subrange(16, 24) =~= le_bytes(seqno as int, 8));
    assert(file.subrange(0, 8) =~= file.subrange(0, 28).subrange(0, 8));
    assert(file.subrange(8, 12) =~= file.subrange(0, 28).subrange(8, 12));
    assert(file.subrange(16, 24) =~= file.subrange(0, 28).subrange(16, 24));
    assert(file.subrange(24, 28) =~= file.subrange(0, 28).subrange(24, 28));
    read_after_write(MAGIC as int, 8);
    read_after_write(FORMAT_VERSION as int, 4);
    read_after_write(seqno as int, 8);
    read_after_write(n, 4);
}

/// Every section begins at a multiple of 4096 behind the first 4096 bytes, holds what it was given,
/// and ends before the next one begins.
pub proof fn sections_lie_apart(seqno: u64, bodies: Seq<Body>, i: int, j: int)
    requires
        0 <= i < j < bodies.len(),
    ensures
        ({
            let file = file_bytes(seqno, bodies);
            let at = offset_of(bodies, i);
            &&& at >= 4096 && at % 4096 == 0
            &&& file.subrange(at, at + bodies[i].bytes@.len()) == bodies[i].bytes@
            &&& at + bodies[i].bytes@.len() <= offset_of(bodies, j)
            &&& offset_of(bodies, j) + bodies[j].bytes@.len() <= file.len()
        }),
{
    let n = bodies.len() as int;
    file_parts(seqno, bodies, n);
    offsets_grow(bodies, i, j);
    offsets_grow(bodies, j, n - 1);
    if j < n - 1 {
        assert(offset_of(bodies, j) + bodies[j].bytes@.len() <= offset_of(bodies, n - 1));
    }
}

proof fn entries_without_fault(map: Seq<u8>, n: int, i: int)
    requires
        0 <= i < n,
        table_fault(map, n) is None,
    ensures
        entry_fault(map, i) is None,
    decreases n,
{
    if i < n - 1 {
        entries_without_fault(map, n - 1, i);
    }
}

/// A file that passes begins with the mark and the version, and each of its sections lies inside
/// it, begins where its alignment wants it, has the elements that it claims and, where the checksums
/// count, the checksum that the table gives.
pub proof fn passing_files_are_sound(map: Seq<u8>, full: bool, i: int)
    requires
        map_fault(map, full) is None,
    ensures
        map.len() >= 28,
        le_value(map.subrange(0, 8)) == 0x3432_565F_4154_5443,
        le_value(map.subrange(8, 12)) == 1,
        0 <= i < le_value(map.subrange(24, 28)) ==> {
            let e = map.subrange(28 + i * 56, 28 + (i + 1) * 56);
            let at = le_value(e.subrange(16, 24));
            let len = le_value(e.subrange(24, 32));
            let size = le_value(e.subrange(32, 36));
            let count = le_value(e.subrange(36, 44));
            let align = le_value(e.subrange(52, 56));
            &&& 28 + (i + 1) * 56 <= map.len()
            &&& at + len <= map.len()
            &&& align != 0 && at % align == 0
            &&& size > 1 ==> len == size * count
            &&& full ==> crc32(map.subrange(at, at + len)) == le_value(e.subrange(44, 52))
        },
{
    if 0 <= i < section_count(map) {
        entries_without_fault(map, section_count(map), i);
        if full {
            assert(crc32(sec_bytes(map, i)) == sec_checksum(map, i));
        }
    }
}

/// Each fault of the header is told by its own name, and a wrong mark before a wrong version.
pub proof fn header_faults_are_told(map: Seq<u8>, full: bool)
    ensures
        map.len() < 8 ==> map_fault(map, full) == Some(Fault::Short),
        map.len() >= 8 && le_value(map.subrange(0, 8)) != 0x3432_565F_4154_5443 ==> map_fault(map, full)
            == Some(Fault::Magic),
        map.len() >= 12 && le_value(map.subrange(0, 8)) == 0x3432_565F_4154_5443 && le_value(
            map.subrange(8, 12),
        ) != 1 ==> map_fault(map, full) == Some(Fault::Version),
        8 <= map.len() < 28 && le_value(map.subrange(0, 8)) == 0x3432_565F_4154_5443 && (map.len() < 12
            || le_value(map.subrange(8, 12)) == 1) ==> map_fault(map, full) == Some(Fault::Short),
        map_fault(map, true) == Some(Fault::Checksum) ==> map_fault(map, false) is None,
        map_fault(map, false) != Some(Fault::Checksum),
{
    assert(table_fault(map, section_count(map)) != Some(Fault::Checksum)) by {
        tables_have_no_sums(map, section_count(map));
    }
}

proof fn tables_have_no_sums(map: Seq<u8>, n: int)
    ensures
        table_fault(map, n) != Some(Fault::Checksum),
    decreases n,
{
    if n > 0 {
        tables_have_no_sums(map, n - 1);
    }
}

/// The sections of an image stand under their own names: the states in rows of 64 bytes, the arena
/// of contents, the embeddings in rows of their length, and the names.
pub proof fn sections_are_called_by_name(bodies: Seq<Body>, im: ImageView, memories: nat, row_len: int)
    requires
        sections_of(bodies, im, memories, row_len),
        0 < row_len <= u32::MAX,
    ensures
        bodies.len() == 4,
        bodies[0].name@.take(5) == "state".spec_bytes() && bodies[0].bytes@ == im.state,
        bodies[0].elem_size == 64 && bodies[0].elem_count == memories,
        bodies[1].name@.take(5) == "arena".spec_bytes() && bodies[1].bytes@ == im.arena,
        bodies[1].elem_size == 1 && bodies[1].elem_count == im.arena.len(),
        bodies[2].name@.take(3) == "emb".spec_bytes() && bodies[2].bytes@ == im.emb,
        bodies[2].elem_size == row_len && bodies[2].elem_count == im.emb.len() as int / row_len,
        bodies[3].name@.take(7) == "strings".spec_bytes(),
        bodies[3].elem_count == im.names.len(),
{
    section_names_are_short();
    assert(bodies[0].name@.take(5) =~= "state".spec_bytes());
    assert(bodies[1].name@.take(5) =~= "arena".spec_bytes());
    assert(bodies[2].name@.take(3) =~= "emb".spec_bytes());
    assert(bodies[3].name@.take(7) =~= "strings".spec_bytes());
}

/// A section of at most 65536 bytes is sampled whole, twice; of a longer one both ends are sampled.
pub proof fn both_ends_are_sampled(body: &[u8], r: u64)
    requires
        call_ensures(sampled, (body,), r),
    ensures
        body@.len() <= 65536 ==> r == (crc32(body@) as u64) ^ (crc32(body@) as u64),
        body@.len() > 65536 ==> r == (crc32(body@.subrange(0, 65536)) as u64) ^ (crc32(
            body@.subrange(body@.len() - 65536, body@.len() as int),
        ) as u64),
{
    let n = body@.len() as int;
    if n <= 65536 {
        assert(body@.take(n) =~= body@);
        assert(body@.skip(0) =~= body@);
    } else {
        assert(body@.take(65536) =~= body@.subrange(0, 65536));
        assert(body@.skip(n - 65536) =~= body@.subrange(n - 65536, n));
    }
}

} // verus!
