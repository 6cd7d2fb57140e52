//! Looking memories up in a mapped image.
use crate::bytes::{
    cut, get_le, le_bytes, le_bytes_len, le_value, read_after_write, spans, write_after_read,
};
use crate::image::{
    crc32, distinct, interned, row_bytes, row_front, Family, ImageView, Row, MAGIC, FORMAT_VERSION, NO_EMBEDDING, ROW,
    SECTION_ENTRY, TABLE_START,
};
use crate::mapped::{
    desc_bytes, desc_of, entry, entry_fault, file_bytes, file_parts, fits, head_parts, map_fault,
    offset_of, offsets_grow, preamble_parts, sec_align, sec_bytes, sec_checksum, sec_elem_count,
    sec_elem_size, sec_len, sec_offset, section_count, sections_of, table_fault, Body,
    SectionDesc,
};
use std::collections::BTreeMap;
use vstd::prelude::*;

verus! {

/// A number in row `i` of a state table.
pub open spec fn row_field(state: Seq<u8>, i: int, at: int, width: int) -> int {
    le_value(state.subrange(ROW * i + at, ROW * i + at + width))
}

pub open spec fn id_at(state: Seq<u8>, i: int) -> int {
    row_field(state, i, 0, 8)
}

pub open spec fn flags_at(state: Seq<u8>, i: int) -> int {
    row_field(state, i, 32, 4)
}

pub open spec fn off_at(state: Seq<u8>, i: int) -> int {
    row_field(state, i, 40, 8)
}

pub open spec fn len_at(state: Seq<u8>, i: int) -> int {
    row_field(state, i, 48, 4)
}

pub open spec fn emb_at(state: Seq<u8>, i: int) -> int {
    row_field(state, i, 52, 4)
}

/// The number of rows of a state table.
pub open spec fn row_count(state: Seq<u8>) -> int {
    state.len() as int / ROW as int
}

/// The rows are ordered by id, and no id occurs twice.
pub open spec fn ordered(state: Seq<u8>) -> bool {
    forall|i: int, j: int|
        0 <= i < j < row_count(state) ==> #[trigger] id_at(state, i) < #[trigger] id_at(state, j)
}

/// The memory of row `i` is deleted.
pub open spec fn deleted_at(state: Seq<u8>, i: int) -> bool {
    flags_at(state, i) % 2 == 1
}

/// What row `i` refers to exists.
pub open spec fn refers(state: Seq<u8>, arena: Seq<u8>, emb: Seq<u8>, row_len: int, i: int) -> bool {
    &&& off_at(state, i) + len_at(state, i) <= arena.len()
    &&& emb_at(state, i) != NO_EMBEDDING ==> (emb_at(state, i) + 1) * row_len <= emb.len()
}

/// The content that row `i` refers to.
pub open spec fn content_at(state: Seq<u8>, arena: Seq<u8>, i: int) -> Seq<u8> {
    arena.subrange(off_at(state, i), off_at(state, i) + len_at(state, i))
}

/// The embedding that row `i` refers to.
pub open spec fn embedding_at(state: Seq<u8>, emb: Seq<u8>, row_len: int, i: int) -> Seq<u8> {
    emb.subrange(emb_at(state, i) * row_len, (emb_at(state, i) + 1) * row_len)
}

/// What a look at row `i` adds up to: the length of the content and the outer bytes of the
/// embedding, or nothing for a deleted memory.
pub open spec fn peeked(state: Seq<u8>, arena: Seq<u8>, emb: Seq<u8>, row_len: int, i: int) -> int {
    if deleted_at(state, i) {
        0
    } else {
        let e = embedding_at(state, emb, row_len, i);
        len_at(state, i) + if emb_at(state, i) != NO_EMBEDDING {
            e[0] + e[row_len - 1]
        } else {
            0
        }
    }
}

proof fn row_fits(state: Seq<u8>, i: int)
    requires
        0 <= i < row_count(state),
    ensures
        ROW * i + ROW <= state.len(),
{
}

/// The row of memory `id`. In a table that is not ordered it may be missed.
pub fn find_row(state: &[u8], id: u64) -> (r: Option<usize>)
    ensures
        r matches Some(i) ==> i < row_count(state@) && id_at(state@, i as int) == id,
        ordered(state@) && r is None ==> forall|i: int|
            0 <= i < row_count(state@) ==> #[trigger] id_at(state@, i) != id,
{
    let size: usize = state.len();
    let rows: usize = size / ROW;
    let mut lo: usize = 0;
    let mut hi: usize = rows;
    while lo < hi
        invariant
            size == state@.len(),
            rows == row_count(state@),
            lo <= hi <= rows,
            ordered(state@) ==> forall|i: int| 0 <= i < lo ==> #[trigger] id_at(state@, i) < id,
            ordered(state@) ==> forall|i: int| hi <= i < rows ==> #[trigger] id_at(state@, i) > id,
        decreases hi - lo,
    {
        let mid: usize = lo + (hi - lo) / 2;
        proof {
            row_fits(state@, mid as int);
        }
        let k: u64 = get_le(state, mid * ROW, 8);
        assert(k == id_at(state@, mid as int));
        if k < id {
            lo = mid + 1;
        } else if k > id {
            hi = mid;
        } else {
            return Some(mid);
        }
    }
    None
}

/// Every row whose memory is not deleted refers to what exists.
pub open spec fn all_refer(state: Seq<u8>, arena: Seq<u8>, emb: Seq<u8>, row_len: int) -> bool {
    forall|i: int|
        0 <= i < row_count(state) && !deleted_at(state, i) ==> #[trigger] refers(
            state,
            arena,
            emb,
            row_len,
            i,
        )
}

/// Whether every row whose memory is not deleted refers to what exists.
pub fn rows_refer(state: &[u8], arena: &[u8], emb: &[u8], row_len: usize) -> (r: bool)
    ensures
        r == all_refer(state@, arena@, emb@, row_len as int),
{
    let size: usize = state.len();
    let rows: usize = size / ROW;
    let mut i: usize = 0;
    while i < rows
        invariant
            size == state@.len(),
            rows == row_count(state@),
            i <= rows,
            forall|k: int|
                0 <= k < i && !deleted_at(state@, k) ==> #[trigger] refers(
                    state@,
                    arena@,
                    emb@,
                    row_len as int,
                    k,
                ),
        decreases rows - i,
    {
        proof {
            row_fits(state@, i as int);
        }
        let at: usize = i * ROW;
        let flags: u64 = get_le(state, at + 32, 4);
        let off: u64 = get_le(state, at + 40, 8);
        let len: u64 = get_le(state, at + 48, 4);
        let row: u64 = get_le(state, at + 52, 4);
        assert(flags == flags_at(state@, i as int));
        assert(off == off_at(state@, i as int));
        assert(len == len_at(state@, i as int));
        assert(row == emb_at(state@, i as int));
        let held: bool = off as u128 + len as u128 <= arena.len() as u128;
        proof {
            let n = row as int + 1;
            let w = row_len as int;
            assert(0 <= n * w <= 0x1_0000_0000_0000_0000 * 0x1_0000_0000_0000_0000 - 1) by (nonlinear_arith)
                requires
                    0 <= n <= 0x1_0000_0000_0000_0000,
                    0 <= w <= 0xffff_ffff_ffff_ffff,
            ;
        }
        let there: bool = row == NO_EMBEDDING as u64 || (row as u128 + 1) * (row_len as u128)
            <= emb.len() as u128;
        if flags % 2 == 0 && !(held && there) {
            assert(!deleted_at(state@, i as int) && !refers(state@, arena@, emb@, row_len as int, i as int));
            return false;
        }
        i = i + 1;
    }
    true
}

/// Looks memory `id` up. `row_len` is the number of bytes in an embedding.
pub fn peek(state: &[u8], arena: &[u8], emb: &[u8], row_len: usize, id: u64) -> (r: usize)
    requires
        row_len > 0,
        all_refer(state@, arena@, emb@, row_len as int),
        arena@.len() + 510 <= usize::MAX,
    ensures
        r == 0 || exists|i: int|
            {
                &&& 0 <= i < row_count(state@)
                &&& #[trigger] id_at(state@, i) == id
                &&& r == peeked(state@, arena@, emb@, row_len as int, i)
            },
        ordered(state@) ==> forall|i: int|
            0 <= i < row_count(state@) && #[trigger] id_at(state@, i) == id ==> r == peeked(
                state@,
                arena@,
                emb@,
                row_len as int,
                i,
            ),
{
    let size: usize = state.len();
    let arena_len: usize = arena.len();
    let emb_len: usize = emb.len();
    match find_row(state, id) {
        None => 0,
        Some(i) => {
            proof {
                row_fits(state@, i as int);
                assert forall|j: int|
                    ordered(state@) && 0 <= j < row_count(state@) && #[trigger] id_at(state@, j)
                        == id implies j == i by {
                    if j < i {
                        assert(id_at(state@, j) < id_at(state@, i as int));
                    } else if j > i {
                        assert(id_at(state@, i as int) < id_at(state@, j));
                    }
                }
            }
            let at: usize = i * ROW;
            let flags: u64 = get_le(state, at + 32, 4);
            assert(flags == flags_at(state@, i as int));
            if flags % 2 == 1 {
                return 0;
            }
            assert(!deleted_at(state@, i as int));
            assert(refers(state@, arena@, emb@, row_len as int, i as int));
            let off: u64 = get_le(state, at + 40, 8);
            let len: u64 = get_le(state, at + 48, 4);
            let row: u64 = get_le(state, at + 52, 4);
            assert(off == off_at(state@, i as int));
            assert(len == len_at(state@, i as int));
            assert(row == emb_at(state@, i as int));
            let content = cut(arena, off as usize, (off + len) as usize);
            let mut acc: usize = content.len();
            if row != NO_EMBEDDING as u64 {
                proof {
                    write_after_read(state@.subrange(ROW * i + 52, ROW * i + 56));
                    spans();
                    let n = row as int;
                    let w = row_len as int;
                    assert(n * w >= 0) by (nonlinear_arith)
                        requires
                            n >= 0,
                            w > 0,
                    ;
                    assert((n + 1) * w == n * w + w) by (nonlinear_arith);
                }
                let base: usize = row as usize * row_len;
                let ghost e = embedding_at(state@, emb@, row_len as int, i as int);
                assert(e[0] == emb@[base as int]);
                assert(e[row_len - 1] == emb@[base + row_len - 1]);
                acc = acc + emb[base] as usize + emb[base + row_len - 1] as usize;
            }
            acc
        },
    }
}

/// The generator's next state.
pub open spec fn lcg_next(s: u64) -> u64 {
    ((s * 6364136223846793005 + 1442695040888963407) % 0x1_0000_0000_0000_0000) as u64
}

/// The next pseudo-random number.
pub fn lcg(s: &mut u64) -> (r: u64)
    ensures
        *final(s) == lcg_next(*old(s)),
        r == *final(s) >> 11,
{
    let scaled: u64 = s.wrapping_mul(6364136223846793005);
    proof {
        reduce_before_adding(
            *s * 6364136223846793005,
            1442695040888963407,
            0x1_0000_0000_0000_0000,
        );
    }
    *s = scaled.wrapping_add(1442695040888963407);
    *s >> 11
}

proof fn reduce_before_adding(x: int, c: int, m: int)
    requires
        0 <= c < m,
    ensures
        (x % m + c) % m == (x + c) % m,
{
    vstd::arithmetic::div_mod::lemma_add_mod_noop(x, c, m);
    vstd::arithmetic::div_mod::lemma_small_mod(c as nat, m as nat);
}

/// The generator's state after `n` steps.
pub open spec fn lcg_after(seed: u64, n: int) -> u64
    decreases n,
{
    if n <= 0 {
        seed
    } else {
        lcg_next(lcg_after(seed, n - 1))
    }
}

/// The ids of `lookups` rows that the generator picks.
pub fn sample_ids(state: &[u8], lookups: usize, seed: u64) -> (r: Vec<u64>)
    requires
        lookups > 0 ==> row_count(state@) > 0,
    ensures
        r@.len() == lookups,
        forall|k: int|
            0 <= k < lookups ==> #[trigger] r@[k] == id_at(
                state@,
                ((lcg_after(seed, k + 1) >> 11) as usize) as int % row_count(state@),
            ),
{
    let size: usize = state.len();
    let rows: usize = size / ROW;
    let mut s: u64 = seed;
    let mut out: Vec<u64> = Vec::new();
    let mut k: usize = 0;
    while k < lookups
        invariant
            size == state@.len(),
            rows == row_count(state@),
            lookups > 0 ==> rows > 0,
            k <= lookups,
            s == lcg_after(seed, k as int),
            out@.len() == k,
            forall|j: int|
                0 <= j < k ==> #[trigger] out@[j] == id_at(
                    state@,
                    ((lcg_after(seed, j + 1) >> 11) as usize) as int % row_count(state@),
                ),
        decreases lookups - k,
    {
        let pick: usize = lcg(&mut s) as usize % rows;
        proof {
            row_fits(state@, pick as int);
        }
        out.push(get_le(state, pick * ROW, 8));
        k = k + 1;
    }
    out
}

/// The records of an embedding sidecar, the first `n` of them: a number of bytes for each id, of
/// which a later record replaces an earlier one. Reading ends with the file.
pub open spec fn sidecar(bytes: Seq<u8>, row_len: int, n: int) -> Map<u64, Seq<u8>>
    decreases n,
{
    let end = 16 + n * (8 + row_len);
    if n <= 0 {
        Map::empty()
    } else if end > bytes.len() {
        sidecar(bytes, row_len, n - 1)
    } else {
        let at = end - 8 - row_len;
        sidecar(bytes, row_len, n - 1).insert(
            le_value(bytes.subrange(at, at + 8)) as u64,
            bytes.subrange(at + 8, end),
        )
    }
}

/// The number of records that a sidecar claims to have.
pub open spec fn sidecar_count(bytes: Seq<u8>) -> int {
    if bytes.len() < 16 {
        0
    } else {
        le_value(bytes.subrange(8, 16))
    }
}

/// The view of a map of byte strings.
pub open spec fn byte_map(m: Map<u64, Vec<u8>>) -> Map<u64, Seq<u8>> {
    m.map_values(|v: Vec<u8>| v@)
}

proof fn sidecar_ends(bytes: Seq<u8>, row_len: int, k: int, n: int)
    requires
        0 <= k <= n,
        row_len >= 0,
        k < n ==> 16 + (k + 1) * (8 + row_len) > bytes.len(),
    ensures
        sidecar(bytes, row_len, n) == sidecar(bytes, row_len, k),
    decreases n,
{
    if k < n {
        sidecar_ends(bytes, row_len, k, n - 1);
        assert(16 + n * (8 + row_len) >= 16 + (k + 1) * (8 + row_len)) by (nonlinear_arith)
            requires
                n >= k + 1,
                row_len >= 0,
        ;
    }
}

/// Reads an embedding sidecar.
pub fn parse_emb_sidecar(bytes: &[u8], row_len: usize) -> (r: BTreeMap<u64, Vec<u8>>)
    ensures
        byte_map(r@) == sidecar(bytes@, row_len as int, sidecar_count(bytes@)),
{
    broadcast use vstd::std_specs::btree::group_btree_axioms;

    let size: usize = bytes.len();
    let mut out: BTreeMap<u64, Vec<u8>> = BTreeMap::new();
    assert(byte_map(out@) =~= Map::<u64, Seq<u8>>::empty());
    if size < 16 {
        return out;
    }
    let count: u64 = get_le(bytes, 8, 8);
    let mut off: usize = 16;
    let mut k: u64 = 0;
    while k < count && size - off >= 8 && size - off - 8 >= row_len
        invariant
            size == bytes@.len(),
            size >= 16,
            count == sidecar_count(bytes@),
            k <= count,
            16 <= off <= size,
            off == 16 + k * (8 + row_len),
            byte_map(out@) == sidecar(bytes@, row_len as int, k as int),
        decreases count - k,
    {
        proof {
            write_after_read(bytes@.subrange(off as int, off + 8));
            spans();
            let j = k as int;
            let w = row_len as int;
            assert((j + 1) * (8 + w) == j * (8 + w) + 8 + w) by (nonlinear_arith);
        }
        let ghost was = out@;
        let id: u64 = get_le(bytes, off, 8);
        let v = cut(bytes, off + 8, off + 8 + row_len);
        out.insert(id, v);
        assert(byte_map(out@) =~= byte_map(was).insert(id, v@));
        off = off + 8 + row_len;
        k = k + 1;
    }
    proof {
        if k < count {
            let j = k as int;
            let w = row_len as int;
            assert((j + 1) * (8 + w) == j * (8 + w) + 8 + w) by (nonlinear_arith);
        }
        sidecar_ends(bytes@, row_len as int, k as int, count as int);
    }
    out
}

/// Reading an entry of the section table gives back what was written.
proof fn desc_reads_back(map: Seq<u8>, i: int, d: SectionDesc)
    requires
        entry(map, i) == desc_bytes(d),
    ensures
        sec_offset(map, i) == d.offset,
        sec_len(map, i) == d.len,
        sec_elem_size(map, i) == d.elem_size,
        sec_elem_count(map, i) == d.elem_count,
        sec_checksum(map, i) == d.checksum,
        sec_align(map, i) == d.align,
{
    let e = desc_bytes(d);
    spans();
    le_bytes_len(d.offset as int, 8);
    le_bytes_len(d.len as int, 8);
    le_bytes_len(d.elem_size as int, 4);
    le_bytes_len(d.elem_count as int, 8);
    le_bytes_len(d.checksum as int, 8);
    le_bytes_len(d.align as int, 4);
    read_after_write(d.offset as int, 8);
    read_after_write(d.len as int, 8);
    read_after_write(d.elem_size as int, 4);
    read_after_write(d.elem_count as int, 8);
    read_after_write(d.checksum as int, 8);
    read_after_write(d.align as int, 4);
    assert(e.subrange(16, 24) =~= le_bytes(d.offset as int, 8));
    assert(e.subrange(24, 32) =~= le_bytes(d.len as int, 8));
    assert(e.subrange(32, 36) =~= le_bytes(d.elem_size as int, 4));
    assert(e.subrange(36, 44) =~= le_bytes(d.elem_count as int, 8));
    assert(e.subrange(44, 52) =~= le_bytes(d.checksum as int, 8));
    assert(e.subrange(52, 56) =~= le_bytes(d.align as int, 4));
}

/// The sections have the elements that they claim.
pub open spec fn counted(bodies: Seq<Body>) -> bool {
    forall|i: int|
        0 <= i < bodies.len() && (#[trigger] bodies[i]).elem_size > 1 ==> bodies[i].bytes@.len()
            == bodies[i].elem_size * bodies[i].elem_count
}

/// A file that was written passes every check, and its sections are those that were written.
pub proof fn written_files_validate(seqno: u64, bodies: Seq<Body>, full: bool)
    requires
        fits(bodies),
        counted(bodies),
    ensures
        map_fault(file_bytes(seqno, bodies), full) is None,
        section_count(file_bytes(seqno, bodies)) == bodies.len(),
        forall|i: int|
            0 <= i < bodies.len() ==> {
                &&& #[trigger] entry(file_bytes(seqno, bodies), i) == desc_bytes(desc_of(bodies, i))
                &&& sec_bytes(file_bytes(seqno, bodies), i) == bodies[i].bytes@
            },
{
    let n = bodies.len() as int;
    let map = file_bytes(seqno, bodies);
    let table = TABLE_START + n * SECTION_ENTRY;
    head_parts(seqno, bodies, n);
    preamble_parts(seqno, n);
    file_parts(seqno, bodies, n);
    let head = map.take(table);
    spans();
    assert(map.subrange(0, 8) =~= head.subrange(0, 28).subrange(0, 8));
    assert(map.subrange(8, 12) =~= head.subrange(0, 28).subrange(8, 12));
    assert(map.subrange(24, 28) =~= head.subrange(0, 28).subrange(24, 28));
    read_after_write(MAGIC as int, 8);
    read_after_write(FORMAT_VERSION as int, 4);
    read_after_write(n, 4);
    assert forall|i: int| 0 <= i < n implies {
        &&& #[trigger] entry(map, i) == desc_bytes(desc_of(bodies, i))
        &&& sec_bytes(map, i) == bodies[i].bytes@
        &&& entry_fault(map, i) is None
        &&& sec_checksum(map, i) == crc32(sec_bytes(map, i))
    } by {
        entry_is_sound(seqno, bodies, i);
    }
    no_fault(map, n);
}

proof fn entry_is_sound(seqno: u64, bodies: Seq<Body>, i: int)
    requires
        fits(bodies),
        counted(bodies),
        0 <= i < bodies.len(),
    ensures
        entry(file_bytes(seqno, bodies), i) == desc_bytes(desc_of(bodies, i)),
        sec_bytes(file_bytes(seqno, bodies), i) == bodies[i].bytes@,
        entry_fault(file_bytes(seqno, bodies), i) is None,
        sec_checksum(file_bytes(seqno, bodies), i) == crc32(bodies[i].bytes@),
{
    let n = bodies.len() as int;
    let map = file_bytes(seqno, bodies);
    let table = TABLE_START + n * SECTION_ENTRY;
    head_parts(seqno, bodies, n);
    file_parts(seqno, bodies, n);
    let head = map.take(table);
    assert(TABLE_START + (i + 1) * SECTION_ENTRY <= table);
    assert(entry(map, i) =~= entry(head, i));
    let d = desc_of(bodies, i);
    desc_reads_back(map, i, d);
    offsets_grow(bodies, i, n);
    offsets_grow(bodies, i, n - 1);
    if i < n - 1 {
        offsets_grow(bodies, i, n - 1);
    }
    assert(d.offset == offset_of(bodies, i));
    assert(d.len == bodies[i].bytes@.len());
    assert(map.subrange(
        offset_of(bodies, i),
        offset_of(bodies, i) + bodies[i].bytes@.len(),
    ) == bodies[i].bytes@);
    assert(sec_offset(map, i) % sec_align(map, i) == 0);
    assert(bodies[i].elem_size > 1 ==> bodies[i].bytes@.len() == bodies[i].elem_size
        * bodies[i].elem_count);
}

proof fn no_fault(map: Seq<u8>, n: int)
    requires
        forall|i: int| 0 <= i < n ==> #[trigger] entry_fault(map, i) is None,
    ensures
        table_fault(map, n) is None,
    decreases n,
{
    if n > 0 {
        no_fault(map, n - 1);
        assert(entry_fault(map, n - 1) is None);
    }
}

/// Row `i` of an image is that of memory `id`, and everything it refers to is that memory's.
pub open spec fn stored(f: Family, im: ImageView, row_len: int, i: int, id: u64) -> bool {
    &&& id_at(im.state, i) == id
    &&& flags_at(im.state, i) == f.flags_of(id)
    &&& refers(im.state, im.arena, im.emb, row_len, i)
    &&& content_at(im.state, im.arena, i) == f.content_of(id)
    &&& if f.embeddings@.contains_key(id) {
        emb_at(im.state, i) != NO_EMBEDDING && embedding_at(im.state, im.emb, row_len, i)
            == f.emb_of(id)
    } else {
        emb_at(im.state, i) == NO_EMBEDDING
    }
}

/// The sizes that a row can hold.
pub open spec fn representable(f: Family, im: ImageView, row_len: int, ids: Seq<u64>) -> bool {
    &&& row_len > 0
    &&& im.arena.len() <= u64::MAX
    &&& im.emb.len() < row_len * NO_EMBEDDING
    &&& forall|i: int|
        0 <= i < ids.len() ==> f.content_of(#[trigger] ids[i]).len() <= u32::MAX
    &&& forall|i: int|
        0 <= i < ids.len() && f.embeddings@.contains_key(#[trigger] ids[i]) ==> f.emb_of(ids[i]).len()
            == row_len
}

proof fn row_len_is_fixed(r: Row)
    ensures
        row_bytes(r).len() == ROW,
        row_front(r).len() == 32,
{
    le_bytes_len(r.id as int, 8);
    le_bytes_len(r.realm_id as int, 4);
    le_bytes_len(r.kind_id as int, 4);
    le_bytes_len((r.created_at_ms as u64) as int, 8);
    le_bytes_len((r.authored_at_ms as u64) as int, 8);
    le_bytes_len(r.flags as int, 4);
    le_bytes_len((r.ack as u32) as int, 4);
    le_bytes_len(r.content_off as int, 8);
    le_bytes_len(r.content_len as int, 4);
    le_bytes_len(r.emb_row as int, 4);
    le_bytes_len(r.strength as int, 4);
    le_bytes_len(r.confidence as int, 4);
}

/// Reading a row gives back what was written.
proof fn row_reads_back(state: Seq<u8>, i: int, r: Row)
    requires
        0 <= i,
        ROW * i + ROW <= state.len(),
        state.subrange(ROW * i, ROW * i + ROW) == row_bytes(r),
    ensures
        id_at(state, i) == r.id,
        flags_at(state, i) == r.flags,
        off_at(state, i) == r.content_off,
        len_at(state, i) == r.content_len,
        emb_at(state, i) == r.emb_row,
{
    let b = row_bytes(r);
    row_len_is_fixed(r);
    spans();
    le_bytes_len(r.id as int, 8);
    le_bytes_len(r.flags as int, 4);
    le_bytes_len((r.ack as u32) as int, 4);
    le_bytes_len(r.content_off as int, 8);
    le_bytes_len(r.content_len as int, 4);
    le_bytes_len(r.emb_row as int, 4);
    read_after_write(r.id as int, 8);
    read_after_write(r.flags as int, 4);
    read_after_write(r.content_off as int, 8);
    read_after_write(r.content_len as int, 4);
    read_after_write(r.emb_row as int, 4);
    let at = ROW * i;
    assert(state.subrange(at + 0, at + 0 + 8) =~= b.subrange(0, 8));
    assert(b.subrange(0, 8) =~= le_bytes(r.id as int, 8));
    assert(state.subrange(at + 32, at + 32 + 4) =~= b.subrange(32, 36));
    assert(b.subrange(32, 36) =~= le_bytes(r.flags as int, 4));
    assert(state.subrange(at + 40, at + 40 + 8) =~= b.subrange(40, 48));
    assert(b.subrange(40, 48) =~= le_bytes(r.content_off as int, 8));
    assert(state.subrange(at + 48, at + 48 + 4) =~= b.subrange(48, 52));
    assert(b.subrange(48, 52) =~= le_bytes(r.content_len as int, 4));
    assert(state.subrange(at + 52, at + 52 + 4) =~= b.subrange(52, 56));
    assert(b.subrange(52, 56) =~= le_bytes(r.emb_row as int, 4));
}

/// A row reads the same after more was added to the image.
proof fn stored_stays(f: Family, im: ImageView, more: ImageView, row_len: int, i: int, id: u64)
    requires
        0 <= i,
        ROW * i + ROW <= im.state.len(),
        row_len > 0,
        stored(f, im, row_len, i, id),
        im.state.len() <= more.state.len(),
        more.state.take(im.state.len() as int) == im.state,
        im.arena.len() <= more.arena.len(),
        more.arena.take(im.arena.len() as int) == im.arena,
        im.emb.len() <= more.emb.len(),
        more.emb.take(im.emb.len() as int) == im.emb,
    ensures
        stored(f, more, row_len, i, id),
{
    let at = ROW * i;
    assert(more.state.subrange(at + 0, at + 0 + 8) =~= im.state.subrange(at + 0, at + 0 + 8));
    assert(more.state.subrange(at + 32, at + 32 + 4) =~= im.state.subrange(at + 32, at + 32 + 4));
    assert(more.state.subrange(at + 40, at + 40 + 8) =~= im.state.subrange(at + 40, at + 40 + 8));
    assert(more.state.subrange(at + 48, at + 48 + 4) =~= im.state.subrange(at + 48, at + 48 + 4));
    assert(more.state.subrange(at + 52, at + 52 + 4) =~= im.state.subrange(at + 52, at + 52 + 4));
    write_after_read(im.state.subrange(at + 40, at + 40 + 8));
    write_after_read(im.state.subrange(at + 48, at + 48 + 4));
    write_after_read(im.state.subrange(at + 52, at + 52 + 4));
    assert(content_at(more.state, more.arena, i) =~= content_at(im.state, im.arena, i));
    if f.embeddings@.contains_key(id) {
        let n = emb_at(im.state, i);
        assert(n * row_len >= 0) by (nonlinear_arith)
            requires
                n >= 0,
                row_len > 0,
        ;
        assert((n + 1) * row_len == n * row_len + row_len) by (nonlinear_arith);
        assert(embedding_at(more.state, more.emb, row_len, i) =~= embedding_at(
            im.state,
            im.emb,
            row_len,
            i,
        ));
    }
}

/// The image of a store holds every memory of it: row by row, in the order of `ids`, with its
/// content and its embedding.
pub proof fn image_holds_memories(f: Family, row_len: int, ids: Seq<u64>)
    requires
        representable(f, f.image(row_len, ids), row_len, ids),
    ensures
        f.image(row_len, ids).state.len() == ROW * ids.len(),
        f.image(row_len, ids).emb.len() as int % row_len == 0,
        forall|i: int|
            0 <= i < ids.len() ==> #[trigger] stored(
                f,
                f.image(row_len, ids),
                row_len,
                i,
                ids[i],
            ),
    decreases ids.len(),
{
    if ids.len() > 0 {
        let less = ids.drop_last();
        let id = ids.last();
        let im = f.image(row_len, less);
        let more = f.image(row_len, ids);
        let n = less.len() as int;
        assert forall|i: int| 0 <= i < n implies #[trigger] less[i] == ids[i] by {}
        assert(f.content_of(ids[n]).len() <= u32::MAX);
        image_holds_memories(f, row_len, less);
        let r = f.row_of(im, row_len, id);
        row_len_is_fixed(r);
        assert(more.state.take(im.state.len() as int) =~= im.state);
        assert(more.arena.take(im.arena.len() as int) =~= im.arena);
        assert(more.emb.take(im.emb.len() as int) =~= im.emb);
        assert(more.state.subrange(ROW * n, ROW * n + ROW) =~= row_bytes(r));
        row_reads_back(more.state, n, r);
        assert(content_at(more.state, more.arena, n) =~= f.content_of(id));
        let e = im.emb.len() as int;
        vstd::arithmetic::div_mod::lemma_fundamental_div_mod(e, row_len);
        let q = e / row_len;
        assert(q * row_len == row_len * q) by (nonlinear_arith);
        if f.embeddings@.contains_key(id) {
            assert(f.emb_of(ids[n]).len() == row_len);
            assert((q + 1) * row_len == row_len * q + row_len) by (nonlinear_arith);
            assert(0 <= q < NO_EMBEDDING) by (nonlinear_arith)
                requires
                    row_len * q == e,
                    e >= 0,
                    e < row_len * NO_EMBEDDING,
                    row_len > 0,
            ;
            assert(more.emb.len() == (q + 1) * row_len);
            vstd::arithmetic::div_mod::lemma_mod_multiples_basic(q + 1, row_len);
            assert(embedding_at(more.state, more.emb, row_len, n) =~= f.emb_of(id));
        }
        assert forall|i: int| 0 <= i < ids.len() implies #[trigger] stored(f, more, row_len, i, ids[i]) by {
            if i < n {
                assert(stored(f, im, row_len, i, less[i]));
                stored_stays(f, im, more, row_len, i, ids[i]);
            }
        }
    } else {
        assert(f.image(row_len, ids).emb.len() == 0);
        vstd::arithmetic::div_mod::lemma_mod_self_0(row_len);
        assert(0int % row_len == 0) by {
            vstd::arithmetic::div_mod::lemma_small_mod(0, row_len as nat);
        }
    }
}

/// A look at a memory of an image adds up to the length of its content and the outer bytes of
/// its embedding; a deleted memory adds up to nothing.
pub proof fn peek_sees_what_was_stored(f: Family, row_len: int, ids: Seq<u64>, i: int)
    requires
        representable(f, f.image(row_len, ids), row_len, ids),
        0 <= i < ids.len(),
    ensures
        peeked(
            f.image(row_len, ids).state,
            f.image(row_len, ids).arena,
            f.image(row_len, ids).emb,
            row_len,
            i,
        ) == if f.states@[ids[i]].deleted {
            0
        } else {
            f.content_of(ids[i]).len() + if f.embeddings@.contains_key(ids[i]) {
                f.emb_of(ids[i])[0] + f.emb_of(ids[i])[row_len - 1]
            } else {
                0
            }
        },
{
    image_holds_memories(f, row_len, ids);
    let im = f.image(row_len, ids);
    assert(stored(f, im, row_len, i, ids[i]));
    write_after_read(im.state.subrange(ROW * i + 40, ROW * i + 40 + 8));
    write_after_read(im.state.subrange(ROW * i + 48, ROW * i + 48 + 4));
}

/// The rows of an image are ordered, so that every memory of it can be looked up.
pub proof fn image_is_ordered(f: Family, row_len: int, ids: Seq<u64>)
    requires
        representable(f, f.image(row_len, ids), row_len, ids),
        forall|i: int, j: int| 0 <= i < j < ids.len() ==> ids[i] < ids[j],
    ensures
        row_count(f.image(row_len, ids).state) == ids.len(),
        ordered(f.image(row_len, ids).state),
        forall|i: int|
            0 <= i < ids.len() ==> #[trigger] refers(
                f.image(row_len, ids).state,
                f.image(row_len, ids).arena,
                f.image(row_len, ids).emb,
                row_len,
                i,
            ),
{
    image_holds_memories(f, row_len, ids);
    let im = f.image(row_len, ids);
    assert forall|i: int, j: int| 0 <= i < j < row_count(im.state) implies #[trigger] id_at(im.state, i)
        < #[trigger] id_at(im.state, j) by {
        assert(stored(f, im, row_len, i, ids[i]));
        assert(stored(f, im, row_len, j, ids[j]));
    }
    assert forall|i: int| 0 <= i < ids.len() implies #[trigger] refers(
        im.state,
        im.arena,
        im.emb,
        row_len,
        i,
    ) by {
        assert(stored(f, im, row_len, i, ids[i]));
    }
}

/// The sections of an image have the elements that they claim, so that its file passes every check.
pub proof fn images_validate(f: Family, row_len: int, ids: Seq<u64>, bodies: Seq<Body>, full: bool)
    requires
        representable(f, f.image(row_len, ids), row_len, ids),
        row_len <= u32::MAX,
        sections_of(bodies, f.image(row_len, ids), ids.len(), row_len),
        fits(bodies),
    ensures
        map_fault(file_bytes(f.seqno, bodies), full) is None,
        sec_bytes(file_bytes(f.seqno, bodies), 0) == f.image(row_len, ids).state,
        sec_bytes(file_bytes(f.seqno, bodies), 1) == f.image(row_len, ids).arena,
        sec_bytes(file_bytes(f.seqno, bodies), 2) == f.image(row_len, ids).emb,
{
    image_holds_memories(f, row_len, ids);
    let e = f.image(row_len, ids).emb.len() as int;
    vstd::arithmetic::div_mod::lemma_fundamental_div_mod(e, row_len);
    assert(counted(bodies));
    written_files_validate(f.seqno, bodies, full);
    let file = file_bytes(f.seqno, bodies);
    assert(entry(file, 0) == desc_bytes(desc_of(bodies, 0)));
    assert(entry(file, 1) == desc_bytes(desc_of(bodies, 1)));
    assert(entry(file, 2) == desc_bytes(desc_of(bodies, 2)));
}

/// How far apart pages begin.
pub const PAGE: usize = 4096;

/// The sum of the first bytes of the first `n` pages.
pub open spec fn page_sum(map: Seq<u8>, n: int) -> int
    decreases n,
{
    if n <= 0 {
        0
    } else {
        page_sum(map, n - 1) + map[(n - 1) * PAGE]
    }
}

/// Touches every page once.
pub fn touch_pages(map: &[u8]) -> (r: u64)
    ensures
        r == page_sum(map@, (map@.len() + PAGE - 1) / PAGE as int),
{
    let n: usize = map.len();
    let mut sum: u64 = 0;
    let mut i: usize = 0;
    let ghost mut pages: int = 0;
    while i < n
        invariant
            n == map@.len(),
            i == pages * PAGE,
            pages >= 0,
            sum <= 255 * pages,
            sum == page_sum(map@, pages),
            i < n || (n == 0 && pages == 0),
        decreases n - i,
    {
        sum = sum + map[i] as u64;
        proof {
            pages = pages + 1;
        }
        if n - i <= PAGE {
            assert((n + PAGE - 1) / PAGE as int == pages);
            return sum;
        }
        i = i + PAGE;
    }
    assert(n == 0);
    sum
}

/// Row `i` of a state table says of a memory all that is known of it, each field at its place.
pub proof fn rows_keep_every_field(state: Seq<u8>, i: int, r: Row)
    requires
        0 <= i,
        64 * i + 64 <= state.len(),
        state.subrange(64 * i, 64 * i + 64) == row_bytes(r),
    ensures
        le_value(state.subrange(64 * i, 64 * i + 8)) == r.id,
        le_value(state.subrange(64 * i + 8, 64 * i + 12)) == r.realm_id,
        le_value(state.subrange(64 * i + 12, 64 * i + 16)) == r.kind_id,
        le_value(state.subrange(64 * i + 16, 64 * i + 24)) == r.created_at_ms as u64,
        le_value(state.subrange(64 * i + 24, 64 * i + 32)) == r.authored_at_ms as u64,
        le_value(state.subrange(64 * i + 32, 64 * i + 36)) == r.flags,
        le_value(state.subrange(64 * i + 36, 64 * i + 40)) == r.ack as u32,
        le_value(state.subrange(64 * i + 40, 64 * i + 48)) == r.content_off,
        le_value(state.subrange(64 * i + 48, 64 * i + 52)) == r.content_len,
        le_value(state.subrange(64 * i + 52, 64 * i + 56)) == r.emb_row,
        le_value(state.subrange(64 * i + 56, 64 * i + 60)) == r.strength,
        le_value(state.subrange(64 * i + 60, 64 * i + 64)) == r.confidence,
{
    spans();
    le_bytes_len(r.id as int, 8);
    le_bytes_len(r.realm_id as int, 4);
    le_bytes_len(r.kind_id as int, 4);
    le_bytes_len((r.created_at_ms as u64) as int, 8);
    le_bytes_len((r.authored_at_ms as u64) as int, 8);
    le_bytes_len(r.flags as int, 4);
    le_bytes_len((r.ack as u32) as int, 4);
    le_bytes_len(r.content_off as int, 8);
    le_bytes_len(r.content_len as int, 4);
    le_bytes_len(r.emb_row as int, 4);
    le_bytes_len(r.strength as int, 4);
    le_bytes_len(r.confidence as int, 4);
    read_after_write(r.id as int, 8);
    read_after_write(r.realm_id as int, 4);
    read_after_write(r.kind_id as int, 4);
    read_after_write((r.created_at_ms as u64) as int, 8);
    read_after_write((r.authored_at_ms as u64) as int, 8);
    read_after_write(r.flags as int, 4);
    read_after_write((r.ack as u32) as int, 4);
    read_after_write(r.content_off as int, 8);
    read_after_write(r.content_len as int, 4);
    read_after_write(r.emb_row as int, 4);
    read_after_write(r.strength as int, 4);
    read_after_write(r.confidence as int, 4);
    let at = 64 * i;
    let b = row_bytes(r);
    assert(state.subrange(at, at + 8) =~= b.subrange(0, 8) && b.subrange(0, 8) =~= le_bytes(r.id as int, 8));
    assert(state.subrange(at + 8, at + 12) =~= b.subrange(8, 12) && b.subrange(8, 12) =~= le_bytes(
        r.realm_id as int,
        4,
    ));
    assert(state.subrange(at + 12, at + 16) =~= b.subrange(12, 16) && b.subrange(12, 16) =~= le_bytes(
        r.kind_id as int,
        4,
    ));
    assert(state.subrange(at + 16, at + 24) =~= b.subrange(16, 24) && b.subrange(16, 24) =~= le_bytes(
        (r.created_at_ms as u64) as int,
        8,
    ));
    assert(state.subrange(at + 24, at + 32) =~= b.subrange(24, 32) && b.subrange(24, 32) =~= le_bytes(
        (r.authored_at_ms as u64) as int,
        8,
    ));
    assert(state.subrange(at + 32, at + 36) =~= b.subrange(32, 36) && b.subrange(32, 36) =~= le_bytes(
        r.flags as int,
        4,
    ));
    assert(state.subrange(at + 36, at + 40) =~= b.subrange(36, 40) && b.subrange(36, 40) =~= le_bytes(
        (r.ack as u32) as int,
        4,
    ));
    assert(state.subrange(at + 40, at + 48) =~= b.subrange(40, 48) && b.subrange(40, 48) =~= le_bytes(
        r.content_off as int,
        8,
    ));
    assert(state.subrange(at + 48, at + 52) =~= b.subrange(48, 52) && b.subrange(48, 52) =~= le_bytes(
        r.content_len as int,
        4,
    ));
    assert(state.subrange(at + 52, at + 56) =~= b.subrange(52, 56) && b.subrange(52, 56) =~= le_bytes(
        r.emb_row as int,
        4,
    ));
    assert(state.subrange(at + 56, at + 60) =~= b.subrange(56, 60) && b.subrange(56, 60) =~= le_bytes(
        r.strength as int,
        4,
    ));
    assert(state.subrange(at + 60, at + 64) =~= b.subrange(60, 64) && b.subrange(60, 64) =~= le_bytes(
        r.confidence as int,
        4,
    ));
}

/// The row of a memory bears the memory's own times, score, strength and confidence, marks it as
/// deleted or as a candidate when it is one, and refers to its realm and its kind by the numbers of
/// their names.
pub proof fn rows_are_true_to_the_memory(f: Family, im: ImageView, row_len: int, id: u64)
    requires
        distinct(im.names),
        im.names.len() + 2 <= u32::MAX,
        f.payloads@.contains_key(id),
        f.states@.contains_key(id),
    ensures
        ({
            let r = f.row_of(im, row_len, id);
            let names = f.grown(im, row_len, id).names;
            let p = f.payloads@[id];
            &&& r.id == id
            &&& r.created_at_ms == p.created_at_ms
            &&& r.authored_at_ms == p.authored_at_ms
            &&& r.strength == f.states@[id].strength
            &&& r.confidence == f.states@[id].confidence
            &&& r.flags % 2 == 1 <==> f.states@[id].deleted
            &&& r.flags / 2 == 1 <==> p.candidate
            &&& r.flags <= 3
            &&& f.ack_scores@.contains_key(id) ==> r.ack == f.ack_scores@[id]
            &&& !f.ack_scores@.contains_key(id) ==> r.ack == 0
            &&& names[r.realm_id as int] == p.realm@
            &&& names[r.kind_id as int] == p.kind@
            &&& distinct(names)
            &&& names.len() <= im.names.len() + 2
            &&& forall|k: int| 0 <= k < im.names.len() ==> names[k] == im.names[k]
        }),
{
    let realm = f.realm_of(id);
    let kind = f.kind_of(id);
    let one = interned(im.names, realm);
    let two = interned(one, kind);
    names_differ_still(im.names, realm);
    names_differ_still(one, kind);
    let a = one.index_of(realm);
    let b = two.index_of(kind);
    assert(one[a] == realm && 0 <= a < one.len());
    assert(two[b] == kind && 0 <= b < two.len());
    assert(two[a] == realm);
}

proof fn names_differ_still(names: Seq<Seq<char>>, s: Seq<char>)
    requires
        distinct(names),
    ensures
        distinct(interned(names, s)),
        interned(names, s).contains(s),
        names.len() <= interned(names, s).len() <= names.len() + 1,
        forall|k: int| 0 <= k < names.len() ==> interned(names, s)[k] == names[k],
{
    let more = interned(names, s);
    if !names.contains(s) {
        assert(more[names.len() as int] == s);
        assert forall|i: int, j: int| 0 <= i < j < more.len() implies more[i] != more[j] by {
            if j == names.len() {
                assert(names.contains(names[i]));
            }
        }
    }
}

/// A record of a sidecar gives the memory the bytes that follow its id, unless a later record
/// replaces it.
pub proof fn sidecar_records_are_read(bytes: Seq<u8>, row_len: int, n: int, k: int)
    requires
        row_len >= 0,
        0 <= k < n,
        16 + n * (8 + row_len) <= bytes.len(),
        forall|j: int|
            k < j < n ==> #[trigger] le_value(
                bytes.subrange(16 + j * (8 + row_len), 16 + j * (8 + row_len) + 8),
            ) != le_value(bytes.subrange(16 + k * (8 + row_len), 16 + k * (8 + row_len) + 8)),
    ensures
        ({
            let at = 16 + k * (8 + row_len);
            let id = le_value(bytes.subrange(at, at + 8)) as u64;
            &&& sidecar(bytes, row_len, n).contains_key(id)
            &&& sidecar(bytes, row_len, n)[id] == bytes.subrange(at + 8, at + 8 + row_len)
        }),
    decreases n,
{
    spans();
    let w = 8 + row_len;
    assert(n * w == (n - 1) * w + w) by (nonlinear_arith);
    assert((k + 1) * w == k * w + w) by (nonlinear_arith);
    assert(0 <= k * w <= (n - 1) * w) by (nonlinear_arith)
        requires
            0 <= k <= n - 1,
            w >= 0,
    ;
    let at = 16 + k * w;
    let last = 16 + (n - 1) * w;
    assert(16 + n * w - 8 - row_len == last);
    write_after_read(bytes.subrange(at, at + 8));
    write_after_read(bytes.subrange(last, last + 8));
    if k < n - 1 {
        assert(le_value(bytes.subrange(16 + (n - 1) * (8 + row_len), 16 + (n - 1) * (8 + row_len) + 8))
            != le_value(bytes.subrange(at, at + 8)));
        sidecar_records_are_read(bytes, row_len, n - 1, k);
    }
}

/// A sidecar says behind its first eight bytes how many records it has, and a file that is too
/// short to say so has none.
pub proof fn sidecars_tell_their_length(bytes: Seq<u8>)
    ensures
        bytes.len() >= 16 ==> sidecar_count(bytes) == le_value(bytes.subrange(8, 16)),
        bytes.len() < 16 ==> sidecar_count(bytes) == 0,
{
}

/// The generator starts from its increment, and steps of its state by one go on in steps of its
/// multiplier.
pub proof fn the_generator_is_linear(s: u64)
    requires
        s < u64::MAX,
    ensures
        lcg_next(0) == 1442695040888963407,
        (lcg_next((s + 1) as u64) - lcg_next(s)) % 0x1_0000_0000_0000_0000 == 6364136223846793005,
{
    let m: int = 0x1_0000_0000_0000_0000;
    let a: int = 6364136223846793005;
    let c: int = 1442695040888963407;
    let x = s * a + c;
    let y = (s + 1) * a + c;
    assert(y == x + a) by (nonlinear_arith)
        requires
            x == s * a + c,
            y == (s + 1) * a + c,
    ;
    vstd::arithmetic::div_mod::lemma_sub_mod_noop(y, x, m);
    vstd::arithmetic::div_mod::lemma_small_mod(6364136223846793005, 0x1_0000_0000_0000_0000);
    vstd::arithmetic::div_mod::lemma_small_mod(1442695040888963407, 0x1_0000_0000_0000_0000);
}

/// The pages of a file begin every 4096 bytes, and the first byte of each is added once.
pub proof fn every_page_is_touched(map: Seq<u8>, n: int)
    requires
        0 <= n,
    ensures
        page_sum(map, 0) == 0,
        page_sum(map, n + 1) == page_sum(map, n) + map[n * 4096],
{
}

} // verus!
