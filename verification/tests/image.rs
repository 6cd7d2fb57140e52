use chitta_field::bytes::{cut, get_le, put_all, put_le};
use chitta_field::image::{
    build_arrays, checksum, name16, pad_to, Family, Interner, PayloadFacts, StateFacts, MAGIC, NO_EMBEDDING, ROW,
};
use chitta_field::lookup::{find_row, lcg, parse_emb_sidecar, peek, rows_refer, sample_ids, touch_pages};
use chitta_field::mapped::{bodies_fit, encode_file, map_and_validate, place, sampled, sections, Body, Fault};
use std::collections::BTreeMap;

const WIDTH: usize = 8;

fn payload(realm: &str, kind: &str, content: &str, candidate: bool) -> PayloadFacts {
    PayloadFacts {
        realm: realm.into(),
        kind: kind.into(),
        content: content.as_bytes().to_vec(),
        created_at_ms: 11,
        authored_at_ms: -12,
        candidate,
    }
}

fn family() -> Family {
    let mut f = Family {
        seqno: 77,
        states: BTreeMap::new(),
        payloads: BTreeMap::new(),
        ack_scores: BTreeMap::new(),
        embeddings: BTreeMap::new(),
    };
    f.states.insert(9, StateFacts { deleted: false, strength: 1.0f32.to_bits(), confidence: 0.5f32.to_bits() });
    f.states.insert(2, StateFacts { deleted: true, strength: 0, confidence: 0 });
    f.states.insert(5, StateFacts { deleted: false, strength: 0, confidence: 0 });
    f.payloads.insert(9, payload("r", "wisdom", "hello", true));
    f.payloads.insert(2, payload("wisdom", "r", "gone", false));
    f.ack_scores.insert(9, -3);
    f.embeddings.insert(9, vec![7, 0, 0, 0, 0, 0, 0, 4]);
    f
}

fn file() -> Vec<u8> {
    let f = family();
    let (ids, im) = build_arrays(&f, WIDTH);
    let bodies = sections(im, ids.len(), WIDTH);
    encode_file(f.seqno, &bodies)
}

#[test]
fn rows_are_written_in_order_of_id() {
    let (ids, im) = build_arrays(&family(), WIDTH);
    assert_eq!(ids, vec![2, 5, 9]);
    assert_eq!(im.state.len(), 3 * ROW);
    let at = |row: usize, off: usize, width: usize| get_le(&im.state, row * ROW + off, width);
    assert_eq!((at(0, 0, 8), at(1, 0, 8), at(2, 0, 8)), (2, 5, 9));
    assert_eq!((at(0, 8, 4), at(0, 12, 4)), (0, 1));
    assert_eq!((at(1, 8, 4), at(1, 12, 4)), (2, 2));
    assert_eq!((at(2, 8, 4), at(2, 12, 4)), (1, 0));
    assert_eq!(at(2, 16, 8), 11);
    assert_eq!(at(2, 24, 8) as i64, -12);
    assert_eq!((at(0, 32, 4), at(1, 32, 4), at(2, 32, 4)), (1, 0, 2));
    assert_eq!(at(2, 36, 4) as u32 as i32, -3);
    assert_eq!((at(0, 40, 8), at(0, 48, 4)), (0, 4));
    assert_eq!((at(2, 40, 8), at(2, 48, 4)), (4, 5));
    assert_eq!((at(1, 52, 4) as u32, at(2, 52, 4)), (NO_EMBEDDING, 0));
    assert_eq!(at(2, 56, 4) as u32, 1.0f32.to_bits());
    assert_eq!(im.arena, b"gonehello".to_vec());
    assert_eq!(im.names.order, vec!["wisdom", "r", ""]);
}

#[test]
fn a_written_file_validates_and_is_found_again() {
    let bytes = file();
    for full in [false, true] {
        let m = map_and_validate(&bytes, full).unwrap();
        assert_eq!(m.sections.len(), 4);
        let (state, arena, emb) =
            (m.section("state").unwrap(), m.section("arena").unwrap(), m.section("emb").unwrap());
        assert_eq!(peek(state, arena, emb, WIDTH, 9), 5 + 7 + 4);
        assert_eq!(peek(state, arena, emb, WIDTH, 5), 0);
        assert_eq!(peek(state, arena, emb, WIDTH, 2), 0);
        assert_eq!(peek(state, arena, emb, WIDTH, 3), 0);
        assert_eq!(find_row(state, 9), Some(2));
        assert_eq!(find_row(state, 4), None);
        assert!(m.section("absent").is_none());
        let strings = m.section("strings").unwrap();
        assert_eq!(get_le(strings, 0, 4), 3);
        assert_eq!(get_le(strings, 4, 4), 6);
        assert_eq!(&strings[8..14], b"wisdom");
    }
    assert_eq!(get_le(&bytes, 0, 8), MAGIC);
    assert_eq!(get_le(&bytes, 16, 8), 77);
    assert_eq!(get_le(&bytes, 24, 4), 4);
}

fn fault(bytes: &[u8], full: bool) -> Option<Fault> {
    map_and_validate(bytes, full).err()
}

#[test]
fn every_fault_is_told_apart() {
    let good = file();
    assert!(matches!(fault(&good[..20], false), Some(Fault::Short)));
    let mut bad = good.clone();
    bad[0] ^= 1;
    assert!(matches!(fault(&bad, false), Some(Fault::Magic)));
    let mut bad = good.clone();
    bad[8] = 2;
    assert!(matches!(fault(&bad, false), Some(Fault::Version)));
    let mut bad = good.clone();
    bad[28 + 24 + 7] = 1;
    assert!(matches!(fault(&bad, false), Some(Fault::Bounds)));
    let mut bad = good.clone();
    bad[28 + 16] = 1;
    bad[28 + 24] = 0;
    assert!(matches!(fault(&bad, false), Some(Fault::Misaligned)));
    let mut bad = good.clone();
    bad[28 + 36] += 1;
    assert!(matches!(fault(&bad, false), Some(Fault::Elements)));
    let mut bad = good.clone();
    bad[4096] ^= 0x40;
    assert!(matches!(fault(&bad, true), Some(Fault::Checksum)));
    assert!(fault(&bad, false).is_none());
}

#[test]
fn sections_start_on_pages() {
    let bodies = vec![
        Body { name: name16("one"), bytes: vec![1; 5000], elem_size: 1, elem_count: 5000 },
        Body { name: name16("two"), bytes: vec![2; 3], elem_size: 1, elem_count: 3 },
    ];
    let d = place(&bodies);
    assert_eq!((d[0].offset, d[0].len), (4096, 5000));
    assert_eq!((d[1].offset, d[1].len), (12288, 3));
    assert_eq!(d[1].checksum, checksum(&[2, 2, 2]));
}

#[test]
fn checksums_are_crc32() {
    assert_eq!(checksum(b"123456789"), 0xCBF4_3926);
    assert_eq!(checksum(b""), 0);
    assert_eq!(sampled(b"123456789"), 0);
}

#[test]
fn names_are_padded_and_numbered_once() {
    assert_eq!(&name16("emb")[..], b"emb\0\0\0\0\0\0\0\0\0\0\0\0\0");
    let mut names = Interner::new();
    assert_eq!((names.intern("a"), names.intern("b"), names.intern("a")), (0, 1, 0));
    assert_eq!(names.encode(), vec![2, 0, 0, 0, 1, 0, 0, 0, b'a', 1, 0, 0, 0, b'b']);
    let mut out = vec![1, 2, 3];
    pad_to(&mut out, 4);
    assert_eq!(out, vec![1, 2, 3, 0]);
    pad_to(&mut out, 4);
    assert_eq!(out.len(), 4);
}

#[test]
fn numbers_are_written_low_byte_first() {
    let mut out = Vec::new();
    put_le(&mut out, 0x0102_0304, 4);
    assert_eq!(out, vec![4, 3, 2, 1]);
    put_all(&mut out, &[9, 8]);
    assert_eq!(get_le(&out, 0, 4), 0x0102_0304);
    assert_eq!(cut(&out, 3, 6), vec![1, 9, 8]);
}

#[test]
fn a_sidecar_is_read_as_far_as_it_goes() {
    let mut bytes = Vec::new();
    put_le(&mut bytes, 1, 8);
    put_le(&mut bytes, 3, 8);
    for id in [4u64, 6] {
        put_le(&mut bytes, id, 8);
        put_all(&mut bytes, &[id as u8; WIDTH]);
    }
    put_le(&mut bytes, 8, 8);
    let rows = parse_emb_sidecar(&bytes, WIDTH);
    assert_eq!(rows.keys().copied().collect::<Vec<_>>(), vec![4, 6]);
    assert_eq!(rows[&6], vec![6; WIDTH]);
    assert!(parse_emb_sidecar(&bytes[..15], WIDTH).is_empty());
}

#[test]
fn samples_are_drawn_by_the_generator() {
    let mut s = 0x5ee_d123u64;
    let first = lcg(&mut s);
    let state = 0x5ee_d123u64.wrapping_mul(6364136223846793005).wrapping_add(1442695040888963407);
    assert_eq!((first, s), (state >> 11, state));
    let (_, im) = build_arrays(&family(), WIDTH);
    let ids = sample_ids(&im.state, 4, 0x5ee_d123);
    assert_eq!(ids.len(), 4);
    assert_eq!(ids[0], [2, 5, 9][(first % 3) as usize]);
}

#[test]
fn pages_are_touched_once_each() {
    let mut map = vec![0u8; 8193];
    map[0] = 1;
    map[1] = 100;
    map[4096] = 2;
    map[8192] = 4;
    assert_eq!(touch_pages(&map), 7);
    assert_eq!(touch_pages(&[]), 0);
    assert_eq!(touch_pages(&map[..4096]), 1);
}

#[test]
fn rows_refer_to_what_is_there() {
    let (ids, im) = build_arrays(&family(), WIDTH);
    assert!(rows_refer(&im.state, &im.arena, &im.emb, WIDTH));
    assert!(!rows_refer(&im.state, &im.arena[1..], &im.emb, WIDTH));
    assert!(!rows_refer(&im.state, &im.arena, &im.emb[1..], WIDTH));
    assert!(!rows_refer(&im.state, &im.arena, &im.emb, WIDTH + 1));
    let bodies = sections(im, ids.len(), WIDTH);
    assert!(bodies_fit(&bodies));
}
