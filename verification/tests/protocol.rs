use chitta_field::decimal::{parse_u32, parse_u64, u64_text};
use chitta_field::hex::{digit, hex8, parse_hex};
use chitta_field::members::Members;
use chitta_field::ops::EdgeType;
use chitta_field::order::{stable_sort, Dated};
use chitta_field::protocol::{
    capped, change_code, clamp, copy_str, count_or, done_code, edge_type_from_u8, edge_type_to_u8, fill_content,
    fill_cut, fill_json, fill_list, fill_name, filter_of, given, id_of, list_items, pack_counts, pin_of, positive_or,
    split_rows, state_change, window_of, window_start, Outcome,
};
use chitta_field::table::Named;
use chitta_field::text::{
    chars_of, contains_text, decode_or_empty, ends_with, is_blank, is_text_before, rest_after_last, split, starts_with,
    str_eq, trim,
};
use chitta_field::triplet::TripletStore;
use chitta_field::weight::{is_below, is_finite, is_nan, total_rank_of, weight_rank_of};

#[test]
fn edge_types_have_numbers() {
    for n in 0..=6 {
        assert_eq!(edge_type_to_u8(edge_type_from_u8(n)), n);
    }
    assert_eq!(edge_type_from_u8(200), EdgeType::Contradicts);
    assert_eq!(edge_type_to_u8(EdgeType::SemanticNeighbor), 6);
}

#[test]
fn a_buffer_that_is_too_small_tells_the_length() {
    assert_eq!(fill_content(5, 6).code, 0);
    let f = fill_content(6, 6);
    assert_eq!((f.code, f.reported), (-2, Some(6)));
    assert_eq!(fill_name(3, 4).code, 0);
    assert_ne!(fill_name(4, 4).code, 0);
    assert_eq!(fill_json(4, 100).code, 0);
    assert_eq!(fill_list(4, 3).code, -2);
    assert_eq!(fill_cut(10, 4), 3);
    assert_eq!(fill_cut(2, 4), 2);
    assert_eq!((capped(9, 4), capped(3, 4)), (4, 3));
}

#[test]
fn texts_are_copied_into_fixed_room() {
    assert_eq!(copy_str("abc", 6), b"abc\0\0\0".to_vec());
    assert_eq!(copy_str("abcdef", 4), b"abc\0".to_vec());
}

#[test]
fn absent_values_have_their_own_spelling() {
    assert_eq!((given(f32::NAN.to_bits()), given(1)), (None, Some(1)));
    assert_eq!((pin_of(-1), pin_of(0), pin_of(1), pin_of(7)), (None, Some(false), Some(true), Some(true)));
    let c = state_change(1, f32::NAN.to_bits(), 2, 1, -1);
    assert_eq!((c.strength_delta, c.confidence_delta, c.decay_rate, c.touch, c.pin), (Some(1), None, Some(2), true, None));
    assert_eq!((id_of(0), id_of(4)), (None, Some(4)));
    assert_eq!((filter_of(None), filter_of(Some("")), filter_of(Some("x"))), (None, None, Some("x")));
    assert_eq!((window_of(0, 0), window_of(0, 5)), (None, Some((0, 5))));
    assert_eq!((window_start(-4), window_start(4)), (0, 4));
    assert_eq!((count_or(0, 10), count_or(3, 10)), (10, 3));
    assert_eq!((positive_or(0, 10_000), positive_or(-1, 10_000), positive_or(5, 10_000)), (10_000, 10_000, 5));
    assert_eq!((clamp(0, 1, 9), clamp(5, 1, 9), clamp(50, 1, 9)), (1, 5, 9));
}

#[test]
fn outcomes_have_codes() {
    assert_eq!((done_code(Outcome::Done), done_code(Outcome::Failed)), (0, -1));
    assert_ne!(change_code(Outcome::Done), change_code(Outcome::Failed));
    assert_eq!(pack_counts(3, 2), 3 | (2u64 << 32));
}

#[test]
fn lists_are_split_at_commas() {
    assert_eq!(list_items(" a, ,b ,"), vec!["a", "b"]);
    assert!(list_items("").is_empty());
    let rows = split_rows(&vec![7, 8], &vec![1, 2, 3, 4], 2);
    assert_eq!((rows[1].id, rows[1].row.clone()), (8, vec![3, 4]));
}

#[test]
fn numerals_are_read_and_written() {
    assert_eq!(parse_u64("18446744073709551615"), Some(u64::MAX));
    assert_eq!(parse_u64("18446744073709551616"), None);
    assert_eq!((parse_u64("+7"), parse_u64(""), parse_u64("-1"), parse_u64(" 1")), (Some(7), None, None, None));
    assert_eq!((parse_u32("4294967295"), parse_u32("4294967296")), (Some(u32::MAX), None));
    assert_eq!((u64_text(0), u64_text(u64::MAX)), ("0".to_string(), "18446744073709551615".to_string()));
    assert_eq!((parse_hex("2A"), parse_hex("xyz"), hex8(0x2a)), (Some(42), None, "0000002a".to_string()));
    assert_eq!(digit('f'), Some(15));
}

#[test]
fn texts_are_compared_and_cut() {
    assert_eq!(trim(" \u{2003}a b\t\n"), "a b");
    assert!(is_blank("\u{a0} ") && !is_blank("x"));
    assert_eq!(split("a,,b", ','), vec!["a", "", "b"]);
    assert!(str_eq("é", "é") && !str_eq("é", "e"));
    assert!(is_text_before("a", "ab") && is_text_before("a", "b") && !is_text_before("b", "ab"));
    assert!(starts_with("[done] x", "[done]") && ends_with("a.snapshot", ".snapshot"));
    assert_eq!((rest_after_last("a::b::c", "::"), rest_after_last("a", "::")), (Some("c"), None));
    assert_eq!(decode_or_empty(&[0xff]), "");
    assert_eq!(decode_or_empty("ü".as_bytes()), "ü");
    assert_eq!(chars_of("aé"), vec!['a', 'é']);
    assert!(contains_text(&vec!["x".to_string()], "x"));
}

#[test]
fn tables_keep_one_value_for_a_name() {
    let mut t = Named::new();
    t.insert("a".into(), 1);
    t.insert("a".into(), 2);
    assert_eq!((t.get("a"), t.entries.len()), (Some(&2), 1));
    assert_eq!((t.remove("a"), t.remove("a")), (Some(2), None));
    let mut m = Members::new();
    m.join("r", 1);
    m.join("r", 2);
    m.part("r", 1);
    assert!(!m.has("r", 1) && m.has("r", 2));
    m.leave("r", 2);
    assert!(m.groups.get("r").is_none());
}

#[test]
fn sorting_is_stable() {
    let d = |at_ms, id| Dated { at_ms, id };
    let out = stable_sort(vec![d(2, 1), d(1, 9), d(1, 3)]);
    assert_eq!(out.iter().map(|x| (x.at_ms, x.id)).collect::<Vec<_>>(), vec![(1, 3), (1, 9), (2, 1)]);
}

#[test]
fn bit_patterns_are_ordered_like_numbers() {
    let bits = |x: f32| x.to_bits();
    assert!(is_finite(bits(1.0)) && !is_finite(bits(f32::INFINITY)));
    assert!(is_nan(bits(f32::NAN)) && !is_nan(bits(f32::INFINITY)));
    assert!(is_below(bits(-1.0), bits(0.5)) && !is_below(bits(-0.0), bits(0.0)) && !is_below(bits(f32::NAN), bits(1.0)));
    assert!(total_rank_of(bits(-0.0)) < total_rank_of(bits(0.0)));
    assert!(weight_rank_of(bits(f32::NAN)) < weight_rank_of(bits(f32::MIN)));
}

#[test]
fn facts_are_superseded_and_withdrawn() {
    let mut t = TripletStore::new();
    let a = t.add("s".into(), "p".into(), "old".into(), 0, 1, None, Some("f.rs".into()));
    let b = t.add("s".into(), "p".into(), "new".into(), 0, 2, None, None);
    assert_eq!((a, b, t.triplet_count(), t.next_id()), (1, 2, 2, 3));
    t.supersede(a, b, 5);
    let live = t.query_subject("s", 10);
    assert_eq!((live[0].superseded_by, live[0].superseded_at_ms, live[1].superseded_by), (Some(b), Some(5), None));
    let c = t.add("s".into(), "p".into(), "file".into(), 0, 2, None, Some("g.rs".into()));
    t.invalidate_by_source_file("g.rs", 7);
    assert!(t.query_subject("s", 8).iter().all(|e| e.id != c));
}
