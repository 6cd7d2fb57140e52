use chitta_field::analogy::{edge_order, proportional, Fact, RelationTransfer};
use chitta_field::queries::{answer_of, check_analogy, recall_analogy};
use chitta_field::triplet::TripletStore;
use std::cmp::Ordering;

fn add(s: &mut TripletStore, a: &str, p: &str, b: &str, w: f32, time: i64) -> u64 {
    s.add(a.into(), p.into(), b.into(), w.to_bits(), time, Some(42), None)
}

fn solve(s: &TripletStore, a: &str, b: &str, c: &str, limit: usize) -> RelationTransfer {
    let mut r = proportional(s, a, b, c, 100);
    r.rank(limit);
    r
}

#[test]
fn directed_support_only_and_explicit_abstention() {
    let mut s = TripletStore::new();
    add(&mut s, "a", "uses", "b", 1.0, 1);
    add(&mut s, "c", "other", "noise", 1.0, 1);
    add(&mut s, "unrelated", "uses", "candidate", 1.0, 1);
    add(&mut s, "reverse", "uses", "c", 1.0, 1);
    assert_eq!(solve(&s, "a", "b", "c", 3).reason, Some("no_target_relation"));
    assert_eq!(solve(&s, "b", "a", "c", 3).reason, Some("no_source_relation"));
    add(&mut s, "c", "uses", "b", 0.8, 1);
    let r = solve(&s, "a", "b", "c", 3);
    assert_eq!(r.results.len(), 1);
    assert_eq!(r.results[0][0].object, "b"); // b is a valid answer too.
    assert_eq!(r.results[0][0].source_memory_id, Some(42));
    assert!(r.reason.is_none());
    assert_eq!(solve(&s, "A", "b", "c", 3).reason, Some("no_source_relation"));
}

#[test]
fn ranking_twice_keeps_what_the_smaller_limit_keeps() {
    let mut s = TripletStore::new();
    add(&mut s, "a", "uses", "b", 1.0, 1);
    for (object, weight) in [("x", 0.5), ("y", 0.9), ("z", 0.7), ("x", 0.8), ("w", 0.1)] {
        add(&mut s, "c", "uses", object, weight, 1);
    }
    for (first, second) in [(3, 2), (1, 4), (0, 3), (4, 0), (9, 9)] {
        let mut twice = solve(&s, "a", "b", "c", first);
        twice.rank(second);
        let direct = solve(&s, "a", "b", "c", first.min(second));
        let ids = |r: &RelationTransfer| -> Vec<Vec<u64>> {
            r.results.iter().map(|g| g.iter().map(|e| e.id).collect()).collect()
        };
        assert_eq!(ids(&twice), ids(&direct));
    }
}

#[test]
fn replay_id_collisions_cannot_supply_false_source_or_target_edges() {
    let mut s = TripletStore::new();
    let source = add(&mut s, "a", "p", "b", 1.0, 1);
    let target = add(&mut s, "c", "p", "d", 1.0, 1);
    s.replay_add(target, "other".into(), "p".into(), "false".into(), 1.0f32.to_bits(), 1, None, None);
    assert_eq!(solve(&s, "a", "b", "c", 3).reason, Some("no_target_relation"));
    s.replay_add(source, "other".into(), "p".into(), "b".into(), 1.0f32.to_bits(), 1, None, None);
    assert_eq!(solve(&s, "a", "b", "other", 3).reason, Some("no_source_relation"));
}

#[test]
fn complete_beyond_old_bounds_and_invalid_prefix() {
    let mut s = TripletStore::new();
    for i in 0..10_100 {
        let id = add(&mut s, "c", "irrelevant", &format!("noise{i}"), 1.0, 1);
        s.invalidate(id, 2);
    }
    add(&mut s, "a", "zzz", "b", 1.0, 1);
    add(&mut s, "c", "zzz", "answer", 0.9, 3);
    assert_eq!(solve(&s, "a", "b", "c", 1).results[0][0].object, "answer");
}

#[test]
fn all_predicates_dedup_weight_recency_and_expiry() {
    let mut s = TripletStore::new();
    for p in ["p", "q"] {
        add(&mut s, "a", p, "b", 1.0, 1);
    }
    add(&mut s, "c", "p", "old", 0.9, 1);
    add(&mut s, "c", "q", "new", 0.9, 2);
    add(&mut s, "c", "p", "new", 0.8, 3);
    add(&mut s, "c", "p", "weak", 0.5, 99);
    add(&mut s, "c", "p", "future", 1.0, 101);
    let expired = add(&mut s, "c", "p", "expired", 1.0, 1);
    s.invalidate(expired, 99);
    let r = solve(&s, "a", "b", "c", 3);
    assert_eq!(r.relations.len(), 2);
    assert_eq!(
        r.results.iter().map(|e| e[0].object.as_str()).collect::<Vec<_>>(),
        vec!["new", "old", "weak"]
    );
    assert_eq!(r.results[0].len(), 2);
    assert_eq!(solve(&s, "a", "b", "c", 1).results.len(), 1);
    s.invalidate(r.relations[0].id, 99);
    s.invalidate(r.relations[1].id, 99);
    assert_eq!(solve(&s, "a", "b", "c", 3).reason, Some("no_source_relation"));
}

#[test]
fn weights_that_are_no_numbers_rank_last() {
    let mut s = TripletStore::new();
    add(&mut s, "a", "p", "b", 1.0, 1);
    add(&mut s, "c", "p", "bad", f32::NAN, 1);
    add(&mut s, "c", "p", "endless", f32::INFINITY, 1);
    add(&mut s, "c", "p", "poor", -5.0, 1);
    let r = solve(&s, "a", "b", "c", 10);
    assert_eq!(r.results[0][0].object, "poor");
    assert_eq!(r.results.len(), 3);
    assert_eq!(answer_of(&r.results[1][0], None).score, 0);
    assert_eq!(edge_order(&r.results[0][0], &r.results[1][0]), Ordering::Less);
    assert_eq!(edge_order(&r.results[0][0], &r.results[0][0]), Ordering::Equal);
    assert_eq!(edge_order(&r.results[1][0], &r.results[0][0]), Ordering::Greater);
}

#[test]
fn a_limit_of_zero_keeps_one_answer() {
    let mut s = TripletStore::new();
    add(&mut s, "a", "p", "b", 1.0, 1);
    add(&mut s, "c", "p", "x", 1.0, 1);
    add(&mut s, "c", "p", "y", 0.5, 1);
    let r = solve(&s, "a", "b", "c", 0);
    assert_eq!(r.results.len(), 1);
    assert_eq!(r.results[0][0].object, "x");
    assert_eq!(r.indexed, 3);
}

#[test]
fn a_request_is_checked_before_it_is_answered() {
    let mut s = TripletStore::new();
    add(&mut s, "a", "p", "b", 1.0, 1);
    add(&mut s, "c", "p", "x", 0.25, 1);
    let ask = |text: &str| recall_analogy(&s, text.as_bytes(), 100);
    assert_eq!(ask("{").err().unwrap(), "recall_analogy: bad JSON");
    assert_eq!(
        ask(r#"{"mode":"graph","a":"a","b":"b","c":"c"}"#).err().unwrap(),
        "recall_analogy supports proportional mode only; use query_graph for graph queries"
    );
    assert_eq!(
        ask(r#"{"a":"a","b":" ","c":"c"}"#).err().unwrap(),
        "proportional mode needs a, b and c (a:b :: c:?)"
    );
    assert_eq!(
        ask(r#"{"a":"a","b":"b"}"#).err().unwrap(),
        "proportional mode needs a, b and c (a:b :: c:?)"
    );
    let t = ask(r#"{"a":"a","b":"b","c":"c","limit":5}"#).unwrap();
    assert_eq!(t.results[0][0].object, "x");
    let a = answer_of(&t.results[0][0], None);
    assert_eq!((a.id, a.score, a.answer.as_str(), a.predicate.as_str()), (42, 0.25f32.to_bits(), "x", "p"));
}

#[test]
fn the_number_of_answers_is_bounded() {
    let limit = |n: Option<u64>| {
        check_analogy(true, None, Some("a".into()), Some("b".into()), Some("c".into()), n).unwrap().limit
    };
    assert_eq!(limit(None), 8);
    assert_eq!(limit(Some(0)), 1);
    assert_eq!(limit(Some(17)), 17);
    assert_eq!(limit(Some(1_000)), 100);
}

#[test]
fn facts_carry_their_source() {
    let f = Fact { subject: "s".into(), predicate: "p".into(), object: "o".into(), memory_id: Some(7) };
    assert_eq!(f.clone().memory_id, Some(7));
}
