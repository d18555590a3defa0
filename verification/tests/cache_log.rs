use draw_poker::cache::{hand_score_cached, load_cache, ResultCache};
use draw_poker::card::Card;
use draw_poker::codec::{encode_entry, parse_entry, CacheEntry};
use draw_poker::key::{get_hand_key, round_key, score_key};
use draw_poker::score::hand_score;

fn c(t: &str) -> Card {
    Card::from_text(t).unwrap()
}

fn hand(ts: [&str; 5]) -> Vec<Card> {
    ts.iter().map(|t| c(t)).collect()
}

#[test]
fn hand_key_is_order_independent() {
    let a = get_hand_key(&hand(["4s", "4c", "8s", "8c", "Qs"]));
    let b = get_hand_key(&hand(["Qs", "8c", "4s", "8s", "4c"]));
    let d = get_hand_key(&hand(["8c", "Qs", "4c", "8s", "4s"]));
    assert_eq!(a, b);
    assert_eq!(a, d);
    assert_eq!(a, "4s|8s|Qs|4c|8c");
}

#[test]
fn hand_keys_differ_for_different_hands() {
    let a = get_hand_key(&hand(["4s", "4c", "8s", "8c", "Qs"]));
    let b = get_hand_key(&hand(["4s", "4c", "8s", "8c", "Ks"]));
    assert_ne!(a, b);
}

#[test]
fn packed_keys_separate_hands_rounds_and_kinds() {
    let h1 = hand(["4s", "4c", "8s", "8c", "Qs"]);
    let h2 = hand(["4s", "4c", "8s", "8c", "Ks"]);
    assert_eq!(round_key(&h1, 1), round_key(&hand(["Qs", "8c", "4s", "8s", "4c"]), 1));
    assert_ne!(round_key(&h1, 1), round_key(&h2, 1));
    assert_ne!(round_key(&h1, 1), round_key(&h1, 2));
    assert_ne!(round_key(&h1, 1), score_key(&h1));
}

#[test]
fn entry_round_trip_reproduces_key_and_score() {
    let entry = CacheEntry {
        key: String::from("4s|8s|Qs|4c|8c:R1"),
        score: 60_124_000,
        cards: Some(vec![String::from("4s"), String::from("4c")]),
    };
    let line = encode_entry(&entry);
    assert_eq!(
        line,
        "{\"key\":\"4s|8s|Qs|4c|8c:R1\",\"score\":60124.000,\"cards\":[\"4s\",\"4c\"]}"
    );
    let back = parse_entry(&line).unwrap();
    assert_eq!(back.key, entry.key);
    assert_eq!(back.score, entry.score);
    assert_eq!(back.cards, Some(vec![String::from("4s"), String::from("4c")]));
}

#[test]
fn entry_round_trip_without_cards() {
    let entry = CacheEntry { key: String::from("k"), score: 5_000, cards: None };
    let line = encode_entry(&entry);
    assert_eq!(line, "{\"key\":\"k\",\"score\":5.000,\"cards\":null}");
    let back = parse_entry(&line).unwrap();
    assert_eq!(back.key, "k");
    assert_eq!(back.score, 5_000);
    assert!(back.cards.is_none());
}

#[test]
fn entry_round_trip_with_empty_cards() {
    let entry = CacheEntry { key: String::from("x:R3"), score: 123, cards: Some(vec![]) };
    let line = encode_entry(&entry);
    let back = parse_entry(&line).unwrap();
    assert_eq!(back.key, "x:R3");
    assert_eq!(back.score, 123);
    assert_eq!(back.cards, Some(vec![]));
}

#[test]
fn malformed_lines_parse_to_none() {
    assert!(parse_entry("").is_none());
    assert!(parse_entry("not json at all").is_none());
    assert!(parse_entry("{\"key\":\"k\"}").is_none());
    assert!(parse_entry("{\"key\":\"k\",\"score\":12,\"cards\":null}").is_none());
    assert!(parse_entry("{\"key\":\"k\",\"score\":1.000,\"cards\":null").is_none());
}

#[test]
fn loaded_log_populates_the_cache_under_the_round_key() {
    let h = hand(["4s", "4c", "8s", "8c", "Qs"]);
    let entry = CacheEntry {
        key: get_hand_key(&h) + ":R2",
        score: 42_000,
        cards: Some(vec![String::from("Qs")]),
    };
    let lines = vec![
        String::from("garbage that does not parse"),
        encode_entry(&entry),
        String::new(),
    ];
    let mut cache = load_cache(&lines, 1000);
    assert!(cache.contains_key(round_key(&h, 2)));
    assert!(!cache.contains_key(round_key(&h, 1)));
    assert_eq!(cache.get_round_score(round_key(&h, 2)), Some(42_000));
}

#[test]
fn memoized_evaluator_matches_direct_evaluation() {
    let h = hand(["4s", "4c", "8s", "8c", "Qs"]);
    let mut cache = ResultCache::new(1000);
    let direct = hand_score(&h);
    let first = hand_score_cached(&h, &mut cache);
    let second = hand_score_cached(&h, &mut cache);
    assert_eq!(first, direct);
    assert_eq!(second, direct);
    assert!(cache.contains_key(score_key(&h)));
}

#[test]
fn unparseable_cached_value_is_a_miss() {
    let h = hand(["2s", "3s", "4s", "5s", "6s"]);
    let mut cache = ResultCache::new(10);
    let k = round_key(&h, 1);
    cache.put_round_line(k, String::from("not a record at all"));
    assert!(cache.contains_key(k));
    assert_eq!(cache.get_round_score(k), None);
}

#[test]
fn cache_stores_and_serves_round_lines() {
    let h = hand(["As", "2h", "3d", "4c", "5s"]);
    let mut cache = ResultCache::new(10);
    let k = round_key(&h, 3);
    assert!(!cache.contains_key(k));
    assert_eq!(cache.get_round_score(k), None);
    let entry = CacheEntry { key: get_hand_key(&h) + ":R3", score: 40_005_000, cards: Some(vec![]) };
    cache.put_round_line(k, encode_entry(&entry));
    assert!(cache.contains_key(k));
    assert_eq!(cache.get_round_score(k), Some(40_005_000));
}
