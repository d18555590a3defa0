use draw_poker::cache::ResultCache;
use draw_poker::card::{full_deck, Card};
use draw_poker::codec::parse_entry;
use draw_poker::engine::{discard_masks, get_discards_details, shuffle_cards, SCORE_INFINITY};
use draw_poker::driver::{commit_sample, load_state, needs_append, prepare_sample, repair_sample, run_one_sample, run_samples};
use draw_poker::key::round_key;

fn c(t: &str) -> Card {
    Card::from_text(t).unwrap()
}

fn hand(ts: [&str; 5]) -> Vec<Card> {
    ts.iter().map(|t| c(t)).collect()
}

fn deck_without(h: &Vec<Card>) -> Vec<Card> {
    full_deck().into_iter().filter(|d| !h.contains(d)).collect()
}

#[test]
fn discard_subsets_are_complete_and_distributed() {
    let masks = discard_masks();
    assert_eq!(masks.len(), 32);
    let mut per_count = [0usize; 6];
    for m in &masks {
        per_count[m.count_ones() as usize] += 1;
    }
    assert_eq!(per_count, [1, 5, 10, 10, 5, 1]);
    for i in 0..32 {
        assert!(masks.contains(&(i as u32)));
    }
}

#[test]
fn shuffle_keeps_the_same_cards() {
    let mut deck = full_deck();
    shuffle_cards(&mut deck);
    assert_eq!(deck.len(), 52);
    let mut seen = full_deck();
    for card in &deck {
        let pos = seen.iter().position(|s| s == card).unwrap();
        seen.remove(pos);
    }
    assert!(seen.is_empty());
}

#[test]
fn keeping_two_pair_scores_it_directly() {
    // hand 4s 4c 8s 8c Qs, one terminal round, no trials: discarding
    // nothing is scored by the evaluator itself, every true discard is
    // impossible
    let h = hand(["4s", "4c", "8s", "8c", "Qs"]);
    let deck = deck_without(&h);
    let mut cache = ResultCache::new(1000);
    let details = get_discards_details(&h, &deck, 1, 0, &mut cache);
    assert_eq!(details.scores_per_discard_count.len(), 6);
    assert_eq!(details.scores_per_discard_count[0], 60_124_000);
    assert_eq!(details.best_score, 60_124_000);
    assert!(details.best_discard_indices.is_empty());
    assert!(details.best_discard_cards.is_empty());
    for k in 1..6 {
        assert_eq!(details.scores_per_discard_count[k], SCORE_INFINITY);
    }
}

#[test]
fn single_trial_terminal_round_reports_the_kept_hand_exactly() {
    let h = hand(["4s", "4c", "8s", "8c", "Qs"]);
    let deck = deck_without(&h);
    let mut cache = ResultCache::new(100000);
    let details = get_discards_details(&h, &deck, 1, 1, &mut cache);
    // the keep-everything subset has no randomness: its single trial is
    // the direct two-pair score
    assert_eq!(details.scores_per_discard_count[0], 60_124_000);
    assert!(details.best_score <= 60_124_000);
    for k in 0..6 {
        assert!(details.best_score <= details.scores_per_discard_count[k]);
    }
    assert_eq!(
        details.scores_per_discard_count[details.best_discard_indices.len()],
        details.best_score
    );
}

#[test]
fn deeper_rounds_populate_the_cache_for_the_next_round() {
    // with exactly five cards left in the deck only the keep-everything
    // subset can recurse, and it recurses on the hand itself: after the
    // two-round call the hand's one-round entry is cached, and no other
    // hand gained one
    let h = hand(["4s", "4c", "8s", "8c", "Qs"]);
    let small_deck = hand(["2h", "3h", "7d", "9c", "Jh"]);
    let mut cache = ResultCache::new(100000);
    let details = get_discards_details(&h, &small_deck, 2, 1, &mut cache);
    assert!(cache.contains_key(round_key(&h, 1)));
    let other = hand(["2s", "3s", "4s", "5s", "6s"]);
    assert!(!cache.contains_key(round_key(&other, 1)));
    assert_eq!(
        details.scores_per_discard_count[details.best_discard_indices.len()],
        details.best_score
    );
}

#[test]
fn sampler_appends_lines_that_parse_and_caches_them() {
    let mut state = load_state(&vec![], 100000);
    let mut appended_total = 0;
    for _ in 0..3 {
        if run_one_sample(&mut state, 1, 2) {
            appended_total += 1;
        }
    }
    assert_eq!(state.appended.len(), appended_total);
    for line in &state.appended {
        let entry = parse_entry(line).unwrap();
        assert!(entry.key.ends_with(":R1"));
        assert!(entry.cards.is_some());
        assert!(state.dedup.contains(line));
    }
}

#[test]
fn sampler_skips_hands_it_already_knows() {
    // run until something is cached, then replay the produced log from
    // scratch: every line the first run wrote is deduplicated away
    let mut state = load_state(&vec![], 100000);
    run_samples(&mut state, 5, 1, 1);
    let log = state.appended.clone();
    let mut reloaded = load_state(&log, 100000);
    let before = reloaded.appended.len();
    assert_eq!(before, 0);
    // a fresh sample may deal an unseen hand, but re-absorbing the old
    // log lines must never duplicate them
    for line in &log {
        assert!(reloaded.dedup.contains(line));
    }
}

#[test]
fn prepare_then_commit_appends_in_persisted_order() {
    // compute first; the line reaches the log model only at commit
    let mut state = load_state(&vec![], 100000);
    let pending = loop {
        if let Some(p) = prepare_sample(&mut state, 1, 1) {
            break p;
        }
    };
    assert_eq!(state.appended.len(), 0);
    assert_eq!(state.dedup.len(), 0);
    assert!(needs_append(&state, &pending));
    let line = pending.line.clone();
    assert!(commit_sample(&mut state, pending));
    assert_eq!(state.appended, vec![line.clone()]);
    assert_eq!(state.dedup, vec![line.clone()]);
    let entry = parse_entry(&line).unwrap();
    assert!(entry.key.ends_with(":R1"));
}

#[test]
fn repair_restores_the_cache_without_writing() {
    let mut state = load_state(&vec![], 100000);
    let pending = loop {
        if let Some(p) = prepare_sample(&mut state, 1, 1) {
            break p;
        }
    };
    let key = pending.key;
    repair_sample(&mut state, pending);
    assert!(state.appended.is_empty());
    assert!(state.dedup.is_empty());
    assert!(state.cache.contains_key(key));
}
