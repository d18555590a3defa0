use draw_poker::card::Card;
use draw_poker::card::full_deck;
use draw_poker::score::hand_score;

fn c(t: &str) -> Card {
    Card::from_text(t).unwrap()
}

fn hand(ts: [&str; 5]) -> Vec<Card> {
    ts.iter().map(|t| c(t)).collect()
}

fn score_of(ts: [&str; 5]) -> u64 {
    hand_score(&hand(ts))
}

#[test]
fn card_construction_and_accessors() {
    let card = Card::new(14, 0);
    assert_eq!(card.rank(), 14);
    assert_eq!(card.suit_bits(), 0);
    assert_eq!(card.to_text(), "As");
}

#[test]
fn card_text_round_trip() {
    assert_eq!(Card::from_text("10s").unwrap().rank(), 10);
    assert_eq!(Card::from_text("Th").unwrap().rank(), 10);
    assert_eq!(Card::from_text("Qd").unwrap().suit_bits(), 2);
    assert_eq!(Card::from_text("2c").unwrap().to_text(), "2c");
    assert_eq!(Card::from_text("10h").unwrap().to_text(), "10h");
}

#[test]
fn card_text_rejects_malformed() {
    assert!(Card::from_text("").is_none());
    assert!(Card::from_text("s").is_none());
    assert!(Card::from_text("1s").is_none());
    assert!(Card::from_text("11s").is_none());
    assert!(Card::from_text("4x").is_none());
    assert!(Card::from_text("104s").is_none());
}

#[test]
fn full_deck_is_52_distinct_cards() {
    let deck = full_deck();
    assert_eq!(deck.len(), 52);
    assert_eq!(deck[0].to_text(), "2s");
    assert_eq!(deck[12].to_text(), "As");
    assert_eq!(deck[13].to_text(), "2h");
    for i in 0..52 {
        for j in (i + 1)..52 {
            assert!(deck[i] != deck[j]);
        }
    }
}

#[test]
fn category_scores_are_exact() {
    // straight flush, high card six
    assert_eq!(score_of(["2s", "3s", "4s", "5s", "6s"]), 6_000);
    // four of a kind on nines
    assert_eq!(score_of(["9s", "9h", "9d", "9c", "2s"]), 10_009_000);
    // full house, nines over fours
    assert_eq!(score_of(["9s", "9h", "9d", "4c", "4s"]), 20_009_000);
    // flush led by the king
    assert_eq!(score_of(["2s", "5s", "9s", "Js", "Ks"]), 30_013_000);
    // ace-high straight in mixed suits
    assert_eq!(score_of(["10s", "Jh", "Qd", "Kc", "As"]), 40_014_000);
    // three sevens
    assert_eq!(score_of(["7s", "7h", "7d", "2c", "9s"]), 50_007_000);
    // two pair, eights over fours, queen kicker
    assert_eq!(score_of(["4s", "4c", "8s", "8c", "Qs"]), 60_124_000);
    // one pair of fives
    assert_eq!(score_of(["5s", "5h", "2d", "9c", "Js"]), 71_125_000);
    // ace-high nothing
    assert_eq!(score_of(["2s", "5h", "9d", "Jc", "As"]), 80_014_000);
}

#[test]
fn categories_order_strictly() {
    let sf = score_of(["2s", "3s", "4s", "5s", "6s"]);
    let quads = score_of(["9s", "9h", "9d", "9c", "2s"]);
    let full = score_of(["9s", "9h", "9d", "4c", "4s"]);
    let flush = score_of(["2s", "5s", "9s", "Js", "Ks"]);
    let straight = score_of(["10s", "Jh", "Qd", "Kc", "As"]);
    let trips = score_of(["7s", "7h", "7d", "2c", "9s"]);
    let two_pair = score_of(["4s", "4c", "8s", "8c", "Qs"]);
    let pair = score_of(["5s", "5h", "2d", "9c", "Js"]);
    let high = score_of(["2s", "5h", "9d", "Jc", "As"]);
    assert!(sf < quads);
    assert!(quads < full);
    assert!(full < flush);
    assert!(flush < straight);
    assert!(straight < trips);
    assert!(trips < two_pair);
    assert!(two_pair < pair);
    assert!(pair < high);
}

#[test]
fn tiebreak_orders_within_category() {
    // a higher pair scores worse (higher) than a lower pair
    let fives = score_of(["5s", "5h", "2d", "9c", "Js"]);
    let kings = score_of(["Ks", "Kh", "2d", "9c", "Js"]);
    assert!(fives < kings);
    // a six-high straight beats a seven-high straight
    let six_high = score_of(["2s", "3h", "4d", "5c", "6s"]);
    let seven_high = score_of(["3s", "4h", "5d", "6c", "7s"]);
    assert!(six_high < seven_high);
}

#[test]
fn ace_low_straight_scores_as_five_high() {
    // the wheel is a straight with high card five, not ace-high junk
    assert_eq!(score_of(["As", "2h", "3d", "4c", "5s"]), 40_005_000);
    // and it beats the six-high straight's worse cousin: it is the best straight
    assert!(score_of(["As", "2h", "3d", "4c", "5s"]) < score_of(["2s", "3h", "4d", "5c", "6s"]));
}

#[test]
fn ace_low_straight_flush_is_a_straight_flush() {
    assert_eq!(score_of(["As", "2s", "3s", "4s", "5s"]), 5_000);
}

#[test]
fn evaluation_is_deterministic_and_order_blind() {
    let a = score_of(["4s", "4c", "8s", "8c", "Qs"]);
    let b = score_of(["4s", "4c", "8s", "8c", "Qs"]);
    assert_eq!(a, b);
    let shuffled = score_of(["Qs", "8c", "4s", "8s", "4c"]);
    assert_eq!(a, shuffled);
    let reversed = score_of(["Qs", "8c", "8s", "4c", "4s"]);
    assert_eq!(a, reversed);
}
