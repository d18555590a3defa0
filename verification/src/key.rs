use vstd::prelude::*;
use vstd::relations::{sorted_by, total_ordering};
use vstd::seq_lib::{lemma_sorted_unique, lemma_multiset_commutative};
use vstd::string::StringExecFns;
use crate::card::{Card, spec_card_text, valid_card, valid_hand, quote_free, lemma_card_text_safe};

verus! {

broadcast use vstd::seq_lib::group_to_multiset_ensures, vstd::multiset::group_multiset_axioms;

/// Cards order by their packed byte: suit-major, rank within suit.
pub open spec fn card_le() -> spec_fn(Card, Card) -> bool {
    |a: Card, b: Card| a.0 <= b.0
}

pub proof fn lemma_card_le_total()
    ensures
        total_ordering(card_le()),
{
    assert forall|a: Card, b: Card| #[trigger] card_le()(a, b) && card_le()(b, a) implies a
        == b by {
        assert(a.0 == b.0);
    }
}

/// The hand in canonical order: sorted by packed card value.
pub open spec fn spec_sort_hand(s: Seq<Card>) -> Seq<Card> {
    s.sort_by(card_le())
}

proof fn lemma_insert_multiset(s: Seq<Card>, j: int, c: Card)
    requires
        0 <= j <= s.len(),
    ensures
        s.insert(j, c).to_multiset() == s.to_multiset().insert(c),
{
    let t = s.insert(j, c);
    assert(t =~= s.take(j) + (seq![c] + s.skip(j)));
    lemma_multiset_commutative(s.take(j), seq![c] + s.skip(j));
    lemma_multiset_commutative(seq![c], s.skip(j));
    assert(s =~= s.take(j) + s.skip(j));
    lemma_multiset_commutative(s.take(j), s.skip(j));
    assert(seq![c].to_multiset() =~= Seq::<Card>::empty().push(c).to_multiset());
    assert(Seq::<Card>::empty().push(c).to_multiset() =~= Seq::<Card>::empty().to_multiset().insert(
        c,
    ));
    assert(Seq::<Card>::empty().to_multiset() =~= vstd::multiset::Multiset::<Card>::empty());
    assert(t.to_multiset() =~= s.to_multiset().insert(c));
}

/// Sorts a hand into canonical order by insertion.
pub fn sort_hand(v: &Vec<Card>) -> (r: Vec<Card>)
    ensures
        r@ == spec_sort_hand(v@),
        r@.to_multiset() == v@.to_multiset(),
        r@.len() == v@.len(),
        sorted_by(r@, card_le()),
{
    let mut out: Vec<Card> = Vec::new();
    let mut i: usize = 0;
    while i < v.len()
        invariant
            0 <= i <= v@.len(),
            sorted_by(out@, card_le()),
            out@.to_multiset() == v@.take(i as int).to_multiset(),
            out@.len() == i,
        decreases v@.len() - i,
    {
        let c = v[i];
        let mut j: usize = 0;
        while j < out.len() && out[j].0 <= c.0
            invariant
                0 <= j <= out@.len(),
                forall|k: int| 0 <= k < j ==> (#[trigger] out@[k]).0 <= c.0,
            decreases out@.len() - j,
        {
            j = j + 1;
        }
        let ghost opre = out@;
        out.insert(j, c);
        proof {
            assert(out@ =~= opre.insert(j as int, c));
            assert(out@ =~= opre.take(j as int) + seq![c] + opre.skip(j as int));
            lemma_insert_multiset(opre, j as int, c);
            assert(v@.take(i as int + 1) =~= v@.take(i as int).push(v@[i as int]));
            assert(v@.take(i as int + 1).to_multiset() =~= v@.take(
                i as int,
            ).to_multiset().insert(c));
            assert forall|a: int, b: int| 0 <= a < b < out@.len() implies #[trigger] card_le()(
                out@[a],
                out@[b],
            ) by {
                if b < j {
                    assert(out@[a] == opre[a] && out@[b] == opre[b]);
                    assert(card_le()(opre[a], opre[b]));
                } else if a < j && b == j {
                    assert(out@[a] == opre[a] && out@[b] == c);
                    assert(opre[a].0 <= c.0);
                } else if a < j && b > j {
                    assert(out@[a] == opre[a] && out@[b] == opre[b - 1]);
                    assert(card_le()(opre[a], opre[b - 1]));
                } else if a == j {
                    assert(out@[a] == c && out@[b] == opre[b - 1]);
                    assert(b - 1 >= j);
                    if b - 1 == j {
                        assert(!(opre[j as int].0 <= c.0));
                    } else {
                        assert(!(opre[j as int].0 <= c.0));
                        assert(card_le()(opre[j as int], opre[b - 1]));
                    }
                } else {
                    assert(out@[a] == opre[a - 1] && out@[b] == opre[b - 1]);
                    assert(card_le()(opre[a - 1], opre[b - 1]));
                }
            }
        }
        i = i + 1;
    }
    proof {
        assert(v@.take(v@.len() as int) =~= v@);
        v@.lemma_sort_by_ensures(card_le());
        lemma_card_le_total();
        lemma_sorted_unique(out@, spec_sort_hand(v@), card_le());
    }
    out
}

/// The canonical key text of a hand already in canonical order: the
/// cards' texts joined with a bar.
pub open spec fn join_cards(s: Seq<Card>) -> Seq<char>
    decreases s.len(),
{
    if s.len() == 0 {
        Seq::<char>::empty()
    } else if s.len() == 1 {
        spec_card_text(s[0])
    } else {
        join_cards(s.drop_last()) + "|"@ + spec_card_text(s.last())
    }
}

/// The canonical hand key: sort, render each card, join with bars.
/// Hands that differ only in order share one key.
pub open spec fn spec_hand_key(s: Seq<Card>) -> Seq<char> {
    join_cards(spec_sort_hand(s))
}

/// Renders the canonical key of a hand.
pub fn get_hand_key(hand: &Vec<Card>) -> (r: String)
    requires
        valid_hand(hand@),
    ensures
        r@ == spec_hand_key(hand@),
{
    let sorted = sort_hand(hand);
    proof {
        assert forall|i: int| 0 <= i < sorted@.len() implies valid_card(
            #[trigger] sorted@[i],
        ) by {
            assert(sorted@.to_multiset().count(sorted@[i]) > 0);
            assert(hand@.contains(sorted@[i]));
        }
    }
    let mut out = String::new();
    let mut i: usize = 0;
    while i < sorted.len()
        invariant
            0 <= i <= sorted@.len(),
            valid_hand(sorted@),
            out@ == join_cards(sorted@.take(i as int)),
        decreases sorted@.len() - i,
    {
        if i > 0 {
            proof {
                reveal_strlit("|");
            }
            out.append("|");
        }
        let t = sorted[i].to_text();
        out.append(t.as_str());
        proof {
            let pre = sorted@.take(i as int);
            let now = sorted@.take(i as int + 1);
            assert(now.drop_last() =~= pre);
            assert(now.last() == sorted@[i as int]);
            if i == 0 {
                assert(out@ =~= join_cards(now));
            } else {
                assert(out@ =~= join_cards(pre) + "|"@ + spec_card_text(sorted@[i as int]));
            }
        }
        i = i + 1;
    }
    proof {
        assert(sorted@.take(sorted@.len() as int) =~= sorted@);
    }
    out
}

/// Canonicalization: any two orderings of the same cards share one
/// canonical key.
pub proof fn lemma_hand_key_permutation(s1: Seq<Card>, s2: Seq<Card>)
    requires
        s1.to_multiset() == s2.to_multiset(),
    ensures
        spec_hand_key(s1) == spec_hand_key(s2),
{
    lemma_card_le_total();
    s1.lemma_sort_by_ensures(card_le());
    s2.lemma_sort_by_ensures(card_le());
    lemma_sorted_unique(spec_sort_hand(s1), spec_sort_hand(s2), card_le());
}

proof fn lemma_join_cards_quote_free(s: Seq<Card>)
    requires
        valid_hand(s),
    ensures
        quote_free(join_cards(s)),
    decreases s.len(),
{
    reveal_strlit("|");
    if s.len() == 0 {
    } else if s.len() == 1 {
        lemma_card_text_safe(s[0]);
    } else {
        assert(valid_hand(s.drop_last())) by {
            assert(forall|i: int|
                0 <= i < s.drop_last().len() ==> #[trigger] s.drop_last()[i] == s[i]);
        }
        lemma_join_cards_quote_free(s.drop_last());
        lemma_card_text_safe(s.last());
        let t = join_cards(s);
        let a = join_cards(s.drop_last());
        let b = spec_card_text(s.last());
        assert(t == a + "|"@ + b);
        assert("|"@.len() == 1 && "|"@[0] == '|');
        assert forall|i: int| 0 <= i < t.len() implies (#[trigger] t[i]) != '"' by {
            if i < a.len() {
                assert(t[i] == a[i]);
            } else if i < a.len() + 1 {
                assert(t[i] == '|');
            } else {
                assert(t[i] == b[i - a.len() - 1]);
            }
        }
    }
}

/// A canonical hand key never holds a double quote, so it embeds safely
/// in a record's quoted key field.
pub proof fn lemma_hand_key_quote_free(s: Seq<Card>)
    requires
        valid_hand(s),
    ensures
        quote_free(spec_hand_key(s)),
{
    lemma_sorted_valid(s);
    lemma_join_cards_quote_free(spec_sort_hand(s));
}

/// The joined key text read from the front: the first card's text, a
/// bar, then the rest.
pub proof fn lemma_join_cards_front(s: Seq<Card>)
    requires
        s.len() >= 2,
    ensures
        join_cards(s) == spec_card_text(s[0]) + "|"@ + join_cards(s.drop_first()),
    decreases s.len(),
{
    if s.len() == 2 {
        assert(s.drop_last() =~= seq![s[0]]);
        assert(s.drop_first() =~= seq![s[1]]);
        assert(join_cards(s) =~= spec_card_text(s[0]) + "|"@ + spec_card_text(s[1]));
    } else {
        lemma_join_cards_front(s.drop_last());
        assert(s.drop_last()[0] == s[0]);
        assert(s.drop_last().drop_first() =~= s.drop_first().drop_last());
        assert(s.drop_first().last() == s.last());
        assert(s.drop_first().len() >= 2);
        assert(join_cards(s) == join_cards(s.drop_last()) + "|"@ + spec_card_text(s.last()));
        assert(join_cards(s.drop_last()) == spec_card_text(s[0]) + "|"@ + join_cards(
            s.drop_last().drop_first(),
        ));
        assert(join_cards(s.drop_first()) == join_cards(s.drop_first().drop_last()) + "|"@
            + spec_card_text(s.drop_first().last()));
        assert(join_cards(s) =~= spec_card_text(s[0]) + "|"@ + join_cards(s.drop_first()));
    }
}

/// No character of a joined key text is a colon, and its bars are only
/// the separators.
pub proof fn lemma_join_cards_no_colon(s: Seq<Card>)
    requires
        valid_hand(s),
    ensures
        forall|i: int| 0 <= i < join_cards(s).len() ==> (#[trigger] join_cards(s)[i]) != ':',
    decreases s.len(),
{
    reveal_strlit("|");
    if s.len() == 0 {
    } else if s.len() == 1 {
        lemma_card_text_safe(s[0]);
    } else {
        assert(valid_hand(s.drop_last())) by {
            assert(forall|i: int|
                0 <= i < s.drop_last().len() ==> #[trigger] s.drop_last()[i] == s[i]);
        }
        lemma_join_cards_no_colon(s.drop_last());
        lemma_card_text_safe(s.last());
        let t = join_cards(s);
        let a = join_cards(s.drop_last());
        let b = spec_card_text(s.last());
        assert("|"@.len() == 1 && "|"@[0] == '|');
        assert forall|i: int| 0 <= i < t.len() implies (#[trigger] t[i]) != ':' by {
            if i < a.len() {
                assert(t[i] == a[i]);
            } else if i < a.len() + 1 {
                assert(t[i] == '|');
            } else {
                assert(t[i] == b[i - a.len() - 1]);
            }
        }
    }
}

/// Sorting is idempotent: a canonical hand sorts to itself.
pub proof fn lemma_sort_idempotent(h: Seq<Card>)
    ensures
        spec_sort_hand(spec_sort_hand(h)) == spec_sort_hand(h),
{
    lemma_card_le_total();
    h.lemma_sort_by_ensures(card_le());
    spec_sort_hand(h).lemma_sort_by_ensures(card_le());
    lemma_sorted_unique(spec_sort_hand(spec_sort_hand(h)), spec_sort_hand(h), card_le());
}

// ---------------------------------------------------------------------
// Packed integer cache keys.
// ---------------------------------------------------------------------
/// A hand packed as base-64 digits, least significant card first; each
/// valid card's byte is below 64, so the packing is injective.
pub open spec fn pack_cards(s: Seq<Card>) -> int
    decreases s.len(),
{
    if s.len() == 0 {
        0
    } else {
        s[0].0 + 64 * pack_cards(s.drop_first())
    }
}

pub open spec fn pow64(n: nat) -> int
    decreases n,
{
    if n == 0 {
        1
    } else {
        64 * pow64((n - 1) as nat)
    }
}

pub proof fn lemma_pack_bound(s: Seq<Card>)
    requires
        valid_hand(s),
        s.len() <= 5,
    ensures
        0 <= pack_cards(s) < pow64(s.len()),
        0 <= pack_cards(s) < 1073741824,
    decreases s.len(),
{
    assert(pow64(0) == 1 && pow64(1) == 64 && pow64(2) == 4096 && pow64(3) == 262144 && pow64(4)
        == 16777216 && pow64(5) == 1073741824) by {
        reveal_with_fuel(pow64, 7);
    }
    if s.len() > 0 {
        assert(valid_hand(s.drop_first())) by {
            assert(forall|i: int|
                0 <= i < s.drop_first().len() ==> #[trigger] s.drop_first()[i] == s[i + 1]);
        }
        lemma_pack_bound(s.drop_first());
        assert(s[0].0 < 64);
        assert(pack_cards(s) <= 63 + 64 * (pow64((s.len() - 1) as nat) - 1));
    }
}

pub proof fn lemma_pack_injective(s1: Seq<Card>, s2: Seq<Card>)
    requires
        valid_hand(s1),
        valid_hand(s2),
        s1.len() == s2.len(),
        pack_cards(s1) == pack_cards(s2),
    ensures
        s1 =~= s2,
    decreases s1.len(),
{
    if s1.len() > 0 {
        let a = s1[0].0 as int;
        let b = s2[0].0 as int;
        let ta = pack_cards(s1.drop_first());
        let tb = pack_cards(s2.drop_first());
        assert(a < 64 && b < 64);
        assert(a + 64 * ta == b + 64 * tb);
        assert(a == b && ta == tb) by (nonlinear_arith)
            requires
                0 <= a < 64,
                0 <= b < 64,
                a + 64 * ta == b + 64 * tb,
        ;
        assert(s1[0] == s2[0]);
        assert(valid_hand(s1.drop_first()) && valid_hand(s2.drop_first())) by {
            assert(forall|i: int|
                0 <= i < s1.drop_first().len() ==> #[trigger] s1.drop_first()[i] == s1[i + 1]);
            assert(forall|i: int|
                0 <= i < s2.drop_first().len() ==> #[trigger] s2.drop_first()[i] == s2[i + 1]);
        }
        lemma_pack_injective(s1.drop_first(), s2.drop_first());
        assert forall|i: int| 0 <= i < s1.len() implies s1[i] == s2[i] by {
            if i > 0 {
                assert(s1.drop_first()[i - 1] == s2.drop_first()[i - 1]);
            }
        }
    }
}

/// The in-memory cache key for a terminal score entry: the packed sorted
/// hand with an even kind bit.
pub open spec fn spec_score_key(h: Seq<Card>) -> int {
    (pack_cards(spec_sort_hand(h)) * 2) * 0x100000000
}

/// The in-memory cache key for a round entry: the packed sorted hand
/// with an odd kind bit, plus the round number.
pub open spec fn spec_round_key(h: Seq<Card>, round: u32) -> int {
    (pack_cards(spec_sort_hand(h)) * 2 + 1) * 0x100000000 + round
}

/// The round key as the machine word the cache is keyed by.
pub open spec fn spec_round_key_u(h: Seq<Card>, round: u32) -> u64 {
    spec_round_key(h, round) as u64
}

/// The round number a round key carries: its low machine word.
pub open spec fn round_part(k: u64) -> int {
    (k as int) % 0x100000000
}

pub open spec fn is_score_kind(k: u64) -> bool {
    ((k as int) / 0x100000000) % 2 == 0
}

fn pack_hand_x(sorted: &Vec<Card>) -> (r: u64)
    requires
        valid_hand(sorted@),
        sorted@.len() == 5,
    ensures
        r as int == pack_cards(sorted@),
        r < 1073741824,
{
    proof {
        lemma_pack_bound(sorted@);
    }
    let mut acc: u64 = 0;
    let mut i: usize = 5;
    while i > 0
        invariant
            0 <= i <= 5,
            valid_hand(sorted@),
            sorted@.len() == 5,
            acc as int == pack_cards(sorted@.skip(i as int)),
            acc < 1073741824,
        decreases i,
    {
        i = i - 1;
        proof {
            assert(valid_hand(sorted@.skip(i as int))) by {
                assert(forall|j: int|
                    0 <= j < sorted@.skip(i as int).len() ==> #[trigger] sorted@.skip(
                        i as int,
                    )[j] == sorted@[j + i]);
            }
            lemma_pack_bound(sorted@.skip(i as int));
            assert(sorted@.skip(i as int).drop_first() =~= sorted@.skip(i as int + 1));
            assert(sorted@.skip(i as int)[0] == sorted@[i as int]);
        }
        acc = sorted[i].0 as u64 + 64 * acc;
    }
    proof {
        assert(sorted@.skip(0) =~= sorted@);
    }
    acc
}

/// The packed cache key under which a hand's terminal score is held.
pub fn score_key(hand: &Vec<Card>) -> (r: u64)
    requires
        valid_hand(hand@),
        hand@.len() == 5,
    ensures
        r as int == spec_score_key(hand@),
        is_score_kind(r),
{
    let sorted = sort_hand(hand);
    proof {
        lemma_sorted_valid(hand@);
        lemma_pack_bound(sorted@);
    }
    let p = pack_hand_x(&sorted);
    let r = (p * 2) * 0x100000000;
    proof {
        assert(((p * 2) * 0x100000000) as int / 0x100000000 == p * 2) by (nonlinear_arith)
            requires
                p < 1073741824,
        ;
        assert((p as int * 2) % 2 == 0) by (nonlinear_arith);
    }
    r
}

/// The packed cache key under which a hand's best result for a round is
/// held.
pub fn round_key(hand: &Vec<Card>, round: u32) -> (r: u64)
    requires
        valid_hand(hand@),
        hand@.len() == 5,
    ensures
        r as int == spec_round_key(hand@, round),
        !is_score_kind(r),
{
    let sorted = sort_hand(hand);
    proof {
        lemma_sorted_valid(hand@);
        lemma_pack_bound(sorted@);
    }
    let p = pack_hand_x(&sorted);
    let r = (p * 2 + 1) * 0x100000000 + (round as u64);
    proof {
        let pi = p as int;
        assert(((pi * 2 + 1) * 0x100000000 + round) / 0x100000000 == pi * 2 + 1)
            by (nonlinear_arith)
            requires
                0 <= pi < 1073741824,
                0 <= round < 0x100000000,
        ;
        assert((pi * 2 + 1) % 2 == 1) by (nonlinear_arith);
    }
    r
}

/// Sorting keeps every card valid.
pub proof fn lemma_sorted_valid(h: Seq<Card>)
    requires
        valid_hand(h),
    ensures
        valid_hand(spec_sort_hand(h)),
        spec_sort_hand(h).len() == h.len(),
{
    lemma_card_le_total();
    h.lemma_sort_by_ensures(card_le());
    let s = spec_sort_hand(h);
    assert(s.to_multiset() == h.to_multiset());
    assert(s.len() == s.to_multiset().len());
    assert(h.len() == h.to_multiset().len());
    assert forall|i: int| 0 <= i < s.len() implies valid_card(#[trigger] s[i]) by {
        assert(s.to_multiset().count(s[i]) > 0);
        assert(h.contains(s[i]));
    }
}

/// A round key decodes back to its kind bit and round number.
pub proof fn lemma_round_key_parts(h: Seq<Card>, round: u32)
    requires
        valid_hand(h),
        h.len() == 5,
    ensures
        !is_score_kind(spec_round_key(h, round) as u64),
        round_part(spec_round_key(h, round) as u64) == round,
        spec_round_key_u(h, round) as int == spec_round_key(h, round),
{
    lemma_sorted_valid(h);
    lemma_pack_bound(spec_sort_hand(h));
    let p = pack_cards(spec_sort_hand(h));
    let v = (p * 2 + 1) * 0x100000000 + round;
    assert(v == (p * 2 + 1) * 0x100000000 + round);
    vstd::arithmetic::div_mod::lemma_fundamental_div_mod_converse(
        v,
        0x100000000,
        p * 2 + 1,
        round as int,
    );
    assert((p * 2 + 1) % 2 == 1) by (nonlinear_arith);
    assert(0 <= v < 0x8000000100000000) by (nonlinear_arith)
        requires
            0 <= p < 1073741824,
            0 <= round < 0x100000000,
            v == (p * 2 + 1) * 0x100000000 + round,
    ;
}

/// Two hands of five valid cards with one score key hold the same cards.
pub proof fn lemma_score_key_injective(h1: Seq<Card>, h2: Seq<Card>)
    requires
        valid_hand(h1),
        valid_hand(h2),
        h1.len() == 5,
        h2.len() == 5,
        spec_score_key(h1) == spec_score_key(h2),
    ensures
        spec_sort_hand(h1) == spec_sort_hand(h2),
        h1.to_multiset() == h2.to_multiset(),
{
    lemma_sorted_valid(h1);
    lemma_sorted_valid(h2);
    lemma_pack_bound(spec_sort_hand(h1));
    lemma_pack_bound(spec_sort_hand(h2));
    let p1 = pack_cards(spec_sort_hand(h1));
    let p2 = pack_cards(spec_sort_hand(h2));
    assert(p1 == p2) by (nonlinear_arith)
        requires
            (p1 * 2) * 0x100000000 == (p2 * 2) * 0x100000000,
    ;
    lemma_pack_injective(spec_sort_hand(h1), spec_sort_hand(h2));
    lemma_card_le_total();
    h1.lemma_sort_by_ensures(card_le());
    h2.lemma_sort_by_ensures(card_le());
}

} // verus!
