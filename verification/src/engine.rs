use vstd::prelude::*;
use vstd::arithmetic::div_mod::{lemma_div_is_ordered, lemma_fundamental_div_mod_converse};
use vstd::arithmetic::mul::lemma_mul_inequality;
use vstd::string::StringExecFns;
use rand::seq::SliceRandom;
use crate::card::{
    Card, spec_card_text, valid_card, valid_hand, quote_free, lemma_card_text_safe,
    lemma_text_safe_quote_free,
};
use crate::cache::{ResultCache, hand_score_cached};
use crate::codec::{
    CacheEntry, encode_entry, spec_parse_entry, entry_safe, lemma_entry_round_trip, cards_view,
};
use crate::key::{
    get_hand_key, round_key, spec_hand_key, spec_round_key, spec_round_key_u, is_score_kind,
    round_part, lemma_hand_key_quote_free, lemma_round_key_parts,
};
use crate::numtext::{u64_to_dec, spec_dec, lemma_dec_properties, is_digit};
use crate::score::{SCORE_MILLI_BOUND, spec_score_milli, lemma_score_milli_bound};

verus! {

broadcast use vstd::seq_lib::group_to_multiset_ensures, vstd::multiset::group_multiset_axioms;

/// The sentinel for "no real estimate": worse than any real score.
pub const SCORE_INFINITY: u64 = 0xFFFFFFFFFFFFFFFF;

/// The engine's answer for one query: per discard count the best rounded
/// estimate, the single best estimate overall, the winning subset's
/// positions in the hand, those positions' card texts, and the cache key
/// the driver tags the result with.
pub struct DiscardDetails {
    pub scores_per_discard_count: Vec<u64>,
    pub best_score: u64,
    pub best_discard_indices: Vec<usize>,
    pub best_discard_cards: Vec<String>,
    pub key: Option<String>,
}

/// Relies on rand's SliceRandom::shuffle with a thread-local generator:
/// a random permutation in place — the same cards in some order, none
/// added or lost, whatever the randomness came to.
#[verifier::external_body]
pub fn shuffle_cards(v: &mut Vec<Card>)
    ensures
        final(v)@.to_multiset() == old(v)@.to_multiset(),
        final(v)@.len() == old(v)@.len(),
{
    v.shuffle(&mut rand::thread_rng());
}

fn clone_cards(v: &Vec<Card>) -> (r: Vec<Card>)
    ensures
        r@ == v@,
{
    let mut out: Vec<Card> = Vec::new();
    let mut i: usize = 0;
    while i < v.len()
        invariant
            0 <= i <= v@.len(),
            out@ =~= v@.take(i as int),
        decreases v@.len() - i,
    {
        out.push(v[i]);
        proof {
            assert(out@ =~= v@.take(i as int + 1));
        }
        i = i + 1;
    }
    proof {
        assert(v@.take(v@.len() as int) =~= v@);
    }
    out
}

/// A permutation of valid cards is valid.
pub(crate) proof fn lemma_multiset_valid(a: Seq<Card>, b: Seq<Card>)
    requires
        a.to_multiset() == b.to_multiset(),
        valid_hand(a),
    ensures
        valid_hand(b),
{
    assert forall|i: int| 0 <= i < b.len() implies valid_card(#[trigger] b[i]) by {
        assert(b.to_multiset().count(b[i]) > 0);
        assert(a.contains(b[i]));
    }
}

/// Bit `i` of the discard mask: set means position `i` is discarded.
pub open spec fn bit5(m: u32, i: int) -> int {
    if i == 0 {
        (m as int) % 2
    } else if i == 1 {
        ((m as int) / 2) % 2
    } else if i == 2 {
        ((m as int) / 4) % 2
    } else if i == 3 {
        ((m as int) / 8) % 2
    } else {
        ((m as int) / 16) % 2
    }
}

/// How many of the five positions the mask discards.
pub open spec fn pop_upto(m: u32, j: int) -> int
    decreases j,
{
    if j <= 0 {
        0
    } else {
        pop_upto(m, j - 1) + bit5(m, j - 1)
    }
}

pub open spec fn spec_popcount5(m: u32) -> int {
    pop_upto(m, 5)
}

fn bit5_x(m: u32, i: usize) -> (b: u32)
    requires
        i < 5,
    ensures
        b as int == bit5(m, i as int),
        b <= 1,
{
    if i == 0 {
        m % 2
    } else if i == 1 {
        (m / 2) % 2
    } else if i == 2 {
        (m / 4) % 2
    } else if i == 3 {
        (m / 8) % 2
    } else {
        (m / 16) % 2
    }
}

proof fn lemma_pop_upto_bounds(m: u32, j: int)
    requires
        0 <= j <= 5,
    ensures
        0 <= pop_upto(m, j) <= j,
    decreases j,
{
    if j > 0 {
        lemma_pop_upto_bounds(m, j - 1);
    }
}

fn popcount5(m: u32) -> (r: u32)
    ensures
        r as int == spec_popcount5(m),
        r <= 5,
{
    proof {
        reveal_with_fuel(pop_upto, 6);
        lemma_pop_upto_bounds(m, 5);
    }
    m % 2 + (m / 2) % 2 + (m / 4) % 2 + (m / 8) % 2 + (m / 16) % 2
}

/// Every discard subset of a five-card hand, one mask each: the masks 0
/// through 31 in ascending order — exactly 2^5 = 32 of them, no subset
/// missed and none repeated.
pub fn discard_masks() -> (r: Vec<u32>)
    ensures
        r@.len() == 32,
        forall|i: int| 0 <= i < 32 ==> #[trigger] r@[i] == i as u32,
        forall|i: int, j: int| 0 <= i < j < 32 ==> r@[i] != r@[j],
{
    let mut out: Vec<u32> = Vec::new();
    let mut m: u32 = 0;
    while m < 32
        invariant
            0 <= m <= 32,
            out@.len() == m,
            forall|i: int| 0 <= i < m ==> #[trigger] out@[i] == i as u32,
        decreases 32 - m,
    {
        out.push(m);
        m = m + 1;
    }
    out
}

/// How many of the masks below `m` discard exactly `k` cards.
pub open spec fn count_masks(k: int, m: int) -> int
    decreases m,
{
    if m <= 0 {
        0
    } else {
        count_masks(k, m - 1) + if spec_popcount5((m - 1) as u32) == k {
            1int
        } else {
            0int
        }
    }
}

/// The thirty-two discard subsets of a five-card hand spread over the
/// discard counts as the binomial coefficients: 1, 5, 10, 10, 5, 1.
#[verifier::rlimit(100)]
pub proof fn lemma_discard_distribution()
    ensures
        count_masks(0, 32) == 1,
        count_masks(1, 32) == 5,
        count_masks(2, 32) == 10,
        count_masks(3, 32) == 10,
        count_masks(4, 32) == 5,
        count_masks(5, 32) == 1,
{
    reveal_with_fuel(count_masks, 33);
    reveal_with_fuel(pop_upto, 6);
}

/// The smallest mask that discards exactly `k` cards: the low `k` bits.
pub open spec fn first_full_mask(k: int) -> int
    decreases k,
{
    if k <= 0 {
        0
    } else {
        2 * first_full_mask(k - 1) + 1
    }
}

proof fn lemma_first_full_mask_facts()
    ensures
        first_full_mask(0) == 0,
        first_full_mask(1) == 1,
        first_full_mask(2) == 3,
        first_full_mask(3) == 7,
        first_full_mask(4) == 15,
        first_full_mask(5) == 31,
        spec_popcount5(0u32) == 0,
        spec_popcount5(1u32) == 1,
        spec_popcount5(3u32) == 2,
        spec_popcount5(7u32) == 3,
        spec_popcount5(15u32) == 4,
        spec_popcount5(31u32) == 5,
{
    reveal_with_fuel(first_full_mask, 7);
    reveal_with_fuel(pop_upto, 6);
}

/// How a search step may change the cache: the bound is kept, the entry
/// count never shrinks, every old key survives while the store stays
/// below its bound, and every new key is a terminal-score key or a
/// round key of an earlier round — never the call's own round key.
pub open spec fn cache_step_ok(pre: ResultCache, post: ResultCache, round_number: u32) -> bool {
    &&& post.capacity() == pre.capacity()
    &&& post.contents().dom().len() >= pre.contents().dom().len()
    &&& (post.contents().dom().len() < post.capacity() ==> forall|k2: u64|
        pre.contents().dom().contains(k2) ==> post.contents().dom().contains(k2))
    &&& forall|k2: u64|
        #[trigger] post.contents().dom().contains(k2) && !pre.contents().dom().contains(k2)
            ==> is_score_kind(k2) || (round_number > 1 && round_part(k2) < round_number as int)
}

proof fn lemma_cache_step_trans(a: ResultCache, b: ResultCache, c: ResultCache, round_number: u32)
    requires
        cache_step_ok(a, b, round_number),
        cache_step_ok(b, c, round_number),
    ensures
        cache_step_ok(a, c, round_number),
{
    assert forall|k2: u64|
        #[trigger] c.contents().dom().contains(k2) && !a.contents().dom().contains(
            k2,
        ) implies is_score_kind(k2) || (round_number > 1 && round_part(k2)
        < round_number as int) by {
        if b.contents().dom().contains(k2) {
        }
    }
    if c.contents().dom().len() < c.capacity() {
        assert(b.contents().dom().len() <= c.contents().dom().len());
        assert forall|k2: u64| a.contents().dom().contains(k2) implies c.contents().dom().contains(
            k2,
        ) by {
            assert(b.contents().dom().contains(k2));
        }
    }
}

/// The mask's discarded positions, ascending.
fn mask_to_indices(m: u32) -> (r: Vec<usize>)
    ensures
        r@.len() as int == spec_popcount5(m),
        forall|j: int| 0 <= j < r@.len() ==> #[trigger] r@[j] < 5,
        forall|j1: int, j2: int| 0 <= j1 < j2 < r@.len() ==> r@[j1] < r@[j2],
{
    let mut out: Vec<usize> = Vec::new();
    let mut i: usize = 0;
    while i < 5
        invariant
            0 <= i <= 5,
            out@.len() as int == pop_upto(m, i as int),
            forall|j: int| 0 <= j < out@.len() ==> #[trigger] out@[j] < i,
            forall|j1: int, j2: int| 0 <= j1 < j2 < out@.len() ==> out@[j1] < out@[j2],
        decreases 5 - i,
    {
        let b = bit5_x(m, i);
        if b == 1 {
            out.push(i);
        }
        i = i + 1;
    }
    out
}

/// The cards the mask keeps, in their original relative order.
fn kept_cards(hand: &Vec<Card>, m: u32) -> (r: Vec<Card>)
    requires
        hand@.len() == 5,
        valid_hand(hand@),
    ensures
        r@.len() as int == 5 - spec_popcount5(m),
        valid_hand(r@),
        spec_popcount5(m) == 0 ==> r@ == hand@,
{
    let mut out: Vec<Card> = Vec::new();
    let mut i: usize = 0;
    while i < 5
        invariant
            0 <= i <= 5,
            hand@.len() == 5,
            valid_hand(hand@),
            out@.len() as int == i - pop_upto(m, i as int),
            valid_hand(out@),
            pop_upto(m, i as int) == 0 ==> out@ =~= hand@.take(i as int),
        decreases 5 - i,
    {
        proof {
            lemma_pop_upto_bounds(m, i as int);
            lemma_pop_upto_bounds(m, i as int + 1);
        }
        let b = bit5_x(m, i);
        let ghost opre = out@;
        if b == 0 {
            out.push(hand[i]);
        }
        proof {
            assert forall|j: int| 0 <= j < out@.len() implies valid_card(#[trigger] out@[j]) by {
                if j < opre.len() {
                    assert(out@[j] == opre[j]);
                }
            }
            if pop_upto(m, i as int + 1) == 0 {
                assert(out@ =~= hand@.take(i as int + 1));
            }
        }
        i = i + 1;
    }
    proof {
        assert(hand@.take(5) =~= hand@);
    }
    out
}

/// The reported average: the trial sum over the trial count, rounded to
/// the nearest thousandth (ties up), still in thousandths.
pub open spec fn spec_round_div(sum: int, n: int) -> int {
    (2 * sum + n) / (2 * n)
}

fn round_milli_avg(sum: u64, n: u64) -> (r: u64)
    requires
        1 <= n <= 1000000000,
        sum <= 0x2000000000000000,
    ensures
        r as int == spec_round_div(sum as int, n as int),
{
    (2 * sum + n) / (2 * n)
}

/// Rounding the average is monotone in the sum.
proof fn lemma_round_div_le(a: int, b: int, n: int)
    requires
        0 <= a <= b,
        1 <= n,
    ensures
        spec_round_div(a, n) <= spec_round_div(b, n),
{
    lemma_div_is_ordered(2 * a + n, 2 * b + n, 2 * n);
}

/// The average of identical values is that value, exactly.
proof fn lemma_round_div_exact(v: int, n: int)
    requires
        0 <= v,
        1 <= n,
    ensures
        spec_round_div(n * v, n) == v,
{
    assert(2 * (n * v) + n == v * (2 * n) + n) by (nonlinear_arith);
    lemma_fundamental_div_mod_converse(2 * (n * v) + n, 2 * n, v, n);
}

/// The rounded average never exceeds a bound that every trial respects.
proof fn lemma_round_div_bound(sum: int, n: int, b: int)
    requires
        0 <= sum <= n * b,
        1 <= n,
        0 <= b,
    ensures
        0 <= spec_round_div(sum, n) <= b,
{
    assert(2 * (n * b) + n == b * (2 * n) + n) by (nonlinear_arith);
    lemma_fundamental_div_mod_converse(2 * (n * b) + n, 2 * n, b, n);
    lemma_div_is_ordered(2 * sum + n, 2 * (n * b) + n, 2 * n);
    lemma_div_is_ordered(0, 2 * sum + n, 2 * n);
}

/// Builds the persisted line for a round result: the canonical hand key
/// with the round suffix, the best expected score, and the winning
/// discard's card texts.
pub fn round_entry_line(hand: &Vec<Card>, round: u32, score: u64, cards: Vec<String>) -> (r:
    String)
    requires
        hand@.len() == 5,
        valid_hand(hand@),
        forall|j: int| 0 <= j < cards@.len() ==> quote_free(#[trigger] cards@[j]@),
    ensures
        spec_parse_entry(r@) == Some(
            (spec_hand_key(hand@) + ":R"@ + spec_dec(round as nat), score, Some(
                cards.deep_view(),
            )),
        ),
{
    let mut key = get_hand_key(hand);
    proof {
        reveal_strlit(":R");
    }
    key.append(":R");
    let rd = u64_to_dec(round as u64);
    key.append(rd.as_str());
    let ghost cvs = cards.deep_view();
    let entry = CacheEntry { key, score, cards: Some(cards) };
    let line = encode_entry(&entry);
    proof {
        lemma_hand_key_quote_free(hand@);
        lemma_dec_properties(round as nat);
        let kt = entry.key@;
        let hk = spec_hand_key(hand@);
        let dc = spec_dec(round as nat);
        assert(kt == hk + ":R"@ + dc);
        assert(":R"@.len() == 2 && ":R"@[0] == ':' && ":R"@[1] == 'R');
        assert forall|i: int| 0 <= i < kt.len() implies (#[trigger] kt[i]) != '"' by {
            if i < hk.len() {
                assert(kt[i] == hk[i]);
            } else if i < hk.len() + 2 {
                assert(kt[i] == ":R"@[i - hk.len()]);
            } else {
                assert(kt[i] == dc[i - hk.len() - 2]);
                assert(is_digit(dc[i - hk.len() - 2]));
            }
        }
        assert(cards_view(entry.cards) == Some(cvs));
        assert(entry_safe(kt, Some(cvs)));
        lemma_entry_round_trip(kt, score, Some(cvs));
    }
    line
}

/// The discard search engine. For the hand, the remaining deck and the
/// rounds left, it enumerates all 32 discard subsets by mask, estimates
/// each subset's expected score from `sims` sampled replacement draws —
/// scoring directly on the terminal round and otherwise going through
/// the shared cache, recursing on a miss — and reports, per discard
/// count, the best rounded estimate, together with the best subset
/// overall; the first subset to reach a new minimum wins ties. With no
/// trials at all, keeping the hand is scored directly and every actual
/// discard counts as impossible.
#[verifier::rlimit(100)]
pub fn get_discards_details(
    hand: &Vec<Card>,
    deck_left: &Vec<Card>,
    round_number: u32,
    sims: u64,
    cache: &mut ResultCache,
) -> (r: DiscardDetails)
    requires
        old(cache).wf(),
        hand@.len() == 5,
        valid_hand(hand@),
        valid_hand(deck_left@),
        deck_left@.len() >= 5,
        round_number >= 1,
        sims <= 1000000000,
    ensures
        final(cache).wf(),
        r.scores_per_discard_count@.len() == 6,
        r.best_score <= SCORE_MILLI_BOUND,
        forall|i: int|
            0 <= i < 6 ==> r.best_score <= #[trigger] r.scores_per_discard_count@[i],
        r.best_discard_indices@.len() <= 5,
        forall|j: int|
            0 <= j < r.best_discard_indices@.len() ==> #[trigger] r.best_discard_indices@[j] < 5,
        forall|j1: int, j2: int|
            0 <= j1 < j2 < r.best_discard_indices@.len() ==> r.best_discard_indices@[j1]
                < r.best_discard_indices@[j2],
        r.scores_per_discard_count@[r.best_discard_indices@.len() as int] == r.best_score,
        r.best_discard_cards@.len() == r.best_discard_indices@.len(),
        forall|j: int|
            0 <= j < r.best_discard_cards@.len() ==> (#[trigger] r.best_discard_cards@[j])@
                == spec_card_text(hand@[r.best_discard_indices@[j] as int]),
        r.key is None,
        round_number == 1 || sims == 0 ==> r.scores_per_discard_count@[0] as int
            == spec_score_milli(hand@),
        sims == 0 ==> r.best_score as int == spec_score_milli(hand@)
            && r.best_discard_indices@.len() == 0,
        sims == 0 ==> forall|i: int|
            1 <= i < 6 ==> #[trigger] r.scores_per_discard_count@[i] == SCORE_INFINITY,
        sims >= 1 ==> forall|i: int|
            0 <= i < 6 ==> #[trigger] r.scores_per_discard_count@[i] <= SCORE_MILLI_BOUND,
        cache_step_ok(*old(cache), *final(cache), round_number),
        round_number > 1 && sims >= 1 && deck_left@.len() == 5
            && final(cache).contents().dom().len() < final(cache).capacity()
            ==> final(cache).contents().dom().contains(
            spec_round_key_u(hand@, (round_number - 1) as u32),
        ),
    decreases round_number,
{
    let ghost milli = spec_score_milli(hand@);
    let ghost prev_round: u32 = if round_number > 1 {
        (round_number - 1) as u32
    } else {
        0
    };
    proof {
        lemma_score_milli_bound(hand@);
        lemma_first_full_mask_facts();
    }
    let n_eff: u64 = if sims == 0 {
        1
    } else {
        sims
    };
    let mut per_count: Vec<u64> = Vec::new();
    let mut gfin: bool = false;
    let mut gnum: u64 = 0;
    let mut best_indices: Vec<usize> = Vec::new();
    let ghost mut gk: int = 0;
    let mut k: usize = 0;
    while k <= 5
        invariant
            cache.wf(),
            hand@.len() == 5,
            valid_hand(hand@),
            valid_hand(deck_left@),
            deck_left@.len() >= 5,
            round_number >= 1,
            sims <= 1000000000,
            n_eff == if sims == 0 {
                1u64
            } else {
                sims
            },
            milli == spec_score_milli(hand@),
            0 <= milli <= SCORE_MILLI_BOUND,
            k <= 6,
            per_count@.len() == k,
            k >= 1 ==> gfin,
            gfin ==> 0 <= gk < k as int && gnum as int <= n_eff as int * SCORE_MILLI_BOUND as int
                && per_count@[gk] as int == spec_round_div(gnum as int, n_eff as int)
                && best_indices@.len() == gk,
            gfin ==> forall|i: int|
                0 <= i < k ==> #[trigger] per_count@[i] as int >= spec_round_div(
                    gnum as int,
                    n_eff as int,
                ),
            forall|j: int| 0 <= j < best_indices@.len() ==> #[trigger] best_indices@[j] < 5,
            forall|j1: int, j2: int|
                0 <= j1 < j2 < best_indices@.len() ==> best_indices@[j1] < best_indices@[j2],
            gfin && sims == 0 ==> gnum as int == milli && gk == 0,
            (round_number == 1 || sims == 0) && k >= 1 ==> per_count@[0] as int == milli,
            sims == 0 ==> forall|i: int|
                1 <= i < k ==> #[trigger] per_count@[i] == SCORE_INFINITY,
            sims >= 1 ==> forall|i: int|
                0 <= i < k ==> #[trigger] per_count@[i] <= SCORE_MILLI_BOUND,
            prev_round == if round_number > 1 {
                (round_number - 1) as u32
            } else {
                0u32
            },
            cache_step_ok(*old(cache), *cache, round_number),
            round_number > 1 && sims >= 1 && deck_left@.len() == 5 && k >= 1
                && cache.contents().dom().len() < cache.capacity()
                ==> cache.contents().dom().contains(spec_round_key_u(hand@, prev_round)),
        decreases 6 - k,
    {
        let mut fin_k: bool = false;
        let mut num_k: u64 = 0;
        let mut idx_k: Vec<usize> = Vec::new();
        let ghost kpre = *cache;
        if sims == 0 {
            if k == 0 {
                fin_k = true;
                num_k = hand_score_cached(hand, cache);
                proof {
                    assert(cache_step_ok(kpre, *cache, round_number));
                    lemma_cache_step_trans(*old(cache), kpre, *cache, round_number);
                }
            }
        } else {
            proof {
                lemma_first_full_mask_facts();
            }
            let masks = discard_masks();
            let mut mi: usize = 0;
            while mi < 32
                invariant
                    masks@.len() == 32,
                    forall|i: int| 0 <= i < 32 ==> #[trigger] masks@[i] == i as u32,
                    cache.wf(),
                    hand@.len() == 5,
                    valid_hand(hand@),
                    valid_hand(deck_left@),
                    deck_left@.len() >= 5,
                    round_number >= 1,
                    1 <= sims <= 1000000000,
                    milli == spec_score_milli(hand@),
                    0 <= milli <= SCORE_MILLI_BOUND,
                    k <= 5,
                    mi <= 32,
                    fin_k ==> num_k as int <= sims as int * SCORE_MILLI_BOUND as int,
                    fin_k ==> idx_k@.len() == k,
                    fin_k ==> forall|j: int| 0 <= j < idx_k@.len() ==> #[trigger] idx_k@[j] < 5,
                    fin_k ==> forall|j1: int, j2: int|
                        0 <= j1 < j2 < idx_k@.len() ==> idx_k@[j1] < idx_k@[j2],
                    k == 0 && mi >= 1 ==> fin_k,
                    k == 0 && round_number == 1 && fin_k ==> num_k as int == sims as int * milli,
                    mi as int > first_full_mask(k as int) ==> fin_k,
                    prev_round == if round_number > 1 {
                        (round_number - 1) as u32
                    } else {
                        0u32
                    },
                    cache_step_ok(*old(cache), *cache, round_number),
                    round_number > 1 && deck_left@.len() == 5 && (k >= 1 || mi >= 1)
                        && cache.contents().dom().len() < cache.capacity()
                        ==> cache.contents().dom().contains(spec_round_key_u(hand@, prev_round)),
                decreases 32 - mi,
            {
                let m = masks[mi];
                proof {
                    assert(m == mi as u32);
                    lemma_first_full_mask_facts();
                }
                let pc = popcount5(m);
                if pc as usize == k {
                    let indices = mask_to_indices(m);
                    let kept = kept_cards(hand, m);
                    let mut t: u64 = 0;
                    let mut sum: u64 = 0;
                    while t < sims
                        invariant
                            cache.wf(),
                            hand@.len() == 5,
                            valid_hand(hand@),
                            valid_hand(deck_left@),
                            deck_left@.len() >= 5,
                            round_number >= 1,
                            1 <= sims <= 1000000000,
                            milli == spec_score_milli(hand@),
                            k <= 5,
                            spec_popcount5(m) == k as int,
                            kept@.len() + k == 5,
                            valid_hand(kept@),
                            k == 0 ==> kept@ == hand@,
                            t <= sims,
                            sum as int <= t as int * SCORE_MILLI_BOUND as int,
                            k == 0 && round_number == 1 ==> sum as int == t as int * milli,
                            prev_round == if round_number > 1 {
                                (round_number - 1) as u32
                            } else {
                                0u32
                            },
                            cache_step_ok(*old(cache), *cache, round_number),
                            round_number > 1 && deck_left@.len() == 5 && (k >= 1 || mi >= 1 || t
                                >= 1) && cache.contents().dom().len() < cache.capacity()
                                ==> cache.contents().dom().contains(
                                spec_round_key_u(hand@, prev_round),
                            ),
                        decreases sims - t,
                    {
                        let mut cur = clone_cards(deck_left);
                        shuffle_cards(&mut cur);
                        proof {
                            lemma_multiset_valid(deck_left@, cur@);
                        }
                        let mut cand = clone_cards(&kept);
                        let mut d: usize = 0;
                        while d < k
                            invariant
                                d <= k <= 5,
                                cur@.len() >= 5,
                                valid_hand(cur@),
                                kept@.len() + k == 5,
                                cand@.len() == kept@.len() + d,
                                valid_hand(cand@),
                                d == 0 ==> cand@ == kept@,
                            decreases k - d,
                        {
                            let c = cur[d];
                            let ghost cpre = cand@;
                            cand.push(c);
                            proof {
                                assert forall|j: int| 0 <= j < cand@.len() implies valid_card(
                                    #[trigger] cand@[j],
                                ) by {
                                    if j < cpre.len() {
                                        assert(cand@[j] == cpre[j]);
                                    }
                                }
                            }
                            d = d + 1;
                        }
                        let ghost tpre = *cache;
                        let trial: u64 = if round_number > 1 && cur.len() >= k + 5 {
                            let rk = round_key(&cand, round_number - 1);
                            proof {
                                lemma_round_key_parts(cand@, (round_number - 1) as u32);
                                assert(rk == spec_round_key_u(cand@, (round_number - 1) as u32));
                                if k == 0 {
                                    assert(cand@ == kept@ && kept@ == hand@);
                                    assert(rk == spec_round_key_u(hand@, prev_round));
                                }
                            }
                            match cache.get_round_score(rk) {
                                Some(sc) => {
                                    proof {
                                        assert(cache.contents().dom().contains(rk));
                                        assert(cache_step_ok(tpre, *cache, round_number));
                                    }
                                    sc
                                },
                                None => {
                                    let mut next_deck: Vec<Card> = Vec::new();
                                    let mut e: usize = k;
                                    while e < cur.len()
                                        invariant
                                            k <= e <= cur@.len(),
                                            valid_hand(cur@),
                                            next_deck@.len() == e - k,
                                            valid_hand(next_deck@),
                                        decreases cur@.len() - e,
                                    {
                                        let c2 = cur[e];
                                        let ghost npre = next_deck@;
                                        next_deck.push(c2);
                                        proof {
                                            assert forall|j: int|
                                                0 <= j < next_deck@.len() implies valid_card(
                                                #[trigger] next_deck@[j],
                                            ) by {
                                                if j < npre.len() {
                                                    assert(next_deck@[j] == npre[j]);
                                                }
                                            }
                                        }
                                        e = e + 1;
                                    }
                                    let sub = get_discards_details(
                                        &cand,
                                        &next_deck,
                                        round_number - 1,
                                        sims,
                                        cache,
                                    );
                                    proof {
                                        assert forall|j: int|
                                            0 <= j < sub.best_discard_cards@.len() implies quote_free(
                                            (#[trigger] sub.best_discard_cards@[j])@,
                                        ) by {
                                            let idx = sub.best_discard_indices@[j] as int;
                                            lemma_card_text_safe(cand@[idx]);
                                            lemma_text_safe_quote_free(
                                                spec_card_text(cand@[idx]),
                                            );
                                        }
                                    }
                                    let line = round_entry_line(
                                        &cand,
                                        round_number - 1,
                                        sub.best_score,
                                        sub.best_discard_cards,
                                    );
                                    let ghost ppre = *cache;
                                    proof {
                                        assert(cache_step_ok(tpre, ppre, round_number)) by {
                                            assert(cache_step_ok(
                                                tpre,
                                                ppre,
                                                (round_number - 1) as u32,
                                            ));
                                        }
                                    }
                                    cache.put_round_line(rk, line);
                                    proof {
                                        assert(cache.contents().dom().contains(rk));
                                        assert(cache_step_ok(ppre, *cache, round_number)) by {
                                            assert(!is_score_kind(rk) && round_part(rk)
                                                == round_number - 1);
                                        }
                                        lemma_cache_step_trans(
                                            tpre,
                                            ppre,
                                            *cache,
                                            round_number,
                                        );
                                    }
                                    sub.best_score
                                },
                            }
                        } else {
                            hand_score_cached(&cand, cache)
                        };
                        proof {
                            assert(cache_step_ok(tpre, *cache, round_number));
                            lemma_cache_step_trans(*old(cache), tpre, *cache, round_number);
                            if round_number > 1 && deck_left@.len() == 5 && k == 0 {
                                assert(cur@.len() == 5);
                                assert(cache.contents().dom().contains(
                                    spec_round_key_u(hand@, prev_round),
                                ));
                            }
                            if round_number > 1 && deck_left@.len() == 5 && (k >= 1 || mi >= 1)
                                && tpre.contents().dom().contains(
                                spec_round_key_u(hand@, prev_round),
                            ) && cache.contents().dom().len() < cache.capacity() {
                                assert(cache.contents().dom().contains(
                                    spec_round_key_u(hand@, prev_round),
                                ));
                            }
                        }
                        proof {
                            lemma_mul_inequality(
                                t as int + 1,
                                sims as int,
                                SCORE_MILLI_BOUND as int,
                            );
                            assert((t as int + 1) * SCORE_MILLI_BOUND as int == t as int
                                * SCORE_MILLI_BOUND as int + SCORE_MILLI_BOUND as int)
                                by (nonlinear_arith);
                            assert((t as int + 1) * milli == t as int * milli + milli)
                                by (nonlinear_arith);
                        }
                        sum = sum + trial;
                        t = t + 1;
                    }
                    if !fin_k || sum < num_k {
                        fin_k = true;
                        num_k = sum;
                        idx_k = indices;
                    }
                }
                mi = mi + 1;
            }
        }
        proof {
            if sims >= 1 {
                lemma_first_full_mask_facts();
                assert(first_full_mask(k as int) < 32);
                assert(fin_k);
            }
        }
        let ghost old_gnum = gnum;
        let ghost old_gfin = gfin;
        let rounded: u64 = if fin_k {
            proof {
                if sims == 0 {
                    assert(num_k as int <= 1int * SCORE_MILLI_BOUND as int);
                }
            }
            round_milli_avg(num_k, n_eff)
        } else {
            SCORE_INFINITY
        };
        proof {
            if fin_k {
                lemma_round_div_bound(num_k as int, n_eff as int, SCORE_MILLI_BOUND as int);
                assert(rounded <= SCORE_MILLI_BOUND);
            }
        }
        per_count.push(rounded);
        if fin_k && (!gfin || num_k < gnum) {
            gfin = true;
            gnum = num_k;
            best_indices = idx_k;
            proof {
                gk = k as int;
            }
        }
        proof {
            if gfin {
                lemma_round_div_bound(
                    gnum as int,
                    n_eff as int,
                    SCORE_MILLI_BOUND as int,
                );
                if sims == 0 && k == 0 {
                    lemma_round_div_exact(milli, 1);
                }
                if (round_number == 1 || sims == 0) && k == 0 {
                    lemma_round_div_exact(milli, n_eff as int);
                }
                assert forall|i: int|
                    0 <= i < k + 1 implies #[trigger] per_count@[i] as int >= spec_round_div(
                    gnum as int,
                    n_eff as int,
                ) by {
                    if i < k {
                        if old_gfin {
                            lemma_round_div_le(gnum as int, old_gnum as int, n_eff as int);
                        }
                    } else {
                        if fin_k {
                            lemma_round_div_le(gnum as int, num_k as int, n_eff as int);
                        } else {
                            lemma_round_div_bound(
                                gnum as int,
                                n_eff as int,
                                SCORE_MILLI_BOUND as int,
                            );
                        }
                    }
                }
            }
        }
        k = k + 1;
    }
    let best = round_milli_avg(gnum, n_eff);
    proof {
        lemma_round_div_bound(gnum as int, n_eff as int, SCORE_MILLI_BOUND as int);
    }
    let mut cards: Vec<String> = Vec::new();
    let mut j: usize = 0;
    while j < best_indices.len()
        invariant
            0 <= j <= best_indices@.len(),
            hand@.len() == 5,
            valid_hand(hand@),
            forall|i: int| 0 <= i < best_indices@.len() ==> #[trigger] best_indices@[i] < 5,
            cards@.len() == j,
            forall|i: int|
                0 <= i < j ==> (#[trigger] cards@[i])@ == spec_card_text(
                    hand@[best_indices@[i] as int],
                ),
        decreases best_indices@.len() - j,
    {
        let idx = best_indices[j];
        let tx = hand[idx].to_text();
        cards.push(tx);
        j = j + 1;
    }
    DiscardDetails {
        scores_per_discard_count: per_count,
        best_score: best,
        best_discard_indices: best_indices,
        best_discard_cards: cards,
        key: None,
    }
}

} // verus!
