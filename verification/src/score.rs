use vstd::prelude::*;
use vstd::multiset::Multiset;
use crate::card::{Card, mk_card, spec_rank, spec_suit, valid_card, valid_hand};

verus! {

broadcast use vstd::seq_lib::group_to_multiset_ensures, vstd::multiset::group_multiset_axioms;

/// Every evaluated score, in thousandths, stays under this bound: the
/// worst category's band plus the largest tie-break offset.
pub const SCORE_MILLI_BOUND: u64 = 89999000;

/// How many cards of the given rank the hand holds; a function of the
/// hand's multiset alone, so card order never matters.
pub open spec fn rank_count(s: Seq<Card>, r: u8) -> nat {
    let m = s.to_multiset();
    m.count(mk_card(0, r)) + m.count(mk_card(1, r)) + m.count(mk_card(2, r)) + m.count(
        mk_card(3, r),
    )
}

/// All cards share one suit.
pub open spec fn is_flush(s: Seq<Card>) -> bool {
    s.len() > 0 && forall|c1: Card, c2: Card|
        #![trigger s.to_multiset().count(c1), s.to_multiset().count(c2)]
        s.to_multiset().count(c1) > 0 && s.to_multiset().count(c2) > 0 ==> spec_suit(c1)
            == spec_suit(c2)
}

/// Five consecutive ranks starting at `lo`, one card each.
pub open spec fn straight_at(s: Seq<Card>, lo: int) -> bool {
    forall|d: int| 0 <= d < 5 ==> rank_count(s, #[trigger] ((lo + d) as u8)) == 1
}

pub open spec fn is_normal_straight(s: Seq<Card>) -> bool {
    exists|lo: int| 2 <= lo <= 10 && straight_at(s, lo)
}

/// The wheel: ace, two, three, four, five.
pub open spec fn is_ace_low(s: Seq<Card>) -> bool {
    rank_count(s, 2) == 1 && rank_count(s, 3) == 1 && rank_count(s, 4) == 1 && rank_count(s, 5)
        == 1 && rank_count(s, 14) == 1
}

pub open spec fn is_straight(s: Seq<Card>) -> bool {
    is_normal_straight(s) || is_ace_low(s)
}

/// The highest rank with exactly `n` cards, scanning 14 down to 2;
/// 0 when no rank has exactly `n`.
pub open spec fn find_eq_from(s: Seq<Card>, n: nat, r: int) -> int
    decreases r,
{
    if r < 2 {
        0
    } else if rank_count(s, r as u8) == n {
        r
    } else {
        find_eq_from(s, n, r - 1)
    }
}

pub open spec fn find_eq_desc(s: Seq<Card>, n: nat) -> int {
    find_eq_from(s, n, 14)
}

/// The lowest rank with exactly `n` cards, scanning 2 up to 14;
/// 0 when no rank has exactly `n`.
pub open spec fn find_eq_up(s: Seq<Card>, n: nat, r: int) -> int
    decreases 15 - r,
{
    if r > 14 {
        0
    } else if rank_count(s, r as u8) == n {
        r
    } else {
        find_eq_up(s, n, r + 1)
    }
}

pub open spec fn find_eq_asc(s: Seq<Card>, n: nat) -> int {
    find_eq_up(s, n, 2)
}

/// The highest rank present at all; 0 for an empty hand.
pub open spec fn find_ge1_from(s: Seq<Card>, r: int) -> int
    decreases r,
{
    if r < 2 {
        0
    } else if rank_count(s, r as u8) >= 1 {
        r
    } else {
        find_ge1_from(s, r - 1)
    }
}

pub open spec fn max_rank(s: Seq<Card>) -> int {
    find_ge1_from(s, 14)
}

pub open spec fn has_count(s: Seq<Card>, n: nat) -> bool {
    exists|r: int| 2 <= r <= 14 && rank_count(s, #[trigger] (r as u8)) == n
}

pub open spec fn has_two_pairs(s: Seq<Card>) -> bool {
    exists|r1: int, r2: int|
        2 <= r1 <= 14 && 2 <= r2 <= 14 && r1 != r2 && rank_count(s, #[trigger] (r1 as u8)) == 2
            && rank_count(s, #[trigger] (r2 as u8)) == 2
}

/// The straight's high card: five for the wheel, else the top rank.
pub open spec fn straight_high(s: Seq<Card>) -> int {
    if is_ace_low(s) {
        5
    } else {
        max_rank(s)
    }
}

/// The hand's category, best first: 0 straight-flush, 1 four-of-a-kind,
/// 2 full house, 3 flush, 4 straight, 5 three-of-a-kind, 6 two pair,
/// 7 one pair, 8 high card.
pub open spec fn spec_category(s: Seq<Card>) -> int {
    if is_straight(s) && is_flush(s) {
        0
    } else if has_count(s, 4) {
        1
    } else if has_count(s, 3) && has_count(s, 2) {
        2
    } else if is_flush(s) {
        3
    } else if is_straight(s) {
        4
    } else if has_count(s, 3) {
        5
    } else if has_two_pairs(s) {
        6
    } else if has_count(s, 2) {
        7
    } else {
        8
    }
}

/// The within-category offset: the rank of the decisive card group.
pub open spec fn spec_tiebreak(s: Seq<Card>) -> int {
    if is_straight(s) && is_flush(s) {
        straight_high(s)
    } else if has_count(s, 4) {
        find_eq_desc(s, 4)
    } else if has_count(s, 3) && has_count(s, 2) {
        find_eq_desc(s, 3)
    } else if is_flush(s) {
        max_rank(s)
    } else if is_straight(s) {
        straight_high(s)
    } else if has_count(s, 3) {
        find_eq_desc(s, 3)
    } else if has_two_pairs(s) {
        find_eq_desc(s, 2) * 15 + find_eq_asc(s, 2)
    } else if has_count(s, 2) {
        find_eq_asc(s, 2) * 225
    } else {
        max_rank(s)
    }
}

/// The evaluated score of a hand: a band of ten thousand per category,
/// better categories lower, plus the tie-break offset. Lower is better.
pub open spec fn spec_score(s: Seq<Card>) -> int {
    10000 * spec_category(s) + spec_tiebreak(s)
}

pub open spec fn spec_score_milli(s: Seq<Card>) -> int {
    1000 * spec_score(s)
}

// ---------------------------------------------------------------------
// Bounds of the pieces.
// ---------------------------------------------------------------------
proof fn lemma_find_eq_from_bounds(s: Seq<Card>, n: nat, r: int)
    requires
        0 <= r <= 14,
    ensures
        0 <= find_eq_from(s, n, r) <= r,
    decreases r,
{
    if r >= 2 && rank_count(s, r as u8) != n {
        lemma_find_eq_from_bounds(s, n, r - 1);
    }
}

proof fn lemma_find_eq_up_bounds(s: Seq<Card>, n: nat, r: int)
    requires
        2 <= r <= 15,
    ensures
        find_eq_up(s, n, r) == 0 || r <= find_eq_up(s, n, r) <= 14,
    decreases 15 - r,
{
    if r <= 14 && rank_count(s, r as u8) != n {
        lemma_find_eq_up_bounds(s, n, r + 1);
    }
}

proof fn lemma_find_ge1_from_bounds(s: Seq<Card>, r: int)
    requires
        0 <= r <= 14,
    ensures
        0 <= find_ge1_from(s, r) <= r,
    decreases r,
{
    if r >= 2 && rank_count(s, r as u8) < 1 {
        lemma_find_ge1_from_bounds(s, r - 1);
    }
}

/// The score decomposes into disjoint category bands: the tie-break
/// offset never crosses into the next band.
pub proof fn lemma_score_band(s: Seq<Card>)
    ensures
        0 <= spec_category(s) <= 8,
        0 <= spec_tiebreak(s) < 10000,
        spec_score(s) == 10000 * spec_category(s) + spec_tiebreak(s),
{
    lemma_find_eq_from_bounds(s, 4, 14);
    lemma_find_eq_from_bounds(s, 3, 14);
    lemma_find_eq_from_bounds(s, 2, 14);
    lemma_find_eq_up_bounds(s, 2, 2);
    lemma_find_ge1_from_bounds(s, 14);
}

/// Every score in thousandths lies within the banded range.
pub proof fn lemma_score_milli_bound(s: Seq<Card>)
    ensures
        0 <= spec_score_milli(s) <= SCORE_MILLI_BOUND,
{
    lemma_score_band(s);
}

/// Categories order the scores: any hand of a better (earlier) category
/// scores strictly lower than any hand of a worse one.
pub proof fn lemma_category_order(s1: Seq<Card>, s2: Seq<Card>)
    requires
        spec_category(s1) < spec_category(s2),
    ensures
        spec_score(s1) < spec_score(s2),
{
    lemma_score_band(s1);
    lemma_score_band(s2);
}

/// Within one category, the decisive group's rank orders the scores.
pub proof fn lemma_same_category_tiebreak(s1: Seq<Card>, s2: Seq<Card>)
    requires
        spec_category(s1) == spec_category(s2),
        spec_tiebreak(s1) < spec_tiebreak(s2),
    ensures
        spec_score(s1) < spec_score(s2),
{
    lemma_score_band(s1);
    lemma_score_band(s2);
}

/// The ace-low straight in non-matching suits scores as a straight with
/// high card five, not as an ace-high hand.
pub proof fn lemma_ace_low_straight(s: Seq<Card>)
    requires
        rank_count(s, 2) == 1,
        rank_count(s, 3) == 1,
        rank_count(s, 4) == 1,
        rank_count(s, 5) == 1,
        rank_count(s, 14) == 1,
        forall|r: int|
            2 <= r <= 14 && r != 2 && r != 3 && r != 4 && r != 5 && r != 14 ==> rank_count(
                s,
                #[trigger] (r as u8),
            ) == 0,
        !is_flush(s),
    ensures
        spec_category(s) == 4,
        spec_score(s) == 40005,
{
    assert(is_ace_low(s));
    assert(!has_count(s, 4));
    assert(!has_count(s, 3));
    assert(!has_count(s, 2));
}

// ---------------------------------------------------------------------
// Order independence: every ingredient is a function of the multiset.
// ---------------------------------------------------------------------
proof fn lemma_find_eq_from_perm(s1: Seq<Card>, s2: Seq<Card>, n: nat, r: int)
    requires
        s1.to_multiset() == s2.to_multiset(),
    ensures
        find_eq_from(s1, n, r) == find_eq_from(s2, n, r),
    decreases r,
{
    if r >= 2 {
        lemma_find_eq_from_perm(s1, s2, n, r - 1);
    }
}

proof fn lemma_find_eq_up_perm(s1: Seq<Card>, s2: Seq<Card>, n: nat, r: int)
    requires
        s1.to_multiset() == s2.to_multiset(),
    ensures
        find_eq_up(s1, n, r) == find_eq_up(s2, n, r),
    decreases 15 - r,
{
    if r <= 14 {
        lemma_find_eq_up_perm(s1, s2, n, r + 1);
    }
}

proof fn lemma_find_ge1_from_perm(s1: Seq<Card>, s2: Seq<Card>, r: int)
    requires
        s1.to_multiset() == s2.to_multiset(),
    ensures
        find_ge1_from(s1, r) == find_ge1_from(s2, r),
    decreases r,
{
    if r >= 2 {
        lemma_find_ge1_from_perm(s1, s2, r - 1);
    }
}

/// The evaluator is commutative in card order: two hands with the same
/// cards score identically, whatever the order they were dealt in.
#[verifier::rlimit(80)]
pub proof fn lemma_score_permutation(s1: Seq<Card>, s2: Seq<Card>)
    requires
        s1.to_multiset() == s2.to_multiset(),
    ensures
        spec_score(s1) == spec_score(s2),
        spec_category(s1) == spec_category(s2),
{
    assert(s1.len() == s1.to_multiset().len());
    assert(s2.len() == s2.to_multiset().len());
    lemma_find_eq_from_perm(s1, s2, 4, 14);
    lemma_find_eq_from_perm(s1, s2, 3, 14);
    lemma_find_eq_from_perm(s1, s2, 2, 14);
    lemma_find_eq_up_perm(s1, s2, 2, 2);
    lemma_find_ge1_from_perm(s1, s2, 14);
    assert forall|r: u8| #[trigger] rank_count(s1, r) == rank_count(s2, r) by {}
    assert(is_flush(s1) == is_flush(s2));
    assert forall|lo: int| #[trigger] straight_at(s1, lo) == straight_at(s2, lo) by {
        if straight_at(s1, lo) {
            assert forall|d: int| 0 <= d < 5 implies rank_count(s2, #[trigger] ((lo + d) as u8))
                == 1 by {
                assert(rank_count(s1, (lo + d) as u8) == 1);
            }
        }
        if straight_at(s2, lo) {
            assert forall|d: int| 0 <= d < 5 implies rank_count(s1, #[trigger] ((lo + d) as u8))
                == 1 by {
                assert(rank_count(s2, (lo + d) as u8) == 1);
            }
        }
    }
    assert(is_normal_straight(s1) == is_normal_straight(s2)) by {
        if is_normal_straight(s1) {
            let lo = choose|lo: int| 2 <= lo <= 10 && straight_at(s1, lo);
            assert(straight_at(s2, lo));
        }
        if is_normal_straight(s2) {
            let lo = choose|lo: int| 2 <= lo <= 10 && straight_at(s2, lo);
            assert(straight_at(s1, lo));
        }
    }
    assert(is_ace_low(s1) == is_ace_low(s2));
    assert forall|n: nat| #[trigger] has_count(s1, n) == has_count(s2, n) by {
        if has_count(s1, n) {
            let r = choose|r: int| 2 <= r <= 14 && rank_count(s1, #[trigger] (r as u8)) == n;
            assert(rank_count(s2, r as u8) == n);
        }
        if has_count(s2, n) {
            let r = choose|r: int| 2 <= r <= 14 && rank_count(s2, #[trigger] (r as u8)) == n;
            assert(rank_count(s1, r as u8) == n);
        }
    }
    assert(has_two_pairs(s1) == has_two_pairs(s2)) by {
        if has_two_pairs(s1) {
            let (r1, r2) = choose|r1: int, r2: int|
                2 <= r1 <= 14 && 2 <= r2 <= 14 && r1 != r2 && rank_count(s1, #[trigger] (
                r1 as u8)) == 2 && rank_count(s1, #[trigger] (r2 as u8)) == 2;
            assert(rank_count(s2, r1 as u8) == 2 && rank_count(s2, r2 as u8) == 2);
        }
        if has_two_pairs(s2) {
            let (r1, r2) = choose|r1: int, r2: int|
                2 <= r1 <= 14 && 2 <= r2 <= 14 && r1 != r2 && rank_count(s2, #[trigger] (
                r1 as u8)) == 2 && rank_count(s2, #[trigger] (r2 as u8)) == 2;
            assert(rank_count(s1, r1 as u8) == 2 && rank_count(s1, r2 as u8) == 2);
        }
    }
}

// ---------------------------------------------------------------------
// The executable evaluator.
// ---------------------------------------------------------------------
/// The executable rank tally matches the spec tally at every rank.
pub open spec fn counts_ok(s: Seq<Card>, cv: Seq<u8>) -> bool {
    cv.len() == 15 && forall|r: int| 0 <= r < 15 ==> cv[r] as nat == rank_count(s, #[trigger] (
    r as u8))
}

proof fn lemma_rank_count_push(s: Seq<Card>, c: Card, r: u8)
    requires
        valid_card(c),
        r < 16,
    ensures
        rank_count(s.push(c), r) == rank_count(s, r) + (if spec_rank(c) == r {
            1int
        } else {
            0int
        }),
{
    let m = s.to_multiset();
    let mp = s.push(c).to_multiset();
    assert(mp =~= m.insert(c));
    assert(mk_card(spec_suit(c), spec_rank(c)) == c);
    assert forall|su: u8, r2: u8| su <= 3 && r2 < 16 implies (mk_card(su, r2) == c <==> (su
        == spec_suit(c) && r2 == spec_rank(c))) by {
        if mk_card(su, r2) == c {
            assert(su == c.0 / 16 && r2 == c.0 % 16) by (nonlinear_arith)
                requires
                    su * 16 + r2 == c.0,
                    0 <= r2 < 16,
                    0 <= su,
            ;
        }
    }
}

proof fn lemma_rank_count_empty(r: u8)
    ensures
        rank_count(Seq::<Card>::empty(), r) == 0,
{
    assert(Seq::<Card>::empty().to_multiset() =~= Multiset::<Card>::empty());
}

/// Tallies how many cards of each rank the hand holds.
fn count_ranks(hand: &Vec<Card>) -> (counts: Vec<u8>)
    requires
        hand@.len() == 5,
        valid_hand(hand@),
    ensures
        counts_ok(hand@, counts@),
{
    let mut counts: Vec<u8> = Vec::new();
    let mut j: usize = 0;
    while j < 15
        invariant
            counts@.len() == j <= 15,
            forall|r: int| 0 <= r < j ==> counts@[r] == 0,
        decreases 15 - j,
    {
        counts.push(0);
        j = j + 1;
    }
    proof {
        assert(hand@.take(0) =~= Seq::<Card>::empty());
        assert forall|r: int| 0 <= r < 15 implies counts@[r] as nat == rank_count(
            hand@.take(0),
            #[trigger] (r as u8),
        ) by {
            lemma_rank_count_empty(r as u8);
        }
    }
    let mut i: usize = 0;
    while i < 5
        invariant
            0 <= i <= 5,
            hand@.len() == 5,
            valid_hand(hand@),
            counts@.len() == 15,
            forall|r: int|
                0 <= r < 15 ==> counts@[r] as nat == rank_count(hand@.take(i as int), #[trigger] (
                r as u8)) && counts@[r] <= i,
        decreases 5 - i,
    {
        let ghost cpre = counts@;
        let rk = hand[i].rank();
        proof {
            assert(valid_card(hand@[i as int]));
        }
        let old_v = counts[rk as usize];
        counts[rk as usize] = old_v + 1;
        proof {
            assert(hand@.take(i as int + 1) =~= hand@.take(i as int).push(hand@[i as int]));
            assert forall|r: int| 0 <= r < 15 implies counts@[r] as nat == rank_count(
                hand@.take(i as int + 1),
                #[trigger] (r as u8),
            ) && counts@[r] <= i + 1 by {
                lemma_rank_count_push(hand@.take(i as int), hand@[i as int], r as u8);
                assert(cpre[r] as nat == rank_count(hand@.take(i as int), r as u8));
                if r != rk as int {
                    assert(counts@[r] == cpre[r]);
                } else {
                    assert(counts@[r] == old_v + 1);
                }
            }
        }
        i = i + 1;
    }
    proof {
        assert(hand@.take(5) =~= hand@);
    }
    counts
}

fn is_flush_x(hand: &Vec<Card>) -> (b: bool)
    requires
        hand@.len() == 5,
    ensures
        b == is_flush(hand@),
{
    let su = hand[0].suit_bits();
    let all = hand[1].suit_bits() == su && hand[2].suit_bits() == su && hand[3].suit_bits() == su
        && hand[4].suit_bits() == su;
    proof {
        let s = hand@;
        if all {
            assert forall|c1: Card, c2: Card|
                #![trigger s.to_multiset().count(c1), s.to_multiset().count(c2)]
                s.to_multiset().count(c1) > 0 && s.to_multiset().count(c2)
                    > 0 implies spec_suit(c1) == spec_suit(c2) by {
                assert(s.contains(c1) && s.contains(c2));
                let i = choose|i: int| 0 <= i < s.len() && s[i] == c1;
                let j = choose|j: int| 0 <= j < s.len() && s[j] == c2;
                assert(spec_suit(s[i]) == su && spec_suit(s[j]) == su);
            }
            assert(is_flush(s));
        } else {
            if is_flush(s) {
                assert forall|i: int| 0 <= i < 5 implies spec_suit(s[i]) == su by {
                    assert(s.contains(s[i]) && s.contains(s[0]));
                    assert(s.to_multiset().count(s[i]) > 0 && s.to_multiset().count(s[0]) > 0);
                }
                assert(false);
            }
        }
    }
    all
}

fn normal_straight_x(counts: &Vec<u8>, Ghost(s): Ghost<Seq<Card>>) -> (b: bool)
    requires
        counts_ok(s, counts@),
    ensures
        b == is_normal_straight(s),
{
    let mut lo: usize = 2;
    while lo <= 10
        invariant
            2 <= lo <= 11,
            counts_ok(s, counts@),
            forall|lo2: int| 2 <= lo2 < lo ==> !straight_at(s, lo2),
        decreases 11 - lo,
    {
        if counts[lo] == 1 && counts[lo + 1] == 1 && counts[lo + 2] == 1 && counts[lo + 3] == 1
            && counts[lo + 4] == 1 {
            proof {
                assert forall|d: int| 0 <= d < 5 implies rank_count(s, #[trigger] ((lo + d) as u8))
                    == 1 by {
                    assert(counts@[lo + d] as nat == rank_count(s, (lo + d) as u8));
                }
                assert(straight_at(s, lo as int));
            }
            return true;
        }
        proof {
            if counts@[lo as int] != 1 {
                assert(rank_count(s, (lo + 0) as u8) != 1);
            } else if counts@[lo + 1] != 1 {
                assert(rank_count(s, (lo + 1) as u8) != 1);
            } else if counts@[lo + 2] != 1 {
                assert(rank_count(s, (lo + 2) as u8) != 1);
            } else if counts@[lo + 3] != 1 {
                assert(rank_count(s, (lo + 3) as u8) != 1);
            } else {
                assert(rank_count(s, (lo + 4) as u8) != 1);
            }
            assert(!straight_at(s, lo as int));
        }
        lo = lo + 1;
    }
    proof {
        if is_normal_straight(s) {
            let lo2 = choose|lo2: int| 2 <= lo2 <= 10 && straight_at(s, lo2);
            assert(!straight_at(s, lo2));
        }
    }
    false
}

fn ace_low_x(counts: &Vec<u8>, Ghost(s): Ghost<Seq<Card>>) -> (b: bool)
    requires
        counts_ok(s, counts@),
    ensures
        b == is_ace_low(s),
{
    let b = counts[2] == 1 && counts[3] == 1 && counts[4] == 1 && counts[5] == 1 && counts[14]
        == 1;
    proof {
        assert(counts@[2] as nat == rank_count(s, 2));
        assert(counts@[3] as nat == rank_count(s, 3));
        assert(counts@[4] as nat == rank_count(s, 4));
        assert(counts@[5] as nat == rank_count(s, 5));
        assert(counts@[14] as nat == rank_count(s, 14));
    }
    b
}

fn find_eq_desc_x(counts: &Vec<u8>, n: u8, Ghost(s): Ghost<Seq<Card>>) -> (r: u8)
    requires
        counts_ok(s, counts@),
        n >= 1,
    ensures
        r as int == find_eq_desc(s, n as nat),
        r <= 14,
{
    let mut r: u8 = 14;
    while r >= 2
        invariant
            1 <= r <= 14,
            counts_ok(s, counts@),
            find_eq_from(s, n as nat, 14) == find_eq_from(s, n as nat, r as int),
        decreases r,
    {
        if counts[r as usize] == n {
            return r;
        }
        r = r - 1;
    }
    0
}

fn find_eq_asc_x(counts: &Vec<u8>, n: u8, Ghost(s): Ghost<Seq<Card>>) -> (r: u8)
    requires
        counts_ok(s, counts@),
        n >= 1,
    ensures
        r as int == find_eq_asc(s, n as nat),
        r <= 14,
{
    let mut r: u8 = 2;
    while r <= 14
        invariant
            2 <= r <= 15,
            counts_ok(s, counts@),
            find_eq_up(s, n as nat, 2) == find_eq_up(s, n as nat, r as int),
        decreases 15 - r,
    {
        if counts[r as usize] == n {
            return r;
        }
        r = r + 1;
    }
    0
}

fn find_max_rank_x(counts: &Vec<u8>, Ghost(s): Ghost<Seq<Card>>) -> (r: u8)
    requires
        counts_ok(s, counts@),
    ensures
        r as int == max_rank(s),
        r <= 14,
{
    let mut r: u8 = 14;
    while r >= 2
        invariant
            1 <= r <= 14,
            counts_ok(s, counts@),
            find_ge1_from(s, 14) == find_ge1_from(s, r as int),
        decreases r,
    {
        if counts[r as usize] >= 1 {
            return r;
        }
        r = r - 1;
    }
    0
}

proof fn lemma_find_eq_from_props(s: Seq<Card>, n: nat, r: int)
    requires
        1 <= r <= 14,
    ensures
        find_eq_from(s, n, r) == 0 ==> forall|r2: int|
            2 <= r2 <= r ==> rank_count(s, #[trigger] (r2 as u8)) != n,
        find_eq_from(s, n, r) != 0 ==> 2 <= find_eq_from(s, n, r) <= r && rank_count(
            s,
            find_eq_from(s, n, r) as u8,
        ) == n && forall|r2: int|
            find_eq_from(s, n, r) < r2 <= r ==> rank_count(s, #[trigger] (r2 as u8)) != n,
    decreases r,
{
    if r >= 2 && rank_count(s, r as u8) != n {
        lemma_find_eq_from_props(s, n, r - 1);
    }
}

proof fn lemma_find_eq_up_props(s: Seq<Card>, n: nat, r: int)
    requires
        2 <= r <= 15,
    ensures
        find_eq_up(s, n, r) == 0 ==> forall|r2: int|
            r <= r2 <= 14 ==> rank_count(s, #[trigger] (r2 as u8)) != n,
        find_eq_up(s, n, r) != 0 ==> r <= find_eq_up(s, n, r) <= 14 && rank_count(
            s,
            find_eq_up(s, n, r) as u8,
        ) == n && forall|r2: int|
            r <= r2 < find_eq_up(s, n, r) ==> rank_count(s, #[trigger] (r2 as u8)) != n,
    decreases 15 - r,
{
    if r <= 14 && rank_count(s, r as u8) != n {
        lemma_find_eq_up_props(s, n, r + 1);
    }
}

proof fn lemma_guards(s: Seq<Card>, f4: u8, f3: u8, p_hi: u8, p_lo: u8)
    requires
        f4 as int == find_eq_desc(s, 4),
        f3 as int == find_eq_desc(s, 3),
        p_hi as int == find_eq_desc(s, 2),
        p_lo as int == find_eq_asc(s, 2),
    ensures
        has_count(s, 4) == (f4 != 0),
        has_count(s, 3) == (f3 != 0),
        has_count(s, 2) == (p_hi != 0),
        has_two_pairs(s) == (p_hi != 0 && p_lo != p_hi),
{
    lemma_find_eq_from_props(s, 4, 14);
    lemma_find_eq_from_props(s, 3, 14);
    lemma_find_eq_from_props(s, 2, 14);
    lemma_find_eq_up_props(s, 2, 2);
    if p_hi != 0 {
        assert(find_eq_up(s, 2, 2) != 0);
    }
    if has_two_pairs(s) {
        let (r1, r2) = choose|r1: int, r2: int|
            2 <= r1 <= 14 && 2 <= r2 <= 14 && r1 != r2 && rank_count(s, #[trigger] (r1 as u8))
                == 2 && rank_count(s, #[trigger] (r2 as u8)) == 2;
        assert(p_hi != 0);
        assert(r1 <= p_hi as int && r2 <= p_hi as int);
        assert(p_lo as int <= r1 && p_lo as int <= r2);
        assert(p_lo != p_hi);
    }
    if p_hi != 0 && p_lo != p_hi {
        assert(has_two_pairs(s));
    }
}

/// The executable evaluator: five valid cards to their score in
/// thousandths. A pure function of the hand's multiset, lower is better.
#[verifier::rlimit(80)]
pub fn hand_score(hand: &Vec<Card>) -> (r: u64)
    requires
        hand@.len() == 5,
        valid_hand(hand@),
    ensures
        r as int == spec_score_milli(hand@),
        r <= SCORE_MILLI_BOUND,
{
    let ghost s = hand@;
    let counts = count_ranks(hand);
    let fl = is_flush_x(hand);
    let st_norm = normal_straight_x(&counts, Ghost(s));
    let ace = ace_low_x(&counts, Ghost(s));
    let st = st_norm || ace;
    let maxr = find_max_rank_x(&counts, Ghost(s));
    let hi: u8 = if ace {
        5
    } else {
        maxr
    };
    let f4 = find_eq_desc_x(&counts, 4, Ghost(s));
    let f3 = find_eq_desc_x(&counts, 3, Ghost(s));
    let p_hi = find_eq_desc_x(&counts, 2, Ghost(s));
    let p_lo = find_eq_asc_x(&counts, 2, Ghost(s));
    proof {
        lemma_guards(s, f4, f3, p_hi, p_lo);
        lemma_score_band(s);
    }
    let raw: u64 = if st && fl {
        hi as u64
    } else if f4 != 0 {
        10000 + f4 as u64
    } else if f3 != 0 && p_hi != 0 {
        20000 + f3 as u64
    } else if fl {
        30000 + maxr as u64
    } else if st {
        40000 + hi as u64
    } else if f3 != 0 {
        50000 + f3 as u64
    } else if p_hi != 0 && p_lo != p_hi {
        60000 + (p_hi as u64) * 15 + p_lo as u64
    } else if p_hi != 0 {
        70000 + (p_lo as u64) * 225
    } else {
        80000 + maxr as u64
    };
    1000 * raw
}

} // verus!
