use vstd::prelude::*;
use vstd::set_lib::lemma_len_subset;
use crate::card::{Card, full_deck, valid_card, valid_hand};
use crate::cache::{ResultCache, load_cache};
use crate::engine::{
    get_discards_details, lemma_multiset_valid, round_entry_line, shuffle_cards,
};
use crate::card::{lemma_card_text_safe, lemma_text_safe_quote_free, quote_free};
use crate::codec::{parse_entry, spec_parse_entry};
use crate::key::{is_score_kind, round_key, spec_round_key_u};
use crate::score::SCORE_MILLI_BOUND;

verus! {

broadcast use vstd::seq_lib::group_to_multiset_ensures, vstd::multiset::group_multiset_axioms;

/// Everything one sampling run shares: the bounded result cache, the
/// set of lines already persisted (never evicted, so no line is written
/// twice), and the lines this run has appended to the log.
pub struct SamplerState {
    pub cache: ResultCache,
    pub dedup: Vec<String>,
    pub appended: Vec<String>,
}

/// A computed result whose line has not yet been persisted: the packed
/// round key it belongs under and the serialized record.
pub struct PendingSample {
    pub key: u64,
    pub line: String,
}

/// A valid pending sample: a record line with a bounded score, keyed by
/// some five-card hand's round key for the given round.
pub open spec fn pending_ok(p: PendingSample, round_number: u32) -> bool {
    &&& spec_parse_entry(p.line@) is Some
    &&& spec_parse_entry(p.line@)->Some_0.1 <= SCORE_MILLI_BOUND
    &&& !is_score_kind(p.key)
    &&& exists|h: Seq<Card>|
        h.len() == 5 && valid_hand(h) && p.key == spec_round_key_u(h, round_number)
}

/// A line is already known when the dedup set holds its exact text.
pub open spec fn line_known(d: Seq<String>, l: Seq<char>) -> bool {
    exists|i: int| 0 <= i < d.len() && (#[trigger] d[i])@ == l
}

/// The cache already holds every possible five-card hand's result for
/// the round, so no sample can find anything new to compute.
pub open spec fn round_complete(c: ResultCache, round_number: u32) -> bool {
    forall|h: Seq<Card>|
        h.len() == 5 && valid_hand(h) ==> c.contents().dom().contains(
            #[trigger] spec_round_key_u(h, round_number),
        )
}

/// Builds the run's state from the persisted log's lines: the cache is
/// replayed from every line that parses, and the raw lines form the
/// dedup set.
pub fn load_state(lines: &Vec<String>, cap: usize) -> (r: SamplerState)
    requires
        cap >= 1,
    ensures
        r.cache.wf(),
        r.appended@.len() == 0,
        r.dedup@.len() == lines@.len(),
        forall|i: int| 0 <= i < lines@.len() ==> (#[trigger] r.dedup@[i])@ == lines@[i]@,
        forall|k2: u64|
            #[trigger] r.cache.contents().dom().contains(k2) ==> exists|i: int|
                0 <= i < lines@.len() && (#[trigger] lines@[i]@) == r.cache.contents()[k2],
        lines@.len() <= cap ==> forall|i: int|
            #![trigger lines@[i]]
            0 <= i < lines@.len() ==> (spec_parse_entry(lines@[i]@) is Some && spec_parse_entry(
                lines@[i]@,
            )->Some_0.1 <= SCORE_MILLI_BOUND && crate::cache::spec_parse_round_key_text(
                spec_parse_entry(lines@[i]@)->Some_0.0,
            ) is Some ==> r.cache.contents().dom().contains(
                spec_round_key_u(
                    crate::cache::spec_parse_round_key_text(
                        spec_parse_entry(lines@[i]@)->Some_0.0,
                    )->Some_0.0,
                    crate::cache::spec_parse_round_key_text(
                        spec_parse_entry(lines@[i]@)->Some_0.0,
                    )->Some_0.1,
                ),
            )),
{
    let cache = load_cache(lines, cap);
    let mut dedup: Vec<String> = Vec::new();
    let mut i: usize = 0;
    while i < lines.len()
        invariant
            0 <= i <= lines@.len(),
            dedup@.len() == i,
            forall|j: int| 0 <= j < i ==> (#[trigger] dedup@[j])@ == lines@[j]@,
        decreases lines@.len() - i,
    {
        dedup.push(lines[i].clone());
        i = i + 1;
    }
    SamplerState { cache, dedup, appended: Vec::new() }
}

fn dedup_contains(dedup: &Vec<String>, line: &String) -> (r: bool)
    ensures
        r == line_known(dedup@, line@),
{
    let mut i: usize = 0;
    while i < dedup.len()
        invariant
            0 <= i <= dedup@.len(),
            forall|j: int| 0 <= j < i ==> (#[trigger] dedup@[j])@ != line@,
        decreases dedup@.len() - i,
    {
        if dedup[i].eq(line) {
            return true;
        }
        i = i + 1;
    }
    false
}

/// The compute phase of one sample: deal a random five-card hand from a
/// fresh shuffled deck; if the hand's round key is already cached, skip
/// with no recomputation. Otherwise run the discard search over the
/// forty-seven remaining cards and serialize the result, handing the
/// pending line back without touching the dedup set or the log.
///
/// Idempotence: on a cache that already holds every five-card hand's
/// key for the round, nothing at all changes and nothing is returned;
/// conversely while no round key of this round is cached at all, every
/// deal yields a pending record.
pub fn prepare_sample(state: &mut SamplerState, round_number: u32, sims: u64) -> (r: Option<
    PendingSample,
>)
    requires
        old(state).cache.wf(),
        round_number >= 1,
        sims <= 1000000000,
    ensures
        final(state).cache.wf(),
        final(state).dedup@ == old(state).dedup@,
        final(state).appended@ == old(state).appended@,
        round_complete(old(state).cache, round_number) ==> r is None && *final(state) == *old(state),
        r is Some ==> pending_ok(r->Some_0, round_number),
        (forall|h: Seq<Card>|
            h.len() == 5 && valid_hand(h) ==> !old(state).cache.contents().dom().contains(
                #[trigger] spec_round_key_u(h, round_number),
            )) ==> r is Some,
{
    let mut deck = full_deck();
    let ghost base = deck@;
    shuffle_cards(&mut deck);
    proof {
        lemma_multiset_valid(base, deck@);
    }
    let mut hand: Vec<Card> = Vec::new();
    let mut i: usize = 0;
    while i < 5
        invariant
            0 <= i <= 5,
            deck@.len() == 52,
            valid_hand(deck@),
            hand@.len() == i,
            valid_hand(hand@),
            forall|j: int| 0 <= j < i ==> #[trigger] hand@[j] == deck@[j],
        decreases 5 - i,
    {
        let c = deck[i];
        let ghost hpre = hand@;
        hand.push(c);
        proof {
            assert forall|j: int| 0 <= j < hand@.len() implies valid_card(
                #[trigger] hand@[j],
            ) by {
                if j < hpre.len() {
                    assert(hand@[j] == hpre[j]);
                }
            }
        }
        i = i + 1;
    }
    let rk = round_key(&hand, round_number);
    proof {
        assert(rk == spec_round_key_u(hand@, round_number));
    }
    if state.cache.contains_key(rk) {
        // the dealt hand's witness: the cache is not round-incomplete
        return None;
    }
    let base_deck = full_deck();
    let mut deck_left: Vec<Card> = Vec::new();
    let ghost mut removed: Seq<Card> = Seq::<Card>::empty();
    let mut b: usize = 0;
    while b < base_deck.len()
        invariant
            0 <= b <= base_deck@.len(),
            base_deck@.len() == 52,
            valid_hand(base_deck@),
            forall|i1: int, j1: int| 0 <= i1 < j1 < 52 ==> base_deck@[i1] != base_deck@[j1],
            hand@.len() == 5,
            valid_hand(deck_left@),
            deck_left@.len() + removed.len() == b,
            forall|q: int| 0 <= q < removed.len() ==> hand@.contains(#[trigger] removed[q]),
            forall|q: int|
                #![trigger removed[q]]
                0 <= q < removed.len() ==> exists|bi: int|
                    0 <= bi < b && (#[trigger] base_deck@[bi]) == removed[q],
            removed.no_duplicates(),
        decreases base_deck@.len() - b,
    {
        let c = base_deck[b];
        let mut in_hand = false;
        let mut j: usize = 0;
        while j < hand.len()
            invariant
                0 <= j <= hand@.len(),
                in_hand ==> hand@.contains(c),
                !in_hand ==> forall|q: int| 0 <= q < j ==> hand@[q] != c,
            decreases hand@.len() - j,
        {
            if hand[j] == c {
                in_hand = true;
            }
            j = j + 1;
        }
        if in_hand {
            proof {
                let rpre = removed;
                assert forall|q: int| 0 <= q < rpre.len() implies rpre[q] != c by {
                    let bi = choose|bi: int| 0 <= bi < b && (#[trigger] base_deck@[bi]) == rpre[q];
                    assert(base_deck@[bi] != base_deck@[b as int]);
                }
                removed = removed.push(c);
                assert(removed.no_duplicates()) by {
                    assert forall|q1: int, q2: int|
                        0 <= q1 < q2 < removed.len() implies removed[q1] != removed[q2] by {
                        if q2 < rpre.len() {
                            assert(removed[q1] == rpre[q1] && removed[q2] == rpre[q2]);
                        } else {
                            assert(removed[q1] == rpre[q1] && removed[q2] == c);
                        }
                    }
                }
                assert forall|q: int| #![trigger removed[q]]
                    0 <= q < removed.len() implies exists|bi: int|
                    0 <= bi < b + 1 && (#[trigger] base_deck@[bi]) == removed[q] by {
                    if q < rpre.len() {
                        let bi = choose|bi: int|
                            0 <= bi < b && (#[trigger] base_deck@[bi]) == rpre[q];
                        assert(base_deck@[bi] == removed[q]);
                    } else {
                        assert(base_deck@[b as int] == removed[q]);
                    }
                }
            }
        } else {
            let ghost dpre = deck_left@;
            deck_left.push(c);
            proof {
                assert forall|q: int| 0 <= q < deck_left@.len() implies valid_card(
                    #[trigger] deck_left@[q],
                ) by {
                    if q < dpre.len() {
                        assert(deck_left@[q] == dpre[q]);
                    }
                }
            }
        }
        b = b + 1;
    }
    proof {
        // at most the five dealt cards were removed, so forty-seven remain
        removed.unique_seq_to_set();
        hand@.lemma_cardinality_of_set();
        assert(removed.to_set().subset_of(hand@.to_set())) by {
            assert forall|c: Card| removed.to_set().contains(c) implies hand@.to_set().contains(
                c,
            ) by {
                assert(removed.contains(c));
                let q = choose|q: int| 0 <= q < removed.len() && removed[q] == c;
                assert(hand@.contains(removed[q]));
            }
        }
        lemma_len_subset(removed.to_set(), hand@.to_set());
        assert(removed.len() <= 5);
        assert(deck_left@.len() >= 47);
    }
    let result = get_discards_details(&hand, &deck_left, round_number, sims, &mut state.cache);
    proof {
        assert forall|j: int| 0 <= j < result.best_discard_cards@.len() implies quote_free(
            (#[trigger] result.best_discard_cards@[j])@,
        ) by {
            let idx = result.best_discard_indices@[j] as int;
            lemma_card_text_safe(hand@[idx]);
            lemma_text_safe_quote_free(crate::card::spec_card_text(hand@[idx]));
        }
    }
    let line = round_entry_line(&hand, round_number, result.best_score, result.best_discard_cards);
    Some(PendingSample { key: rk, line })
}

/// Is the pending record's exact line still unknown to the log? When it
/// is, the caller should append it and then commit; when it is not,
/// another worker or an older run already persisted it and a repair is
/// enough.
pub fn needs_append(state: &SamplerState, pending: &PendingSample) -> (r: bool)
    ensures
        r == !line_known(state.dedup@, pending.line@),
{
    !dedup_contains(&state.dedup, &pending.line)
}

/// The commit phase, called only once the line has durably reached the
/// log: the line joins the in-memory log record and the dedup set, and
/// the cache gains it under its round key. A pending value that fails
/// re-validation (the caller is not checked) changes nothing.
pub fn commit_sample(state: &mut SamplerState, pending: PendingSample) -> (committed: bool)
    requires
        old(state).cache.wf(),
    ensures
        final(state).cache.wf(),
        committed == (spec_parse_entry(pending.line@) is Some && spec_parse_entry(
            pending.line@,
        )->Some_0.1 <= SCORE_MILLI_BOUND && !is_score_kind(pending.key)),
        committed ==> final(state).appended@ == old(state).appended@.push(pending.line)
            && final(state).dedup@ == old(state).dedup@.push(pending.line)
            && final(state).cache.contents().dom().contains(pending.key)
            && final(state).cache.contents()[pending.key] == pending.line@,
        !committed ==> *final(state) == *old(state),
{
    let valid = match parse_entry(pending.line.as_str()) {
        Some(e) => e.score <= SCORE_MILLI_BOUND,
        None => false,
    };
    if !valid || (pending.key / 0x100000000) % 2 == 0 {
        return false;
    }
    state.appended.push(pending.line.clone());
    state.dedup.push(pending.line.clone());
    state.cache.put_round_line(pending.key, pending.line);
    true
}

/// The repair phase for a line the log already holds: make sure the
/// cache also holds it under its round key, writing nothing.
pub fn repair_sample(state: &mut SamplerState, pending: PendingSample)
    requires
        old(state).cache.wf(),
    ensures
        final(state).cache.wf(),
        final(state).dedup@ == old(state).dedup@,
        final(state).appended@ == old(state).appended@,
        (spec_parse_entry(pending.line@) is Some && spec_parse_entry(pending.line@)->Some_0.1
            <= SCORE_MILLI_BOUND && !is_score_kind(pending.key)) ==> final(state).cache.contents().dom().contains(pending.key),
{
    let valid = match parse_entry(pending.line.as_str()) {
        Some(e) => e.score <= SCORE_MILLI_BOUND,
        None => false,
    };
    if !valid || (pending.key / 0x100000000) % 2 == 0 {
        return ;
    }
    if !state.cache.contains_key(pending.key) {
        state.cache.put_round_line(pending.key, pending.line);
    }
}

/// One whole sample against the in-memory log, in the persisted order:
/// compute and serialize, check the dedup set, then append and commit —
/// or only repair the cache when the line is already known.
///
/// Idempotence: a cache that already holds every five-card hand's key
/// for the round absorbs the sample with no change at all; while no
/// round key of this round is cached and the dedup set is empty, every
/// sample appends.
pub fn run_one_sample(state: &mut SamplerState, round_number: u32, sims: u64) -> (appended: bool)
    requires
        old(state).cache.wf(),
        round_number >= 1,
        sims <= 1000000000,
    ensures
        final(state).cache.wf(),
        round_complete(old(state).cache, round_number) ==> !appended && *final(state) == *old(state),
        appended ==> final(state).appended@.len() == old(state).appended@.len() + 1,
        !appended ==> final(state).appended@ == old(state).appended@,
        appended ==> !line_known(old(state).dedup@, (final(state).appended@.last())@)
            && final(state).dedup@ == old(state).dedup@.push(final(state).appended@.last()),
        appended ==> spec_parse_entry((final(state).appended@.last())@) is Some,
        appended ==> exists|k2: u64|
            !is_score_kind(k2) && #[trigger] final(state).cache.contents().dom().contains(k2)
                && final(state).cache.contents()[k2] == (final(state).appended@.last())@ && (
            exists|h: Seq<Card>|
                h.len() == 5 && valid_hand(h) && k2 == #[trigger] spec_round_key_u(
                    h,
                    round_number,
                )),
        (old(state).dedup@.len() == 0 && (forall|h: Seq<Card>|
            h.len() == 5 && valid_hand(h) ==> !old(state).cache.contents().dom().contains(
                #[trigger] spec_round_key_u(h, round_number),
            ))) ==> appended,
{
    let pending = match prepare_sample(state, round_number, sims) {
        Some(p) => p,
        None => {
            return false;
        },
    };
    if needs_append(state, &pending) {
        let ghost p = pending;
        let committed = commit_sample(state, pending);
        proof {
            assert(committed);
            assert(state.appended@.last() == p.line);
        }
        true
    } else {
        repair_sample(state, pending);
        false
    }
}

/// The log's line `i` names a round record for the given round key text.
pub open spec fn line_is_round_record(l: Seq<char>, key_text: Seq<char>) -> bool {
    &&& spec_parse_entry(l) is Some
    &&& spec_parse_entry(l)->Some_0.0 == key_text
    &&& spec_parse_entry(l)->Some_0.1 <= SCORE_MILLI_BOUND
}

/// The on-disk form of idempotence: a log that holds, for every
/// five-card hand, a record under the hand's canonical key with the
/// round suffix, loads (capacity permitting, see `load_state`) into a
/// cache that is complete for that round — and on such a state the
/// driver appends zero new lines (see `run_samples`).
pub proof fn lemma_complete_log_completes_round(
    lines: Seq<String>,
    c: ResultCache,
    round_number: u32,
)
    requires
        forall|i: int|
            #![trigger lines[i]]
            0 <= i < lines.len() ==> (spec_parse_entry(lines[i]@) is Some && spec_parse_entry(
                lines[i]@,
            )->Some_0.1 <= SCORE_MILLI_BOUND && crate::cache::spec_parse_round_key_text(
                spec_parse_entry(lines[i]@)->Some_0.0,
            ) is Some ==> c.contents().dom().contains(
                spec_round_key_u(
                    crate::cache::spec_parse_round_key_text(
                        spec_parse_entry(lines[i]@)->Some_0.0,
                    )->Some_0.0,
                    crate::cache::spec_parse_round_key_text(
                        spec_parse_entry(lines[i]@)->Some_0.0,
                    )->Some_0.1,
                ),
            )),
        forall|h: Seq<Card>|
            h.len() == 5 && valid_hand(h) ==> exists|i: int|
                0 <= i < lines.len() && line_is_round_record(
                    (#[trigger] lines[i])@,
                    #[trigger] (crate::key::spec_hand_key(h) + ":R"@
                        + crate::numtext::spec_dec(round_number as nat)),
                ),
    ensures
        round_complete(c, round_number),
{
    assert forall|h: Seq<Card>|
        h.len() == 5 && valid_hand(h) implies c.contents().dom().contains(
        #[trigger] spec_round_key_u(h, round_number),
    ) by {
        let kt = crate::key::spec_hand_key(h) + ":R"@ + crate::numtext::spec_dec(
            round_number as nat,
        );
        let i = choose|i: int|
            0 <= i < lines.len() && line_is_round_record((#[trigger] lines[i])@, kt);
        crate::cache::lemma_round_key_text_round_trip(h, round_number);
        crate::key::lemma_sort_idempotent(h);
        assert(c.contents().dom().contains(
            spec_round_key_u(crate::key::spec_sort_hand(h), round_number),
        ));
        assert(spec_round_key_u(crate::key::spec_sort_hand(h), round_number)
            == spec_round_key_u(h, round_number));
    }
}

/// The sampling driver: draws the given number of independent hands and
/// records each newly computed result. Invoked on a state whose cache
/// already holds every possible hand's result for the round, it appends
/// zero new lines; invoked at least once on a state with an empty dedup
/// set and no result for the round, it appends at least one.
pub fn run_samples(state: &mut SamplerState, count: u64, round_number: u32, sims: u64)
    requires
        old(state).cache.wf(),
        round_number >= 1,
        sims <= 1000000000,
    ensures
        final(state).cache.wf(),
        round_complete(old(state).cache, round_number) ==> final(state).appended@ == old(state).appended@,
        (count >= 1 && old(state).dedup@.len() == 0 && (forall|h: Seq<Card>|
            h.len() == 5 && valid_hand(h) ==> !old(state).cache.contents().dom().contains(
                #[trigger] spec_round_key_u(h, round_number),
            ))) ==> final(state).appended@.len() >= 1,
{
    let ghost complete = round_complete(old(state).cache, round_number);
    let ghost fresh = old(state).dedup@.len() == 0 && (forall|h: Seq<Card>|
        h.len() == 5 && valid_hand(h) ==> !old(state).cache.contents().dom().contains(
            #[trigger] spec_round_key_u(h, round_number),
        ));
    let mut i: u64 = 0;
    while i < count
        invariant
            state.cache.wf(),
            round_number >= 1,
            sims <= 1000000000,
            complete == round_complete(old(state).cache, round_number),
            fresh == (old(state).dedup@.len() == 0 && (forall|h: Seq<Card>|
                h.len() == 5 && valid_hand(h) ==> !old(state).cache.contents().dom().contains(
                    #[trigger] spec_round_key_u(h, round_number),
                ))),
            complete ==> *state == *old(state),
            i == 0 ==> *state == *old(state),
            state.appended@.len() >= old(state).appended@.len(),
            fresh && i >= 1 ==> state.appended@.len() >= old(state).appended@.len() + 1,
        decreases count - i,
    {
        let ghost pre_len = state.appended@.len();
        let _ = run_one_sample(state, round_number, sims);
        i = i + 1;
    }
}

} // verus!
