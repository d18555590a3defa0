use vstd::prelude::*;
use vstd::string::StrSliceExecFns;
use crate::card::{Card, valid_hand};
use crate::score::{
    spec_score_milli, SCORE_MILLI_BOUND, hand_score, lemma_score_milli_bound,
    lemma_score_permutation,
};
use crate::key::{
    spec_score_key, spec_round_key_u, is_score_kind, score_key, round_key,
    lemma_score_key_injective,
};
use crate::numtext::{spec_parse_milli, spec_milli_text, milli_to_text, parse_milli_range, lemma_milli_parse};
use crate::codec::{spec_parse_entry, parse_entry, idx_of};

verus! {

#[verifier::external_type_specification]
#[verifier::external_body]
#[verifier::reject_recursive_types(K)]
#[verifier::reject_recursive_types(V)]
#[verifier::reject_recursive_types(S)]
pub struct ExLruCache<K, V, S>(lru::LruCache<K, V, S>);

/// What the bounded store holds: its key-to-line map.
pub uninterp spec fn lru_contents(c: lru::LruCache<u64, String, std::collections::hash_map::RandomState>) -> Map<u64, Seq<char>>;

/// The bound the store was created with.
pub uninterp spec fn lru_capacity(c: lru::LruCache<u64, String, std::collections::hash_map::RandomState>) -> nat;

/// Relies on lru::LruCache::with_hasher: a fresh cache is empty and
/// remembers the given positive bound.
#[verifier::external_body]
fn lru_new(cap: usize) -> (r: lru::LruCache<u64, String, std::collections::hash_map::RandomState>)
    requires
        cap >= 1,
    ensures
        lru_capacity(r) == cap as nat,
        forall|k: u64| !lru_contents(r).dom().contains(k),
        lru_contents(r).dom().finite(),
{
    lru::LruCache::with_hasher(
        std::num::NonZeroUsize::new(cap).unwrap(),
        std::collections::hash_map::RandomState::new(),
    )
}

/// Relies on lru::LruCache::get: a hit hands back the stored value and
/// only refreshes recency, so the contents stay as they were.
#[verifier::external_body]
fn lru_get(c: &mut lru::LruCache<u64, String, std::collections::hash_map::RandomState>, k: u64) -> (r: Option<String>)
    ensures
        lru_contents(*final(c)) == lru_contents(*old(c)),
        lru_capacity(*final(c)) == lru_capacity(*old(c)),
        match r {
            Some(v) => lru_contents(*old(c)).dom().contains(k) && v@ == lru_contents(*old(c))[k],
            None => !lru_contents(*old(c)).dom().contains(k),
        },
{
    c.get(&k).cloned()
}

/// Relies on lru::LruCache::put: the pair is stored; any other surviving
/// entry keeps the value it had; no key appears from nowhere; an entry
/// is evicted (the least recently used one) only when the store is at
/// capacity and the key is new, so below capacity a put is a plain
/// insert and the entry count never shrinks.
#[verifier::external_body]
fn lru_put(c: &mut lru::LruCache<u64, String, std::collections::hash_map::RandomState>, k: u64, v: String)
    ensures
        lru_capacity(*final(c)) == lru_capacity(*old(c)),
        lru_contents(*final(c)).dom().contains(k),
        lru_contents(*final(c))[k] == v@,
        forall|k2: u64|
            #[trigger] lru_contents(*final(c)).dom().contains(k2) && k2 != k ==> lru_contents(
                *old(c),
            ).dom().contains(k2) && lru_contents(*final(c))[k2] == lru_contents(*old(c))[k2],
        lru_contents(*old(c)).dom().contains(k) || lru_contents(*old(c)).dom().len()
            < lru_capacity(*old(c)) ==> lru_contents(*final(c)) == lru_contents(*old(c)).insert(
            k,
            v@,
        ),
        lru_contents(*final(c)).dom().len() >= lru_contents(*old(c)).dom().len(),
        lru_contents(*old(c)).dom().finite() ==> lru_contents(*final(c)).dom().finite(),
{
    c.put(k, v);
}

/// Relies on lru::LruCache::contains: a pure membership test that does
/// not touch recency.
#[verifier::external_body]
fn lru_contains(c: &lru::LruCache<u64, String, std::collections::hash_map::RandomState>, k: u64) -> (r: bool)
    ensures
        r == lru_contents(*c).dom().contains(k),
{
    c.contains(&k)
}

/// A stored terminal score is trustworthy: under any five-card hand's
/// score key, a value that parses as a fixed-point number is that hand's
/// evaluated score.
pub open spec fn s_entry_ok(k: u64, v: Seq<char>) -> bool {
    forall|h: Seq<Card>|
        h.len() == 5 && valid_hand(h) && k as int == #[trigger] spec_score_key(h) ==> (
        spec_parse_milli(v) is Some ==> spec_parse_milli(v)->Some_0 as int == spec_score_milli(h))
}

/// A stored round entry is bounded: a value that parses as a record
/// carries a score within the evaluator's range.
pub open spec fn r_entry_ok(v: Seq<char>) -> bool {
    spec_parse_entry(v) is Some ==> spec_parse_entry(v)->Some_0.1 <= SCORE_MILLI_BOUND
}

pub open spec fn entry_ok(k: u64, v: Seq<char>) -> bool {
    if is_score_kind(k) {
        s_entry_ok(k, v)
    } else {
        r_entry_ok(v)
    }
}

/// Every entry of the map is well formed for its key kind.
pub open spec fn map_wf(m: Map<u64, Seq<char>>) -> bool {
    forall|k: u64| #[trigger] m.dom().contains(k) ==> entry_ok(k, m[k])
}

/// Putting a well-formed entry keeps the map well formed, whatever the
/// store evicted.
proof fn lemma_map_wf_put(pre: Map<u64, Seq<char>>, post: Map<u64, Seq<char>>, k: u64, v: Seq<char>)
    requires
        map_wf(pre),
        entry_ok(k, v),
        post.dom().contains(k),
        post[k] == v,
        forall|k2: u64|
            #[trigger] post.dom().contains(k2) && k2 != k ==> pre.dom().contains(k2) && post[k2]
                == pre[k2],
    ensures
        map_wf(post),
{
    assert forall|k2: u64| #[trigger] post.dom().contains(k2) implies entry_ok(k2, post[k2]) by {
        if k2 != k {
            assert(pre.dom().contains(k2) && post[k2] == pre[k2]);
        }
    }
}

/// The shared result cache: a bounded least-recently-used map from
/// packed hand keys to serialized values, an accelerator over the
/// persisted log.
pub struct ResultCache {
    lru: lru::LruCache<u64, String, std::collections::hash_map::RandomState>,
}

impl ResultCache {
    pub closed spec fn contents(&self) -> Map<u64, Seq<char>> {
        lru_contents(self.lru)
    }

    /// The bound the store was created with.
    pub closed spec fn capacity(&self) -> nat {
        lru_capacity(self.lru)
    }

    /// Every entry the cache holds is well formed for its key kind.
    pub open spec fn wf(&self) -> bool {
        map_wf(self.contents())
    }

    pub fn new(cap: usize) -> (r: ResultCache)
        requires
            cap >= 1,
        ensures
            r.wf(),
            r.contents() =~= Map::<u64, Seq<char>>::empty(),
            r.capacity() == cap,
            r.contents().dom().finite(),
    {
        let r = ResultCache { lru: lru_new(cap) };
        proof {
            assert(r.contents() =~= Map::<u64, Seq<char>>::empty());
        }
        r
    }

    pub fn contains_key(&self, k: u64) -> (r: bool)
        ensures
            r == self.contents().dom().contains(k),
    {
        lru_contains(&self.lru, k)
    }

    /// Reads the cached best score under a round key. A stored line that
    /// does not parse as a record counts as a miss and falls through to
    /// recomputation.
    pub fn get_round_score(&mut self, k: u64) -> (r: Option<u64>)
        requires
            old(self).wf(),
            !is_score_kind(k),
        ensures
            final(self).wf(),
            final(self).contents() == old(self).contents(),
            final(self).capacity() == old(self).capacity(),
            r is Some <==> old(self).contents().dom().contains(k) && spec_parse_entry(
                old(self).contents()[k],
            ) is Some,
            r is Some ==> r->Some_0 == spec_parse_entry(old(self).contents()[k])->Some_0.1
                && r->Some_0 <= SCORE_MILLI_BOUND,
    {
        match lru_get(&mut self.lru, k) {
            Some(v) => {
                proof {
                    assert(old(self).contents().dom().contains(k));
                    assert(entry_ok(k, old(self).contents()[k]));
                    assert(v@ == old(self).contents()[k]);
                    assert(r_entry_ok(v@));
                }
                match parse_entry(v.as_str()) {
                    Some(e) => Some(e.score),
                    None => None,
                }
            },
            None => None,
        }
    }

    /// Stores a serialized round entry under its round key.
    pub fn put_round_line(&mut self, k: u64, line: String)
        requires
            old(self).wf(),
            !is_score_kind(k),
            spec_parse_entry(line@) is Some ==> spec_parse_entry(line@)->Some_0.1
                <= SCORE_MILLI_BOUND,
        ensures
            final(self).wf(),
            final(self).capacity() == old(self).capacity(),
            final(self).contents().dom().contains(k),
            final(self).contents()[k] == line@,
            forall|k2: u64|
                #[trigger] final(self).contents().dom().contains(k2) && k2 != k ==> old(
                    self,
                ).contents().dom().contains(k2) && final(self).contents()[k2] == old(
                    self,
                ).contents()[k2],
            old(self).contents().dom().contains(k) || old(self).contents().dom().len() < old(
                self,
            ).capacity() ==> final(self).contents() == old(self).contents().insert(k, line@),
            final(self).contents().dom().len() >= old(self).contents().dom().len(),
            final(self).contents().dom().len() < final(self).capacity() ==> forall|k2: u64|
                old(self).contents().dom().contains(k2) ==> final(self).contents().dom().contains(
                    k2,
                ),
            old(self).contents().dom().finite() ==> final(self).contents().dom().finite(),
    {
        let ghost pre = self.contents();
        lru_put(&mut self.lru, k, line);
        proof {
            lemma_map_wf_put(pre, self.contents(), k, line@);
            if self.contents().dom().len() < self.capacity() {
                assert(pre.dom().len() <= self.contents().dom().len());
                assert(self.contents() == pre.insert(k, line@));
                assert forall|k2: u64| pre.dom().contains(k2) implies self.contents().dom().contains(
                    k2,
                ) by {}
            }
        }
    }
}

/// The memoized evaluator: it consults the shared cache under the hand's
/// score key and computes and stores the score on a miss. The cache's
/// well-formedness guarantees a hit equals the direct evaluation.
#[verifier::rlimit(80)]
pub fn hand_score_cached(hand: &Vec<Card>, cache: &mut ResultCache) -> (r: u64)
    requires
        old(cache).wf(),
        hand@.len() == 5,
        valid_hand(hand@),
    ensures
        final(cache).wf(),
        final(cache).capacity() == old(cache).capacity(),
        r as int == spec_score_milli(hand@),
        r <= SCORE_MILLI_BOUND,
        forall|k2: u64|
            #[trigger] final(cache).contents().dom().contains(k2) && k2 as int != spec_score_key(
                hand@,
            ) ==> old(cache).contents().dom().contains(k2) && final(cache).contents()[k2] == old(
                cache,
            ).contents()[k2],
        forall|k2: u64|
            #[trigger] final(cache).contents().dom().contains(k2) && !old(
                cache,
            ).contents().dom().contains(k2) ==> is_score_kind(k2),
        final(cache).contents().dom().len() >= old(cache).contents().dom().len(),
        final(cache).contents().dom().len() < final(cache).capacity() ==> forall|k2: u64|
            old(cache).contents().dom().contains(k2) ==> final(cache).contents().dom().contains(
                k2,
            ),
{
    let k = score_key(hand);
    let got = lru_get(&mut cache.lru, k);
    if let Some(v) = got {
        let n = v.as_str().unicode_len();
        if let Some(m) = parse_milli_range(v.as_str(), 0, n) {
            proof {
                assert(v@.subrange(0, v@.len() as int) =~= v@);
                assert(entry_ok(k, v@));
                assert(s_entry_ok(k, v@));
                assert(spec_parse_milli(v@) is Some);
                assert(m as int == spec_score_milli(hand@));
                lemma_score_milli_bound(hand@);
            }
            return m;
        }
    }
    let m = hand_score(hand);
    let line = milli_to_text(m);
    let ghost pre = cache.contents();
    lru_put(&mut cache.lru, k, line);
    proof {
        lemma_s_entry_for_hand(hand@, m, k);
        lemma_map_wf_put(pre, cache.contents(), k, line@);
    }
    m
}

/// The line the memoized evaluator stores is well formed under the
/// hand's score key: any hand that packs to the same key holds the same
/// cards and so evaluates to the same score.
proof fn lemma_s_entry_for_hand(hand: Seq<Card>, m: u64, k: u64)
    requires
        hand.len() == 5,
        valid_hand(hand),
        m as int == spec_score_milli(hand),
        k as int == spec_score_key(hand),
    ensures
        s_entry_ok(k, spec_milli_text(m)),
{
    lemma_milli_parse(m);
    assert forall|h: Seq<Card>|
        h.len() == 5 && valid_hand(h) && k as int == #[trigger] spec_score_key(h) implies (
    spec_parse_milli(spec_milli_text(m)) is Some ==> spec_parse_milli(
        spec_milli_text(m),
    )->Some_0 as int == spec_score_milli(h)) by {
        lemma_score_key_injective(h, hand);
        lemma_score_permutation(h, hand);
    }
}

/// The card texts before the colon of a key, split on the bars.
pub open spec fn spec_parse_key_cards(t: Seq<char>) -> Option<Seq<Card>>
    decreases t.len(),
{
    let bar = idx_of(t, 0, '|');
    if bar < 0 {
        match crate::card::spec_parse_card(t) {
            Some(c) => Some(seq![c]),
            None => None,
        }
    } else if bar < 1 || bar + 1 >= t.len() {
        None
    } else {
        match crate::card::spec_parse_card(t.take(bar)) {
            Some(c) => match spec_parse_key_cards(t.subrange(bar + 1, t.len() as int)) {
                Some(cs) => Some(seq![c] + cs),
                None => None,
            },
            None => None,
        }
    }
}

/// A key text of round shape: five card texts joined with bars, a
/// colon, an `R` and the round number.
pub open spec fn spec_parse_round_key_text(t: Seq<char>) -> Option<(Seq<Card>, u32)> {
    let colon = idx_of(t, 0, ':');
    if colon < 1 || colon + 2 > t.len() {
        None
    } else if t[colon + 1] != 'R' {
        None
    } else {
        match spec_parse_key_cards(t.take(colon)) {
            Some(cs) => {
                match crate::numtext::spec_parse_u64(t.subrange(colon + 2, t.len() as int)) {
                    Some(v) => {
                        if v <= 0xFFFFFFFF && cs.len() == 5 {
                            Some((cs, v as u32))
                        } else {
                            None
                        }
                    },
                    None => None,
                }
            },
            None => None,
        }
    }
}

pub proof fn lemma_parse_key_cards_valid(t: Seq<char>)
    requires
        spec_parse_key_cards(t) is Some,
    ensures
        valid_hand(spec_parse_key_cards(t)->Some_0),
    decreases t.len(),
{
    let bar = idx_of(t, 0, '|');
    if bar < 0 {
        crate::card::lemma_parse_card_valid(t);
        let cs = spec_parse_key_cards(t)->Some_0;
        assert(forall|i: int| 0 <= i < cs.len() ==> #[trigger] cs[i] == cs[0]);
    } else {
        crate::codec::lemma_idx_of_props(t, 0, '|');
        crate::card::lemma_parse_card_valid(t.take(bar));
        lemma_parse_key_cards_valid(t.subrange(bar + 1, t.len() as int));
        let c = crate::card::spec_parse_card(t.take(bar))->Some_0;
        let rest = spec_parse_key_cards(t.subrange(bar + 1, t.len() as int))->Some_0;
        let cs = spec_parse_key_cards(t)->Some_0;
        assert(cs == seq![c] + rest);
        assert forall|i: int| 0 <= i < cs.len() implies crate::card::valid_card(
            #[trigger] cs[i],
        ) by {
            if i >= 1 {
                assert(cs[i] == rest[i - 1]);
            }
        }
    }
}

/// Parses the card texts of a key's hand part, the mirror of the
/// parsing function.
fn parse_key_cards_x(s: &str, start: usize, end: usize) -> (r: Option<Vec<Card>>)
    requires
        start <= end <= s@.len(),
    ensures
        match r {
            Some(v) => spec_parse_key_cards(s@.subrange(start as int, end as int)) == Some(v@),
            None => spec_parse_key_cards(s@.subrange(start as int, end as int)) is None,
        },
    decreases end - start,
{
    let ghost t = s@.subrange(start as int, end as int);
    let bar = match crate::codec::find_from(s, start, '|') {
        Some(p) => {
            if p < end {
                Some(p)
            } else {
                None
            }
        },
        None => None,
    };
    proof {
        crate::codec::lemma_idx_of_props(s@, start as int, '|');
        crate::codec::lemma_idx_sub(s@, start as int, end as int, 0, '|');
    }
    match bar {
        None => {
            let seg = s.substring_char(start, end);
            proof {
                assert(seg@ =~= t);
            }
            match Card::from_text(seg) {
                Some(c) => {
                    let mut v: Vec<Card> = Vec::new();
                    v.push(c);
                    proof {
                        assert(v@ =~= seq![c]);
                    }
                    Some(v)
                },
                None => None,
            }
        },
        Some(p) => {
            if p <= start || p + 1 >= end {
                return None;
            }
            let seg = s.substring_char(start, p);
            proof {
                assert(seg@ =~= t.take(p - start));
            }
            let c = match Card::from_text(seg) {
                Some(c) => c,
                None => {
                    return None;
                },
            };
            match parse_key_cards_x(s, p + 1, end) {
                Some(rest) => {
                    let mut v: Vec<Card> = Vec::new();
                    v.push(c);
                    let mut k2: usize = 0;
                    while k2 < rest.len()
                        invariant
                            0 <= k2 <= rest@.len(),
                            v@ =~= seq![c] + rest@.take(k2 as int),
                        decreases rest@.len() - k2,
                    {
                        v.push(rest[k2]);
                        proof {
                            assert(rest@.take(k2 as int + 1) =~= rest@.take(k2 as int).push(
                                rest@[k2 as int],
                            ));
                        }
                        k2 = k2 + 1;
                    }
                    proof {
                        assert(rest@.take(rest@.len() as int) =~= rest@);
                        assert(t.subrange(p - start + 1, t.len() as int) =~= s@.subrange(
                            p + 1,
                            end as int,
                        ));
                    }
                    Some(v)
                },
                None => {
                    proof {
                        assert(t.subrange(p - start + 1, t.len() as int) =~= s@.subrange(
                            p + 1,
                            end as int,
                        ));
                    }
                    None
                },
            }
        },
    }
}

/// Turns a record's key text back into the hand and round it names;
/// score-kind key texts and anything malformed give `None`.
fn parse_round_key_text(key: &str) -> (r: Option<(Vec<Card>, u32)>)
    ensures
        match r {
            Some(p) => spec_parse_round_key_text(key@) == Some((p.0@, p.1)),
            None => spec_parse_round_key_text(key@) is None,
        },
{
    let n = key.unicode_len();
    let colon = match crate::codec::find_from(key, 0, ':') {
        Some(p) => p,
        None => {
            proof {
                crate::codec::lemma_idx_of_props(key@, 0, ':');
            }
            return None;
        },
    };
    proof {
        crate::codec::lemma_idx_of_props(key@, 0, ':');
    }
    if colon < 1 || n - colon < 2 {
        return None;
    }
    if key.get_char(colon + 1) != 'R' {
        return None;
    }
    let cards = match parse_key_cards_x(key, 0, colon) {
        Some(v) => v,
        None => {
            proof {
                assert(key@.subrange(0, colon as int) =~= key@.take(colon as int));
            }
            return None;
        },
    };
    proof {
        assert(key@.subrange(0, colon as int) =~= key@.take(colon as int));
    }
    let round = match crate::numtext::parse_u64_range(key, colon + 2, n) {
        Some(v) => v,
        None => {
            return None;
        },
    };
    if round > 0xFFFFFFFF || cards.len() != 5 {
        return None;
    }
    Some((cards, round as u32))
}

/// Startup load: each line that parses as a record with a bounded score
/// and a round-shaped key is put into the bounded cache under its
/// packed round key, with the raw line as the value; malformed lines
/// are skipped and never fatal. Score-kind key texts are left to the
/// evaluator, which treats their record-shaped values as misses and
/// overwrites them. Everything the cache ends up holding is one of the
/// input lines, and while the lines fit the bound every round record
/// among them is held.
pub fn load_cache(lines: &Vec<String>, cap: usize) -> (r: ResultCache)
    requires
        cap >= 1,
    ensures
        r.wf(),
        r.capacity() == cap,
        forall|k2: u64|
            #[trigger] r.contents().dom().contains(k2) ==> exists|i: int|
                0 <= i < lines@.len() && (#[trigger] lines@[i]@) == r.contents()[k2],
        lines@.len() <= cap ==> forall|i: int|
            #![trigger lines@[i]]
            0 <= i < lines@.len() ==> (spec_parse_entry(lines@[i]@) is Some && spec_parse_entry(
                lines@[i]@,
            )->Some_0.1 <= SCORE_MILLI_BOUND && spec_parse_round_key_text(
                spec_parse_entry(lines@[i]@)->Some_0.0,
            ) is Some ==> r.contents().dom().contains(
                spec_round_key_u(
                    spec_parse_round_key_text(spec_parse_entry(lines@[i]@)->Some_0.0)->Some_0.0,
                    spec_parse_round_key_text(spec_parse_entry(lines@[i]@)->Some_0.0)->Some_0.1,
                ),
            )),
{
    let mut cache = ResultCache::new(cap);
    let mut i: usize = 0;
    while i < lines.len()
        invariant
            0 <= i <= lines@.len(),
            cache.wf(),
            cache.capacity() == cap,
            cache.contents().dom().finite(),
            cache.contents().dom().len() <= i,
            forall|k2: u64|
                #[trigger] cache.contents().dom().contains(k2) ==> exists|j: int|
                    0 <= j < i && (#[trigger] lines@[j]@) == cache.contents()[k2],
            lines@.len() <= cap ==> forall|j: int|
                #![trigger lines@[j]]
                0 <= j < i ==> (spec_parse_entry(lines@[j]@) is Some && spec_parse_entry(
                    lines@[j]@,
                )->Some_0.1 <= SCORE_MILLI_BOUND && spec_parse_round_key_text(
                    spec_parse_entry(lines@[j]@)->Some_0.0,
                ) is Some ==> cache.contents().dom().contains(
                    spec_round_key_u(
                        spec_parse_round_key_text(
                            spec_parse_entry(lines@[j]@)->Some_0.0,
                        )->Some_0.0,
                        spec_parse_round_key_text(
                            spec_parse_entry(lines@[j]@)->Some_0.0,
                        )->Some_0.1,
                    ),
                )),
        decreases lines@.len() - i,
    {
        let line = &lines[i];
        let ghost pre = cache.contents();
        match parse_entry(line.as_str()) {
            Some(e) => {
                if e.score <= SCORE_MILLI_BOUND {
                    match parse_round_key_text(e.key.as_str()) {
                        Some((cards, round)) => {
                            proof {
                                lemma_parse_key_cards_valid(key_hand_text(line@));
                                assert(valid_hand(cards@));
                            }
                            let k = round_key(&cards, round);
                            proof {
                                assert(k == spec_round_key_u(cards@, round));
                            }
                            cache.put_round_line(k, line.clone());
                            proof {
                                assert(cache.contents().dom().subset_of(pre.dom().insert(k)));
                                vstd::set_lib::lemma_len_subset(
                                    cache.contents().dom(),
                                    pre.dom().insert(k),
                                );
                            }
                        },
                        None => {},
                    }
                }
            },
            None => {},
        }
        i = i + 1;
    }
    cache
}

/// The hand part of a parsed line's key text.
pub open spec fn key_hand_text(l: Seq<char>) -> Seq<char> {
    let kt = spec_parse_entry(l)->Some_0.0;
    kt.take(idx_of(kt, 0, ':'))
}

proof fn lemma_join_nonempty(s: Seq<Card>)
    requires
        valid_hand(s),
        s.len() >= 1,
    ensures
        crate::key::join_cards(s).len() >= 1,
{
    reveal_strlit("|");
    if s.len() == 1 {
        crate::card::lemma_card_text_safe(s[0]);
    } else {
        assert(crate::key::join_cards(s) == crate::key::join_cards(s.drop_last()) + "|"@
            + crate::card::spec_card_text(s.last()));
        assert("|"@.len() == 1);
    }
}

/// A canonical hand part parses back to the very cards it joined.
pub proof fn lemma_key_cards_round_trip(s: Seq<Card>)
    requires
        valid_hand(s),
        s.len() >= 1,
    ensures
        spec_parse_key_cards(crate::key::join_cards(s)) == Some(s),
    decreases s.len(),
{
    reveal_strlit("|");
    let t = crate::key::join_cards(s);
    if s.len() == 1 {
        crate::card::lemma_card_text_safe(s[0]);
        assert(t == crate::card::spec_card_text(s[0]));
        crate::codec::lemma_idx_of_props(t, 0, '|');
        if idx_of(t, 0, '|') >= 0 {
            assert(t[idx_of(t, 0, '|')] == '|');
            assert(false);
        }
        crate::card::lemma_card_text_parse(s[0]);
        assert(seq![s[0]] =~= s);
    } else {
        crate::key::lemma_join_cards_front(s);
        let a = crate::card::spec_card_text(s[0]);
        let rest = crate::key::join_cards(s.drop_first());
        assert(t == a + "|"@ + rest);
        crate::card::lemma_card_text_safe(s[0]);
        assert(valid_hand(s.drop_first())) by {
            assert(forall|i: int|
                0 <= i < s.drop_first().len() ==> #[trigger] s.drop_first()[i] == s[i + 1]);
        }
        lemma_join_nonempty(s.drop_first());
        assert(t[a.len() as int] == '|');
        assert forall|i: int| 0 <= i < a.len() implies t[i] != '|' by {
            assert(t[i] == a[i]);
        }
        crate::codec::lemma_idx_of_found(t, 0, a.len() as int, '|');
        let bar = a.len() as int;
        assert(bar >= 1 && bar + 1 < t.len());
        assert(t.take(bar) =~= a);
        crate::card::lemma_card_text_parse(s[0]);
        assert(t.subrange(bar + 1, t.len() as int) =~= rest);
        lemma_key_cards_round_trip(s.drop_first());
        assert(seq![s[0]] + s.drop_first() =~= s);
    }
}

/// A canonical round key text parses back to the sorted hand and the
/// round it was built from.
pub proof fn lemma_round_key_text_round_trip(h: Seq<Card>, round_number: u32)
    requires
        valid_hand(h),
        h.len() == 5,
    ensures
        spec_parse_round_key_text(
            crate::key::spec_hand_key(h) + ":R"@ + crate::numtext::spec_dec(
                round_number as nat,
            ),
        ) == Some((crate::key::spec_sort_hand(h), round_number)),
{
    reveal_strlit(":R");
    crate::key::lemma_sorted_valid(h);
    let sorted = crate::key::spec_sort_hand(h);
    let hk = crate::key::spec_hand_key(h);
    let dc = crate::numtext::spec_dec(round_number as nat);
    let t = hk + ":R"@ + dc;
    crate::key::lemma_join_cards_no_colon(sorted);
    crate::numtext::lemma_dec_properties(round_number as nat);
    lemma_join_nonempty(sorted);
    assert(":R"@.len() == 2 && ":R"@[0] == ':' && ":R"@[1] == 'R');
    assert(t[hk.len() as int] == ':');
    assert forall|i: int| 0 <= i < hk.len() implies t[i] != ':' by {
        assert(t[i] == hk[i]);
    }
    crate::codec::lemma_idx_of_found(t, 0, hk.len() as int, ':');
    let colon = hk.len() as int;
    assert(colon >= 1 && colon + 2 <= t.len());
    assert(t[colon + 1] == 'R');
    assert(t.take(colon) =~= hk);
    lemma_key_cards_round_trip(sorted);
    assert(t.subrange(colon + 2, t.len() as int) =~= dc);
    assert(crate::numtext::spec_parse_u64(dc) == Some(round_number as u64));
}

} // verus!
