use vstd::prelude::*;
use vstd::string::StrSliceExecFns;
use vstd::string::StringExecFns;
use crate::card::quote_free;
use crate::numtext::{
    spec_milli_text, spec_parse_milli, milli_to_text, parse_milli_range, lemma_milli_parse,
    lemma_dec_properties, is_digit,
};

verus! {

/// One persisted record: a cache key, the best expected score in
/// thousandths, and, for a round entry, the winning discard's card texts.
#[derive(Clone, Debug)]
pub struct CacheEntry {
    pub key: String,
    pub score: u64,
    pub cards: Option<Vec<String>>,
}

pub open spec fn cards_view(c: Option<Vec<String>>) -> Option<Seq<Seq<char>>> {
    match c {
        Some(v) => Some(v.deep_view()),
        None => None,
    }
}

/// Every string of the record is free of double quotes, as canonical
/// keys and card texts are, so the quoted fields parse back exactly.
pub open spec fn entry_safe(k: Seq<char>, cards: Option<Seq<Seq<char>>>) -> bool {
    quote_free(k) && match cards {
        Some(cs) => forall|i: int| 0 <= i < cs.len() ==> quote_free(#[trigger] cs[i]),
        None => true,
    }
}

pub open spec fn quote_text(x: Seq<char>) -> Seq<char> {
    "\""@ + x + "\""@
}

/// The quoted card texts joined with commas, first card first.
pub open spec fn spec_cards_list(cs: Seq<Seq<char>>) -> Seq<char>
    decreases cs.len(),
{
    if cs.len() == 0 {
        Seq::<char>::empty()
    } else if cs.len() == 1 {
        quote_text(cs[0])
    } else {
        quote_text(cs[0]) + ","@ + spec_cards_list(cs.drop_first())
    }
}

pub open spec fn spec_cards_text(cards: Option<Seq<Seq<char>>>) -> Seq<char> {
    match cards {
        None => "null"@,
        Some(cs) => "["@ + spec_cards_list(cs) + "]"@,
    }
}

/// The serialized line of a record: one object with the key, the score
/// and the cards, in that fixed order.
pub open spec fn spec_encode_entry(k: Seq<char>, sc: u64, cards: Option<Seq<Seq<char>>>) -> Seq<
    char,
> {
    "{\"key\":\""@ + k + "\",\"score\":"@ + spec_milli_text(sc) + ",\"cards\":"@ + spec_cards_text(
        cards,
    ) + "}"@
}

/// The first position at or after `from` holding `c`; -1 when none does.
pub open spec fn idx_of(t: Seq<char>, from: int, c: char) -> int
    decreases t.len() - from,
{
    if from < 0 || from >= t.len() {
        -1
    } else if t[from] == c {
        from
    } else {
        idx_of(t, from + 1, c)
    }
}

pub open spec fn spec_parse_cards(t: Seq<char>) -> Option<Seq<Seq<char>>>
    decreases t.len(),
{
    if t.len() < 2 || t[0] != '"' {
        None
    } else {
        let q = idx_of(t, 1, '"');
        if q < 1 || q >= t.len() {
            None
        } else {
            let item = t.subrange(1, q);
            if q + 1 == t.len() {
                Some(seq![item])
            } else if t[q + 1] == ',' {
                match spec_parse_cards(t.subrange(q + 2, t.len() as int)) {
                    Some(cs) => Some(seq![item] + cs),
                    None => None,
                }
            } else {
                None
            }
        }
    }
}

/// Parsing a serialized line back into its parts; anything that strays
/// from the canonical shape parses to `None`.
pub open spec fn spec_parse_entry(t: Seq<char>) -> Option<
    (Seq<char>, u64, Option<Seq<Seq<char>>>),
> {
    if !(t.len() >= 8 && t.take(8) == "{\"key\":\""@) {
        None
    } else {
        let q = idx_of(t, 8, '"');
        if q < 0 {
            None
        } else {
            let key = t.subrange(8, q);
            if !(t.len() >= q + 10 && t.subrange(q + 1, q + 10) == ",\"score\":"@) {
                None
            } else {
                let comma = idx_of(t, q + 10, ',');
                if comma < 0 {
                    None
                } else {
                    let sc = spec_parse_milli(t.subrange(q + 10, comma));
                    if sc is None {
                        None
                    } else {
                        if !(t.len() >= comma + 9 && t.subrange(comma, comma + 9)
                            == ",\"cards\":"@) {
                            None
                        } else {
                            let rest = t.subrange(comma + 9, t.len() as int);
                            if rest == "null}"@ {
                                Some((key, sc->Some_0, None))
                            } else if rest.len() >= 3 && rest[0] == '[' && rest.last() == '}'
                                && rest[rest.len() - 2] == ']' {
                                let inner = rest.subrange(1, rest.len() - 2);
                                if inner.len() == 0 {
                                    Some((key, sc->Some_0, Some(Seq::<Seq<char>>::empty())))
                                } else {
                                    match spec_parse_cards(inner) {
                                        Some(cs) => Some((key, sc->Some_0, Some(cs))),
                                        None => None,
                                    }
                                }
                            } else {
                                None
                            }
                        }
                    }
                }
            }
        }
    }
}

proof fn lemma_cards_list_push(cs: Seq<Seq<char>>, x: Seq<char>)
    ensures
        spec_cards_list(cs.push(x)) == if cs.len() == 0 {
            quote_text(x)
        } else {
            spec_cards_list(cs) + ","@ + quote_text(x)
        },
    decreases cs.len(),
{
    let p = cs.push(x);
    if cs.len() == 0 {
        assert(p.len() == 1 && p[0] == x);
    } else {
        assert(p.drop_first() =~= cs.drop_first().push(x));
        lemma_cards_list_push(cs.drop_first(), x);
        assert(p[0] == cs[0]);
        if cs.len() == 1 {
            assert(spec_cards_list(p) =~= quote_text(cs[0]) + ","@ + quote_text(x));
            assert(spec_cards_list(cs) + ","@ + quote_text(x) =~= quote_text(cs[0]) + ","@
                + quote_text(x));
        } else {
            assert(spec_cards_list(p) == quote_text(p[0]) + ","@ + spec_cards_list(
                p.drop_first(),
            ));
            assert(spec_cards_list(p) =~= spec_cards_list(cs) + ","@ + quote_text(x));
        }
    }
}

/// Serializes a record into its one-line text.
pub fn encode_entry(e: &CacheEntry) -> (r: String)
    ensures
        r@ == spec_encode_entry(e.key@, e.score, cards_view(e.cards)),
{
    let mut out = String::new();
    out.append("{\"key\":\"");
    out.append(e.key.as_str());
    out.append("\",\"score\":");
    let st = milli_to_text(e.score);
    out.append(st.as_str());
    out.append(",\"cards\":");
    match &e.cards {
        None => {
            out.append("null");
        },
        Some(cs) => {
            out.append("[");
            let ghost base = out@;
            let mut i: usize = 0;
            while i < cs.len()
                invariant
                    0 <= i <= cs@.len(),
                    out@ == base + spec_cards_list(cs.deep_view().take(i as int)),
                decreases cs@.len() - i,
            {
                if i > 0 {
                    out.append(",");
                }
                out.append("\"");
                out.append(cs[i].as_str());
                out.append("\"");
                proof {
                    let dv = cs.deep_view();
                    assert(dv.take(i as int + 1) =~= dv.take(i as int).push(dv[i as int]));
                    lemma_cards_list_push(dv.take(i as int), dv[i as int]);
                    assert(dv[i as int] == cs@[i as int]@);
                    if i == 0 {
                        assert(spec_cards_list(dv.take(0)) =~= Seq::<char>::empty());
                        assert(out@ =~= base + quote_text(dv[0]));
                    } else {
                        assert(out@ =~= base + (spec_cards_list(dv.take(i as int)) + ","@
                            + quote_text(dv[i as int])));
                    }
                }
                i = i + 1;
            }
            proof {
                assert(cs.deep_view().take(cs.deep_view().len() as int) =~= cs.deep_view());
            }
            out.append("]");
        },
    }
    out.append("}");
    proof {
        assert(out@ =~= spec_encode_entry(e.key@, e.score, cards_view(e.cards)));
    }
    out
}

pub(crate) proof fn lemma_idx_of_found(t: Seq<char>, from: int, pos: int, c: char)
    requires
        0 <= from <= pos < t.len(),
        t[pos] == c,
        forall|i: int| from <= i < pos ==> t[i] != c,
    ensures
        idx_of(t, from, c) == pos,
    decreases pos - from,
{
    if from < pos {
        lemma_idx_of_found(t, from + 1, pos, c);
    }
}

pub(crate) proof fn lemma_idx_of_props(t: Seq<char>, from: int, c: char)
    requires
        0 <= from,
    ensures
        idx_of(t, from, c) == -1 ==> forall|i: int| from <= i < t.len() ==> t[i] != c,
        idx_of(t, from, c) != -1 ==> from <= idx_of(t, from, c) < t.len() && t[idx_of(t, from, c)]
            == c && forall|i: int| from <= i < idx_of(t, from, c) ==> t[i] != c,
    decreases t.len() - from,
{
    if from < t.len() && t[from] != c {
        lemma_idx_of_props(t, from + 1, c);
    }
}

/// The milli text holds only digits and a dot, so the first comma after
/// a score sits right behind it.
proof fn lemma_milli_text_chars(sc: u64)
    ensures
        forall|i: int|
            0 <= i < spec_milli_text(sc).len() ==> (#[trigger] spec_milli_text(sc)[i]) != ','
                && spec_milli_text(sc)[i] != '"',
        spec_milli_text(sc).len() >= 5,
{
    lemma_dec_properties((sc as nat) / 1000);
    let t = spec_milli_text(sc);
    let dec = crate::numtext::spec_dec((sc as nat) / 1000);
    assert forall|i: int| 0 <= i < t.len() implies (#[trigger] t[i]) != ',' && t[i] != '"' by {
        if i < dec.len() {
            assert(t[i] == dec[i]);
            assert(is_digit(dec[i]));
            assert(48 <= t[i] as int <= 57);
            assert(',' as int == 44 && '"' as int == 34);
        } else {
            assert(t[i] == '.' || 48 <= t[i] as int <= 57);
            assert(',' as int == 44 && '"' as int == 34 && '.' as int == 46);
        }
    }
}

/// The round trip of the card list text.
proof fn lemma_cards_list_round_trip(cs: Seq<Seq<char>>)
    requires
        cs.len() >= 1,
        forall|i: int| 0 <= i < cs.len() ==> quote_free(#[trigger] cs[i]),
    ensures
        spec_parse_cards(spec_cards_list(cs)) == Some(cs),
    decreases cs.len(),
{
    reveal_strlit("\"");
    reveal_strlit(",");
    let t = spec_cards_list(cs);
    let x = cs[0];
    let qx = quote_text(x);
    assert(qx.len() == x.len() + 2);
    assert(qx[0] == '"' && qx[qx.len() - 1] == '"');
    assert(forall|i: int| 0 <= i < x.len() ==> qx[i + 1] == x[i]);
    if cs.len() == 1 {
        assert(t == qx);
        assert(t[0] == '"');
        lemma_idx_of_found(t, 1, x.len() as int + 1, '"');
        assert(t.subrange(1, x.len() as int + 1) =~= x);
        assert(spec_parse_cards(t) == Some(seq![x]));
        assert(seq![x] =~= cs);
    } else {
        let rest = spec_cards_list(cs.drop_first());
        assert(t == qx + ","@ + rest);
        assert(t[0] == '"');
        assert forall|i: int| 1 <= i < x.len() as int + 1 implies t[i] != '"' by {
            assert(t[i] == x[i - 1]);
        }
        assert(t[x.len() as int + 1] == '"');
        lemma_idx_of_found(t, 1, x.len() as int + 1, '"');
        let q = x.len() as int + 1;
        assert(t.subrange(1, q as int) =~= x);
        assert(t[q + 1] == ',');
        assert(t.subrange(q + 2, t.len() as int) =~= rest);
        lemma_cards_list_round_trip(cs.drop_first());
        assert(q + 1 < t.len());
        assert(spec_parse_cards(t) == Some(seq![x] + cs.drop_first()));
        assert(seq![x] + cs.drop_first() =~= cs);
    }
}

/// Persisted-record round trip: parsing a serialized record gives back
/// the same key, score and cards.
pub proof fn lemma_entry_round_trip(k: Seq<char>, sc: u64, cards: Option<Seq<Seq<char>>>)
    requires
        entry_safe(k, cards),
    ensures
        spec_parse_entry(spec_encode_entry(k, sc, cards)) == Some((k, sc, cards)),
{
    reveal_strlit("{\"key\":\"");
    reveal_strlit("\",\"score\":");
    reveal_strlit(",\"score\":");
    reveal_strlit(",\"cards\":");
    reveal_strlit("null");
    reveal_strlit("null}");
    reveal_strlit("[");
    reveal_strlit("]");
    reveal_strlit("}");
    reveal_strlit("\"");
    reveal_strlit(",");
    let t = spec_encode_entry(k, sc, cards);
    let p1 = "{\"key\":\""@;
    let mt = spec_milli_text(sc);
    let ct = spec_cards_text(cards);
    assert(p1.len() == 8);
    assert(t =~= p1 + k + "\",\"score\":"@ + mt + ",\"cards\":"@ + ct + "}"@);
    assert(t.take(8) =~= p1);
    // the key's closing quote
    let q = 8 + k.len() as int;
    assert(t[q] == '"');
    assert forall|i: int| 8 <= i < q implies t[i] != '"' by {
        assert(t[i] == k[i - 8]);
    }
    lemma_idx_of_found(t, 8, q, '"');
    assert(t.subrange(8, q) =~= k);
    assert(t.subrange(q + 1, q + 10) =~= ",\"score\":"@);
    // the score's closing comma
    lemma_milli_text_chars(sc);
    let comma = q + 10 + mt.len() as int;
    assert(t[comma] == ',');
    assert forall|i: int| q + 10 <= i < comma implies t[i] != ',' by {
        assert(t[i] == mt[i - (q + 10)]);
    }
    lemma_idx_of_found(t, q + 10, comma, ',');
    assert(t.subrange(q + 10, comma) =~= mt);
    lemma_milli_parse(sc);
    assert(t.subrange(comma, comma + 9) =~= ",\"cards\":"@);
    let rest = t.subrange(comma + 9, t.len() as int);
    match cards {
        None => {
            assert(ct == "null"@);
            assert(rest =~= "null}"@);
        },
        Some(cs) => {
            assert(ct == "["@ + spec_cards_list(cs) + "]"@);
            assert(rest =~= "["@ + spec_cards_list(cs) + "]"@ + "}"@);
            let inner = rest.subrange(1, rest.len() - 2);
            assert(inner =~= spec_cards_list(cs));
            assert(rest[0] == '[' && rest.last() == '}' && rest[rest.len() - 2] == ']');
            if cs.len() == 0 {
                assert(inner.len() == 0);
                assert(rest != "null}"@) by {
                    assert(rest[0] == '[' && "null}"@[0] == 'n');
                }
            } else {
                assert(inner.len() >= 2) by {
                    assert(quote_text(cs[0]).len() >= 2);
                    if cs.len() > 1 {
                        assert(spec_cards_list(cs).len() >= quote_text(cs[0]).len());
                    }
                }
                assert(rest != "null}"@) by {
                    assert(rest[0] == '[' && "null}"@[0] == 'n');
                }
                lemma_cards_list_round_trip(cs);
            }
        },
    }
}

// ---------------------------------------------------------------------
// The executable parser, a direct mirror of the parsing function.
// ---------------------------------------------------------------------
pub(crate) fn find_from(s: &str, from: usize, c: char) -> (r: Option<usize>)
    requires
        from <= s@.len(),
    ensures
        match r {
            Some(p) => p < s@.len() && idx_of(s@, from as int, c) == p,
            None => idx_of(s@, from as int, c) == -1,
        },
{
    let n = s.unicode_len();
    let mut i: usize = from;
    while i < n
        invariant
            from <= i <= n == s@.len(),
            idx_of(s@, from as int, c) == idx_of(s@, i as int, c),
        decreases n - i,
    {
        if s.get_char(i) == c {
            return Some(i);
        }
        i = i + 1;
    }
    None
}

fn expect_lit(s: &str, at: usize, lit: &str) -> (b: bool)
    requires
        at <= s@.len(),
    ensures
        b == (at + lit@.len() <= s@.len() && s@.subrange(
            at as int,
            at as int + lit@.len() as int,
        ) == lit@),
{
    let ln = lit.unicode_len();
    let n = s.unicode_len();
    if ln > n || at > n - ln {
        return false;
    }
    let mut i: usize = 0;
    while i < ln
        invariant
            0 <= i <= ln == lit@.len(),
            at + ln <= n == s@.len(),
            forall|j: int| 0 <= j < i ==> s@[at + j] == lit@[j],
        decreases ln - i,
    {
        if s.get_char(at + i) != lit.get_char(i) {
            proof {
                assert(s@.subrange(at as int, at as int + lit@.len() as int)[i as int] != lit@[
                i as int]);
            }
            return false;
        }
        i = i + 1;
    }
    proof {
        assert(s@.subrange(at as int, at as int + lit@.len() as int) =~= lit@);
    }
    true
}

fn parse_cards_x(s: &str, start: usize, end: usize) -> (r: Option<Vec<String>>)
    requires
        start <= end <= s@.len(),
    ensures
        match r {
            Some(v) => spec_parse_cards(s@.subrange(start as int, end as int)) == Some(
                v.deep_view(),
            ),
            None => spec_parse_cards(s@.subrange(start as int, end as int)) is None,
        },
    decreases end - start,
{
    let ghost t = s@.subrange(start as int, end as int);
    if end - start < 2 {
        return None;
    }
    if s.get_char(start) != '"' {
        proof {
            assert(t[0] == s@[start as int]);
        }
        return None;
    }
    proof {
        assert(t[0] == s@[start as int]);
    }
    let q = match find_from(s, start + 1, '"') {
        Some(p) => p,
        None => {
            proof {
                lemma_idx_sub(s@, start as int, end as int, 1, '"');
            }
            return None;
        },
    };
    proof {
        lemma_idx_of_props(s@, start as int + 1, '"');
        lemma_idx_sub(s@, start as int, end as int, 1, '"');
    }
    if q >= end {
        return None;
    }
    let item = s.substring_char(start + 1, q).to_owned();
    proof {
        assert(item@ =~= t.subrange(1, q - start));
    }
    if q + 1 == end {
        let mut v: Vec<String> = Vec::new();
        v.push(item);
        proof {
            assert(v.deep_view() =~= seq![t.subrange(1, q - start)]);
        }
        return Some(v);
    }
    if s.get_char(q + 1) != ',' {
        proof {
            assert(t[q - start + 1] == s@[q + 1]);
        }
        return None;
    }
    proof {
        assert(t[q - start + 1] == s@[q + 1]);
    }
    match parse_cards_x(s, q + 2, end) {
        Some(rest) => {
            let mut v: Vec<String> = Vec::new();
            v.push(item);
            let mut k: usize = 0;
            while k < rest.len()
                invariant
                    0 <= k <= rest@.len(),
                    v.deep_view() =~= seq![item@] + rest.deep_view().take(k as int),
                decreases rest@.len() - k,
            {
                let it = rest[k].clone();
                proof {
                    assert(it@ == rest@[k as int]@);
                }
                v.push(it);
                proof {
                    assert(rest.deep_view().take(k as int + 1) =~= rest.deep_view().take(
                        k as int,
                    ).push(rest.deep_view()[k as int]));
                    assert(v.deep_view() =~= (seq![item@] + rest.deep_view().take(k as int)).push(
                        rest.deep_view()[k as int],
                    ));
                }
                k = k + 1;
            }
            proof {
                assert(rest.deep_view().take(rest.deep_view().len() as int) =~= rest.deep_view());
                assert(t.subrange(q - start + 2, t.len() as int) =~= s@.subrange(
                    q + 2,
                    end as int,
                ));
                assert(v.deep_view() =~= seq![t.subrange(1, q - start)] + rest.deep_view());
            }
            Some(v)
        },
        None => {
            proof {
                assert(t.subrange(q - start + 2, t.len() as int) =~= s@.subrange(
                    q + 2,
                    end as int,
                ));
            }
            None
        },
    }
}

/// Searching inside a subrange agrees with searching the whole text, as
/// long as the stop lies inside the subrange.
pub(crate) proof fn lemma_idx_sub(s: Seq<char>, start: int, end: int, off: int, c: char)
    requires
        0 <= start <= start + off <= end <= s.len(),
    ensures
        ({
            let t = s.subrange(start, end);
            let w = idx_of(s, start + off, c);
            let i = idx_of(t, off, c);
            (i == -1 ==> (w == -1 || w >= end)) && (i >= 0 ==> w == i + start) && (w >= 0 && w < end
                ==> i == w - start) && (i >= 0 ==> i < t.len())
        }),
{
    let t = s.subrange(start, end);
    lemma_idx_of_props(t, off, c);
    lemma_idx_of_props(s, start + off, c);
    let w = idx_of(s, start + off, c);
    let i = idx_of(t, off, c);
    if i == -1 {
        if w != -1 && w < end {
            assert(t[w - start] == c);
        }
    } else {
        assert(t[i] == c);
        assert(s[i + start] == c);
        if w != i + start {
            if w == -1 {
                assert(s[i + start] != c);
            } else if w < i + start {
                assert(t[w - start] == c);
            } else {
                assert(s[i + start] != c);
            }
        }
    }
    if w >= 0 && w < end && i >= 0 && i != w - start {
        if i < w - start {
            assert(s[i + start] != c);
        } else {
            assert(t[w - start] == c);
        }
    }
}

/// Parses one line of the persisted log; a line that strays from the
/// canonical shape gives `None`, never a partial record.
pub fn parse_entry(s: &str) -> (r: Option<CacheEntry>)
    ensures
        match r {
            Some(e) => spec_parse_entry(s@) == Some((e.key@, e.score, cards_view(e.cards))),
            None => spec_parse_entry(s@) is None,
        },
{
    let n = s.unicode_len();
    if !expect_lit(s, 0, "{\"key\":\"") {
        proof {
            reveal_strlit("{\"key\":\"");
            if s@.len() >= 8 {
                assert(s@.subrange(0, 8) =~= s@.take(8));
            }
        }
        return None;
    }
    proof {
        reveal_strlit("{\"key\":\"");
        assert(s@.subrange(0, 8) =~= s@.take(8));
    }
    let q = match find_from(s, 8, '"') {
        Some(p) => p,
        None => {
            return None;
        },
    };
    proof {
        lemma_idx_of_props(s@, 8, '"');
    }
    let key = s.substring_char(8, q).to_owned();
    proof {
        assert(key@ =~= s@.subrange(8, q as int));
        reveal_strlit(",\"score\":");
    }
    if n < 10 || q > n - 10 || !expect_lit(s, q + 1, ",\"score\":") {
        return None;
    }
    proof {
        assert(q + 10 <= n);
    }
    let comma = match find_from(s, q + 10, ',') {
        Some(p) => p,
        None => {
            return None;
        },
    };
    proof {
        lemma_idx_of_props(s@, q as int + 10, ',');
    }
    let score = match parse_milli_range(s, q + 10, comma) {
        Some(v) => v,
        None => {
            return None;
        },
    };
    proof {
        reveal_strlit(",\"cards\":");
    }
    if !expect_lit(s, comma, ",\"cards\":") {
        return None;
    }
    proof {
        assert(comma + 9 <= n);
    }
    let ghost rest = s@.subrange(comma + 9, s@.len() as int);
    if expect_lit(s, comma + 9, "null}") && n - (comma + 9) == 5 {
        proof {
            reveal_strlit("null}");
            assert(rest =~= "null}"@);
        }
        return Some(CacheEntry { key, score, cards: None });
    }
    proof {
        reveal_strlit("null}");
        if rest == "null}"@ {
            assert(s@.subrange(comma + 9, comma + 9 + 5) =~= "null}"@);
            assert(false);
        }
    }
    if n - (comma + 9) < 3 {
        return None;
    }
    let c0 = s.get_char(comma + 9);
    let cl = s.get_char(n - 1);
    let cb = s.get_char(n - 2);
    proof {
        assert(rest[0] == s@[comma + 9]);
        assert(rest.last() == s@[s@.len() - 1]);
        assert(rest[rest.len() - 2] == s@[s@.len() - 2]);
    }
    if !(c0 == '[' && cl == '}' && cb == ']') {
        return None;
    }
    if comma + 9 + 1 == n - 2 {
        proof {
            assert(rest.subrange(1, rest.len() - 2).len() == 0);
        }
        return Some(CacheEntry { key, score, cards: Some(Vec::new()) });
    }
    match parse_cards_x(s, comma + 9 + 1, n - 2) {
        Some(v) => {
            proof {
                assert(s@.subrange(comma + 9 + 1, n - 2) =~= rest.subrange(1, rest.len() - 2));
            }
            Some(CacheEntry { key, score, cards: Some(v) })
        },
        None => {
            proof {
                assert(s@.subrange(comma + 9 + 1, n - 2) =~= rest.subrange(1, rest.len() - 2));
            }
            None
        },
    }
}

} // verus!
