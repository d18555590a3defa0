use vstd::prelude::*;
use vstd::string::StrSliceExecFns;
use vstd::string::StringExecFns;

verus! {

/// A playing card packed into one byte: the suit in the high nibble, the
/// rank in the low nibble, so ordering by the packed value is total.
#[derive(Clone, Copy, PartialEq, Eq, Structural, Debug)]
pub struct Card(pub u8);

pub open spec fn spec_rank(c: Card) -> u8 {
    (c.0 % 16) as u8
}

pub open spec fn spec_suit(c: Card) -> u8 {
    (c.0 / 16) as u8
}

pub open spec fn valid_card(c: Card) -> bool {
    2 <= spec_rank(c) <= 14 && spec_suit(c) <= 3
}

pub open spec fn mk_card(suit: u8, rank: u8) -> Card {
    Card((suit * 16 + rank) as u8)
}

pub open spec fn valid_hand(s: Seq<Card>) -> bool {
    forall|i: int| 0 <= i < s.len() ==> valid_card(#[trigger] s[i])
}

/// The canonical rank token: "2".."9", "10", "J", "Q", "K", "A".
pub open spec fn rank_text(r: u8) -> Seq<char> {
    if r == 2 {
        "2"@
    } else if r == 3 {
        "3"@
    } else if r == 4 {
        "4"@
    } else if r == 5 {
        "5"@
    } else if r == 6 {
        "6"@
    } else if r == 7 {
        "7"@
    } else if r == 8 {
        "8"@
    } else if r == 9 {
        "9"@
    } else if r == 10 {
        "10"@
    } else if r == 11 {
        "J"@
    } else if r == 12 {
        "Q"@
    } else if r == 13 {
        "K"@
    } else if r == 14 {
        "A"@
    } else {
        "?"@
    }
}

/// The canonical suit token: "s", "h", "d" or "c".
pub open spec fn suit_text(su: u8) -> Seq<char> {
    if su == 0 {
        "s"@
    } else if su == 1 {
        "h"@
    } else if su == 2 {
        "d"@
    } else if su == 3 {
        "c"@
    } else {
        "?"@
    }
}

/// The canonical text of a card: rank token followed by suit token.
pub open spec fn spec_card_text(c: Card) -> Seq<char> {
    rank_text(spec_rank(c)) + suit_text(spec_suit(c))
}

pub open spec fn spec_parse_rank(t: Seq<char>) -> Option<u8> {
    if t.len() == 1 {
        let c = t[0];
        if c == '2' {
            Some(2u8)
        } else if c == '3' {
            Some(3u8)
        } else if c == '4' {
            Some(4u8)
        } else if c == '5' {
            Some(5u8)
        } else if c == '6' {
            Some(6u8)
        } else if c == '7' {
            Some(7u8)
        } else if c == '8' {
            Some(8u8)
        } else if c == '9' {
            Some(9u8)
        } else if c == 'T' {
            Some(10u8)
        } else if c == 'J' {
            Some(11u8)
        } else if c == 'Q' {
            Some(12u8)
        } else if c == 'K' {
            Some(13u8)
        } else if c == 'A' {
            Some(14u8)
        } else {
            None
        }
    } else if t.len() == 2 && t[0] == '1' && t[1] == '0' {
        Some(10u8)
    } else {
        None
    }
}

pub open spec fn spec_parse_suit(c: char) -> Option<u8> {
    if c == 's' {
        Some(0u8)
    } else if c == 'h' {
        Some(1u8)
    } else if c == 'd' {
        Some(2u8)
    } else if c == 'c' {
        Some(3u8)
    } else {
        None
    }
}

/// Parsing a card's text: the last character names the suit and everything
/// before it the rank; malformed text parses to `None`.
pub open spec fn spec_parse_card(t: Seq<char>) -> Option<Card> {
    if t.len() < 2 {
        None
    } else {
        let ro = spec_parse_rank(t.take(t.len() - 1));
        let so = spec_parse_suit(t[t.len() - 1]);
        if ro is Some && so is Some {
            Some(mk_card(so->Some_0, ro->Some_0))
        } else {
            None
        }
    }
}

impl Card {
    /// Packs a rank (2 through 14) and a suit (0 through 3) into a card.
    pub fn new(rank: u8, suit_bits: u8) -> (c: Card)
        requires
            2 <= rank <= 14,
            suit_bits <= 3,
        ensures
            spec_rank(c) == rank,
            spec_suit(c) == suit_bits,
            c == mk_card(suit_bits, rank),
            valid_card(c),
    {
        Card(suit_bits * 16 + rank)
    }

    pub fn rank(&self) -> (r: u8)
        ensures
            r == spec_rank(*self),
    {
        self.0 % 16
    }

    pub fn suit_bits(&self) -> (s: u8)
        ensures
            s == spec_suit(*self),
    {
        self.0 / 16
    }

    /// Renders the canonical text form, total over valid cards.
    pub fn to_text(&self) -> (r: String)
        requires
            valid_card(*self),
        ensures
            r@ == spec_card_text(*self),
    {
        let rank = self.rank();
        let rank_str: &str = if rank == 2 {
            "2"
        } else if rank == 3 {
            "3"
        } else if rank == 4 {
            "4"
        } else if rank == 5 {
            "5"
        } else if rank == 6 {
            "6"
        } else if rank == 7 {
            "7"
        } else if rank == 8 {
            "8"
        } else if rank == 9 {
            "9"
        } else if rank == 10 {
            "10"
        } else if rank == 11 {
            "J"
        } else if rank == 12 {
            "Q"
        } else if rank == 13 {
            "K"
        } else {
            "A"
        };
        let suit_str: &str = if self.suit_bits() == 0 {
            "s"
        } else if self.suit_bits() == 1 {
            "h"
        } else if self.suit_bits() == 2 {
            "d"
        } else {
            "c"
        };
        let mut out = rank_str.to_owned();
        out.append(suit_str);
        out
    }

    /// Parses the canonical text form; malformed input yields `None`,
    /// never a partial success.
    pub fn from_text(s: &str) -> (r: Option<Card>)
        ensures
            r == spec_parse_card(s@),
    {
        let n = s.unicode_len();
        if n < 2 {
            return None;
        }
        let suit_char = s.get_char(n - 1);
        let suit: u8 = if suit_char == 's' {
            0
        } else if suit_char == 'h' {
            1
        } else if suit_char == 'd' {
            2
        } else if suit_char == 'c' {
            3
        } else {
            return None;
        };
        let rank: u8 = if n == 2 {
            let c = s.get_char(0);
            proof {
                assert(s@.take(s@.len() - 1) =~= seq![s@[0]]);
            }
            if c == '2' {
                2
            } else if c == '3' {
                3
            } else if c == '4' {
                4
            } else if c == '5' {
                5
            } else if c == '6' {
                6
            } else if c == '7' {
                7
            } else if c == '8' {
                8
            } else if c == '9' {
                9
            } else if c == 'T' {
                10
            } else if c == 'J' {
                11
            } else if c == 'Q' {
                12
            } else if c == 'K' {
                13
            } else if c == 'A' {
                14
            } else {
                return None;
            }
        } else if n == 3 {
            proof {
                assert(s@.take(s@.len() - 1) =~= seq![s@[0], s@[1]]);
            }
            if s.get_char(0) == '1' && s.get_char(1) == '0' {
                10
            } else {
                return None;
            }
        } else {
            proof {
                assert(s@.take(s@.len() - 1).len() > 2);
            }
            return None;
        };
        Some(Card::new(rank, suit))
    }
}

/// A successfully parsed card text always yields a valid card.
pub proof fn lemma_parse_card_valid(t: Seq<char>)
    requires
        spec_parse_card(t) is Some,
    ensures
        valid_card(spec_parse_card(t)->Some_0),
{
    let ro = spec_parse_rank(t.take(t.len() - 1));
    let so = spec_parse_suit(t[t.len() - 1]);
    let su = so->Some_0;
    let r = ro->Some_0;
    assert(2 <= r <= 14 && su <= 3);
    assert((su * 16 + r) % 16 == r && (su * 16 + r) / 16 == su) by (nonlinear_arith)
        requires
            2 <= r <= 14,
            0 <= su <= 3,
    ;
}

/// The card laid down at position `i` of the full deck: suit-major,
/// rank ascending within each suit.
pub open spec fn spec_deck_card(i: int) -> Card {
    mk_card((i / 13) as u8, (i % 13 + 2) as u8)
}

/// The 52-card deck in its fixed generation order; dealing clones from it.
pub fn full_deck() -> (r: Vec<Card>)
    ensures
        r@.len() == 52,
        forall|i: int| 0 <= i < 52 ==> #[trigger] r@[i] == spec_deck_card(i),
        valid_hand(r@),
        forall|i: int, j: int| 0 <= i < j < 52 ==> r@[i] != r@[j],
{
    let mut deck: Vec<Card> = Vec::new();
    let mut suit: u8 = 0;
    while suit < 4
        invariant
            suit <= 4,
            deck@.len() == suit * 13,
            forall|i: int| 0 <= i < deck@.len() ==> #[trigger] deck@[i] == spec_deck_card(i),
        decreases 4 - suit,
    {
        let mut rank: u8 = 2;
        while rank < 15
            invariant
                suit < 4,
                2 <= rank <= 15,
                deck@.len() == suit * 13 + rank - 2,
                forall|i: int| 0 <= i < deck@.len() ==> #[trigger] deck@[i] == spec_deck_card(i),
            decreases 15 - rank,
        {
            let c = Card::new(rank, suit);
            deck.push(c);
            proof {
                let idx = deck@.len() - 1;
                assert(idx / 13 == suit && idx % 13 + 2 == rank) by (nonlinear_arith)
                    requires
                        idx == suit * 13 + rank - 2,
                        suit < 4,
                        2 <= rank < 15,
                ;
            }
            rank = rank + 1;
        }
        suit = suit + 1;
    }
    proof {
        assert forall|i: int| 0 <= i < 52 implies valid_card(#[trigger] deck@[i]) by {
            assert(0 <= i / 13 <= 3 && 2 <= i % 13 + 2 <= 14);
        }
        assert forall|i: int, j: int| 0 <= i < j < 52 implies deck@[i] != deck@[j] by {
            lemma_deck_card_injective(i, j);
        }
    }
    deck
}

proof fn lemma_deck_card_injective(i: int, j: int)
    requires
        0 <= i < 52,
        0 <= j < 52,
        i != j,
    ensures
        spec_deck_card(i) != spec_deck_card(j),
{
    let ci = spec_deck_card(i);
    let cj = spec_deck_card(j);
    assert(0 <= i / 13 <= 3 && 0 <= i % 13 < 13);
    assert(0 <= j / 13 <= 3 && 0 <= j % 13 < 13);
    if ci == cj {
        assert(spec_suit(ci) == i / 13 && spec_rank(ci) == i % 13 + 2);
        assert(spec_suit(cj) == j / 13 && spec_rank(cj) == j % 13 + 2);
        assert(i == (i / 13) * 13 + i % 13 && j == (j / 13) * 13 + j % 13);
    }
}

/// The canonical card texts round-trip: parsing a valid card's text gives
/// the card back.
pub proof fn lemma_card_text_parse(c: Card)
    requires
        valid_card(c),
    ensures
        spec_parse_card(spec_card_text(c)) == Some(c),
{
    reveal_all_card_literals();
    let t = spec_card_text(c);
    let r = spec_rank(c);
    let su = spec_suit(c);
    if r == 10 {
        assert(t.len() == 3);
        assert(t.take(t.len() - 1) =~= rank_text(r));
    } else {
        assert(rank_text(r).len() == 1);
        assert(t.len() == 2);
        assert(t.take(t.len() - 1) =~= rank_text(r));
    }
    assert(t[t.len() - 1] == suit_text(su)[0]);
    assert(spec_parse_rank(rank_text(r)) == Some(r));
    assert(spec_parse_suit(suit_text(su)[0]) == Some(su));
    assert(mk_card(su, r) == c);
}

/// No character of a canonical card text is a quote, backslash, separator
/// bar, colon, comma or bracket, so the text embeds safely in keys and in
/// the persisted record format.
pub open spec fn text_safe(t: Seq<char>) -> bool {
    forall|i: int|
        0 <= i < t.len() ==> {
            let c = #[trigger] t[i];
            c != '"' && c != '\\' && c != '|' && c != ':' && c != ',' && c != '[' && c != ']'
                && c != '{' && c != '}'
        }
}

/// Free of double quotes: embeds safely inside a quoted record field.
pub open spec fn quote_free(t: Seq<char>) -> bool {
    forall|i: int| 0 <= i < t.len() ==> (#[trigger] t[i]) != '"'
}

pub proof fn lemma_text_safe_quote_free(t: Seq<char>)
    requires
        text_safe(t),
    ensures
        quote_free(t),
{
}

pub proof fn lemma_card_text_safe(c: Card)
    requires
        valid_card(c),
    ensures
        text_safe(spec_card_text(c)),
        1 <= spec_card_text(c).len() <= 3,
{
    reveal_all_card_literals();
}

proof fn reveal_all_card_literals()
    ensures
        "2"@ =~= seq!['2'],
        "3"@ =~= seq!['3'],
        "4"@ =~= seq!['4'],
        "5"@ =~= seq!['5'],
        "6"@ =~= seq!['6'],
        "7"@ =~= seq!['7'],
        "8"@ =~= seq!['8'],
        "9"@ =~= seq!['9'],
        "10"@ =~= seq!['1', '0'],
        "J"@ =~= seq!['J'],
        "Q"@ =~= seq!['Q'],
        "K"@ =~= seq!['K'],
        "A"@ =~= seq!['A'],
        "s"@ =~= seq!['s'],
        "h"@ =~= seq!['h'],
        "d"@ =~= seq!['d'],
        "c"@ =~= seq!['c'],
        "?"@ =~= seq!['?'],
{
    reveal_strlit("2");
    reveal_strlit("3");
    reveal_strlit("4");
    reveal_strlit("5");
    reveal_strlit("6");
    reveal_strlit("7");
    reveal_strlit("8");
    reveal_strlit("9");
    reveal_strlit("10");
    reveal_strlit("J");
    reveal_strlit("Q");
    reveal_strlit("K");
    reveal_strlit("A");
    reveal_strlit("s");
    reveal_strlit("h");
    reveal_strlit("d");
    reveal_strlit("c");
    reveal_strlit("?");
}

} // verus!
