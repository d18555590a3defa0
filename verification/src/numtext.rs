use vstd::prelude::*;
use vstd::string::StrSliceExecFns;
use vstd::string::StringExecFns;

verus! {

pub open spec fn is_digit(c: char) -> bool {
    48 <= c as int <= 57
}

pub open spec fn digit_val(c: char) -> nat {
    (c as int - 48) as nat
}

pub open spec fn digit_char(d: nat) -> char {
    if d == 0 {
        '0'
    } else if d == 1 {
        '1'
    } else if d == 2 {
        '2'
    } else if d == 3 {
        '3'
    } else if d == 4 {
        '4'
    } else if d == 5 {
        '5'
    } else if d == 6 {
        '6'
    } else if d == 7 {
        '7'
    } else if d == 8 {
        '8'
    } else {
        '9'
    }
}

/// The decimal text of a number, most significant digit first.
pub open spec fn spec_dec(n: nat) -> Seq<char>
    decreases n,
{
    if n < 10 {
        seq![digit_char(n)]
    } else {
        spec_dec(n / 10).push(digit_char(n % 10))
    }
}

pub open spec fn all_digits(t: Seq<char>) -> bool {
    forall|i: int| 0 <= i < t.len() ==> is_digit(#[trigger] t[i])
}

/// The value of a digit string, read left to right.
pub open spec fn digits_val(t: Seq<char>) -> nat
    decreases t.len(),
{
    if t.len() == 0 {
        0
    } else {
        digits_val(t.drop_last()) * 10 + digit_val(t.last())
    }
}

/// Parsing decimal text: at least one digit, nothing else, and the value
/// must fit in a `u64`.
pub open spec fn spec_parse_u64(t: Seq<char>) -> Option<u64> {
    if t.len() >= 1 && all_digits(t) && digits_val(t) <= u64::MAX {
        Some(digits_val(t) as u64)
    } else {
        None
    }
}

proof fn lemma_digit_char_val(d: nat)
    requires
        d < 10,
    ensures
        is_digit(digit_char(d)),
        digit_val(digit_char(d)) == d,
{
}

pub proof fn lemma_dec_properties(n: nat)
    ensures
        spec_dec(n).len() >= 1,
        all_digits(spec_dec(n)),
        digits_val(spec_dec(n)) == n,
    decreases n,
{
    if n < 10 {
        lemma_digit_char_val(n);
        assert(spec_dec(n).drop_last() =~= Seq::<char>::empty());
        assert(digits_val(spec_dec(n)) == digits_val(Seq::<char>::empty()) * 10 + digit_val(
            digit_char(n),
        ));
    } else {
        lemma_dec_properties(n / 10);
        lemma_digit_char_val(n % 10);
        let t = spec_dec(n);
        assert(t.drop_last() =~= spec_dec(n / 10));
        assert(t.last() == digit_char(n % 10));
        assert(digits_val(t) == digits_val(t.drop_last()) * 10 + digit_val(t.last()));
        assert(digits_val(t) == (n / 10) * 10 + n % 10);
        assert forall|i: int| 0 <= i < t.len() implies is_digit(#[trigger] t[i]) by {
            if i < t.len() - 1 {
                assert(t[i] == spec_dec(n / 10)[i]);
            } else {
                assert(t[i] == digit_char(n % 10));
            }
        }
    }
}

fn digit_str(d: u64) -> (r: &'static str)
    requires
        d < 10,
    ensures
        r@ =~= seq![digit_char(d as nat)],
{
    proof {
        reveal_strlit("0");
        reveal_strlit("1");
        reveal_strlit("2");
        reveal_strlit("3");
        reveal_strlit("4");
        reveal_strlit("5");
        reveal_strlit("6");
        reveal_strlit("7");
        reveal_strlit("8");
        reveal_strlit("9");
    }
    if d == 0 {
        "0"
    } else if d == 1 {
        "1"
    } else if d == 2 {
        "2"
    } else if d == 3 {
        "3"
    } else if d == 4 {
        "4"
    } else if d == 5 {
        "5"
    } else if d == 6 {
        "6"
    } else if d == 7 {
        "7"
    } else if d == 8 {
        "8"
    } else {
        "9"
    }
}

/// Renders a number in decimal.
pub fn u64_to_dec(n: u64) -> (r: String)
    ensures
        r@ == spec_dec(n as nat),
    decreases n,
{
    if n < 10 {
        digit_str(n).to_owned()
    } else {
        let mut s = u64_to_dec(n / 10);
        s.append(digit_str(n % 10));
        proof {
            assert(s@ =~= spec_dec(n as nat));
        }
        s
    }
}

/// Parses the characters `start..end` of `s` as a decimal `u64`.
pub fn parse_u64_range(s: &str, start: usize, end: usize) -> (r: Option<u64>)
    requires
        start <= end <= s@.len(),
    ensures
        r == spec_parse_u64(s@.subrange(start as int, end as int)),
{
    let ghost t = s@.subrange(start as int, end as int);
    if end == start {
        return None;
    }
    let mut acc: u64 = 0;
    let mut i: usize = start;
    while i < end
        invariant
            start <= i <= end <= s@.len(),
            end > start,
            t == s@.subrange(start as int, end as int),
            all_digits(t.take(i - start)),
            acc == digits_val(t.take(i - start)),
        decreases end - i,
    {
        let c = s.get_char(i);
        let cv = c as u32;
        proof {
            assert(t[i - start] == s@[i as int]);
        }
        if cv < 48 || cv > 57 {
            proof {
                assert(!is_digit(t[i - start]));
            }
            return None;
        }
        let d: u64 = ((cv - 48) as u64);
        proof {
            assert(t.take(i - start + 1).drop_last() =~= t.take(i - start));
            assert(t.take(i - start + 1).last() == t[i - start]);
            assert(is_digit(t[i - start]) && digit_val(t[i - start]) == d);
        }
        if acc > (u64::MAX - d) / 10 {
            proof {
                assert(digits_val(t.take(i - start + 1)) > u64::MAX);
                lemma_digits_val_grows(t, i - start + 1);
            }
            return None;
        }
        acc = acc * 10 + d;
        i = i + 1;
    }
    proof {
        assert(t.take(end - start) =~= t);
    }
    Some(acc)
}

/// A digit string's value only grows as more digits follow.
proof fn lemma_digits_val_grows(t: Seq<char>, i: int)
    requires
        0 <= i <= t.len(),
    ensures
        digits_val(t) >= digits_val(t.take(i)),
    decreases t.len() - i,
{
    if i < t.len() {
        lemma_digits_val_grows(t, i + 1);
        assert(t.take(i + 1).drop_last() =~= t.take(i));
        assert(digits_val(t.take(i + 1)) == digits_val(t.take(i)) * 10 + digit_val(
            t.take(i + 1).last(),
        ));
    } else {
        assert(t.take(i) =~= t);
    }
}

/// The text of a fixed-point score held in thousandths: the integer part,
/// a dot, then exactly three fraction digits.
pub open spec fn spec_milli_text(m: u64) -> Seq<char> {
    spec_dec((m as nat) / 1000) + seq![
        '.',
        digit_char(((m as nat) % 1000) / 100),
        digit_char(((m as nat) % 100) / 10),
        digit_char((m as nat) % 10),
    ]
}

/// Parsing fixed-point text: digits, a dot, exactly three fraction digits.
pub open spec fn spec_parse_milli(t: Seq<char>) -> Option<u64> {
    if t.len() >= 5 && t[t.len() - 4] == '.' {
        let ip = spec_parse_u64(t.take(t.len() - 4));
        let d1 = t[t.len() - 3];
        let d2 = t[t.len() - 2];
        let d3 = t[t.len() - 1];
        if ip is Some && is_digit(d1) && is_digit(d2) && is_digit(d3) && (ip->Some_0 as nat) * 1000
            + digit_val(d1) * 100 + digit_val(d2) * 10 + digit_val(d3) <= u64::MAX {
            Some(
                ((ip->Some_0 as nat) * 1000 + digit_val(d1) * 100 + digit_val(d2) * 10 + digit_val(
                    d3,
                )) as u64,
            )
        } else {
            None
        }
    } else {
        None
    }
}

/// Renders a fixed-point score held in thousandths.
pub fn milli_to_text(m: u64) -> (r: String)
    ensures
        r@ == spec_milli_text(m),
{
    let mut s = u64_to_dec(m / 1000);
    proof {
        reveal_strlit(".");
    }
    s.append(".");
    s.append(digit_str((m % 1000) / 100));
    s.append(digit_str((m % 100) / 10));
    s.append(digit_str(m % 10));
    proof {
        assert(s@ =~= spec_milli_text(m));
    }
    s
}

/// Parses the characters `start..end` of `s` as a fixed-point score.
pub fn parse_milli_range(s: &str, start: usize, end: usize) -> (r: Option<u64>)
    requires
        start <= end <= s@.len(),
    ensures
        r == spec_parse_milli(s@.subrange(start as int, end as int)),
{
    let ghost t = s@.subrange(start as int, end as int);
    if end - start < 5 {
        return None;
    }
    let dot = s.get_char(end - 4);
    proof {
        assert(t[t.len() - 4] == s@[end - 4]);
        assert(t[t.len() - 3] == s@[end - 3]);
        assert(t[t.len() - 2] == s@[end - 2]);
        assert(t[t.len() - 1] == s@[end - 1]);
    }
    if dot != '.' {
        return None;
    }
    let ip = match parse_u64_range(s, start, end - 4) {
        Some(v) => v,
        None => {
            proof {
                assert(s@.subrange(start as int, end - 4) =~= t.take(t.len() - 4));
            }
            return None;
        },
    };
    proof {
        assert(s@.subrange(start as int, end - 4) =~= t.take(t.len() - 4));
    }
    let c1 = s.get_char(end - 3);
    let c2 = s.get_char(end - 2);
    let c3 = s.get_char(end - 1);
    let v1 = c1 as u32;
    let v2 = c2 as u32;
    let v3 = c3 as u32;
    if v1 < 48 || v1 > 57 || v2 < 48 || v2 > 57 || v3 < 48 || v3 > 57 {
        return None;
    }
    let frac: u64 = ((v1 - 48) as u64) * 100 + ((v2 - 48) as u64) * 10 + ((v3 - 48) as u64);
    if ip > (u64::MAX - frac) / 1000 {
        return None;
    }
    Some(ip * 1000 + frac)
}

/// The fixed-point texts round-trip.
pub proof fn lemma_milli_parse(m: u64)
    ensures
        spec_parse_milli(spec_milli_text(m)) == Some(m),
{
    let t = spec_milli_text(m);
    lemma_dec_properties((m as nat) / 1000);
    assert(t.take(t.len() - 4) =~= spec_dec((m as nat) / 1000));
    lemma_digit_char_val(((m as nat) % 1000) / 100);
    lemma_digit_char_val(((m as nat) % 100) / 10);
    lemma_digit_char_val((m as nat) % 10);
    assert(((m as nat) % 1000) / 100 * 100 + ((m as nat) % 100) / 10 * 10 + (m as nat) % 10 == (
    m as nat) % 1000) by (nonlinear_arith);
    assert(((m as nat) / 1000) * 1000 + (m as nat) % 1000 == m as nat) by (nonlinear_arith);
}

} // verus!
