//! The worker service's choice of how long a unit of work takes.

use vstd::prelude::*;

verus! {

pub open spec fn is_ascii_digit(c: char) -> bool {
    '0' <= c <= '9'
}

/// The number written by a string of decimal digits.
pub open spec fn decimal_value(digits: Seq<char>) -> int
    decreases digits.len(),
{
    if digits.len() == 0 {
        0
    } else {
        10 * decimal_value(digits.drop_last()) + (digits.last() as int - '0' as int)
    }
}

pub open spec fn all_ascii_digits(s: Seq<char>) -> bool {
    forall|i: int| 0 <= i < s.len() ==> is_ascii_digit(#[trigger] s[i])
}

/// The text after an optional leading `+`.
pub open spec fn digit_part(s: Seq<char>) -> Seq<char> {
    if s.len() > 0 && s[0] == '+' {
        s.drop_first()
    } else {
        s
    }
}

/// What `str::parse::<u64>` accepts, as its documentation describes it: an
/// optional `+` followed by one or more ASCII digits, whose value fits.
pub open spec fn parsed_u64(s: Seq<char>) -> Option<u64> {
    let digits: Seq<char> = digit_part(s);
    if digits.len() > 0 && all_ascii_digits(digits) && decimal_value(digits) <= u64::MAX {
        Some(decimal_value(digits) as u64)
    } else {
        None
    }
}

/// The characters of `s`, in order.
fn chars_of(s: &str) -> (v: Vec<char>)
    ensures
        v@ == s@,
{
    broadcast use vstd::string::axiom_spec_iter;

    let mut v: Vec<char> = Vec::new();
    for ch in it: s.chars()
        invariant
            it.seq() == s@,
            v@ == it.seq().take(it.index() as int),
    {
        v.push(ch);
        assert(v@ == it.seq().take(it.index() + 1));
    }
    assert(v@ == s@.take(s@.len() as int));
    v
}

/// More digits never make a smaller number.
proof fn lemma_decimal_prefix(digits: Seq<char>, i: int)
    requires
        all_ascii_digits(digits),
        0 <= i <= digits.len(),
    ensures
        decimal_value(digits.take(i)) <= decimal_value(digits),
        0 <= decimal_value(digits.take(i)),
    decreases digits.len(),
{
    if digits.len() > 0 {
        assert(all_ascii_digits(digits.drop_last()));
        if i == digits.len() {
            assert(digits.take(i) == digits);
            lemma_decimal_prefix(digits.drop_last(), 0);
        } else {
            assert(digits.drop_last().take(i) == digits.take(i));
            lemma_decimal_prefix(digits.drop_last(), i);
        }
    }
}

/// Reads a decimal `u64` the way `str::parse::<u64>` does.
fn parse_u64(s: &str) -> (r: Option<u64>)
    ensures
        r == parsed_u64(s@),
{
    let chars: Vec<char> = chars_of(s);
    let start: usize = if chars.len() > 0 && chars[0] == '+' {
        1
    } else {
        0
    };
    let ghost digits: Seq<char> = chars@.subrange(start as int, chars@.len() as int);
    assert(digits == digit_part(s@));
    if start == chars.len() {
        return None;
    }
    let mut i: usize = start;
    while i < chars.len()
        invariant
            start <= i <= chars@.len(),
            digits == chars@.subrange(start as int, chars@.len() as int),
            digits == digit_part(s@),
            forall|j: int| 0 <= j < i - start ==> is_ascii_digit(#[trigger] digits[j]),
        decreases chars@.len() - i,
    {
        let ch: char = chars[i];
        if !('0' <= ch && ch <= '9') {
            assert(!is_ascii_digit(digits[i - start]));
            return None;
        }
        i = i + 1;
    }
    assert(all_ascii_digits(digits));
    let mut value: u64 = 0;
    let mut i: usize = start;
    assert(digits.take(0) =~= Seq::<char>::empty());
    while i < chars.len()
        invariant
            start <= i <= chars@.len(),
            digits == chars@.subrange(start as int, chars@.len() as int),
            digits == digit_part(s@),
            all_ascii_digits(digits),
            value == decimal_value(digits.take(i - start)),
        decreases chars@.len() - i,
    {
        let ghost k: int = i - start;
        assert(digits.take(k + 1).drop_last() == digits.take(k));
        assert(is_ascii_digit(digits[k]));
        let d: u64 = (chars[i] as u32 - '0' as u32) as u64;
        assert(d == digits[k] as int - '0' as int);
        match value.checked_mul(10) {
            Some(tens) => match tens.checked_add(d) {
                Some(next) => {
                    value = next;
                },
                None => {
                    proof {
                        lemma_decimal_prefix(digits, k + 1);
                    }
                    return None;
                },
            },
            None => {
                proof {
                    lemma_decimal_prefix(digits, k + 1);
                }
                return None;
            },
        }
        i = i + 1;
    }
    assert(digits.take(digits.len() as int) == digits);
    Some(value)
}

/// The configured duration text, `"10"` when none is configured.
pub open spec fn configured_text(configured: Option<&str>) -> Seq<char> {
    match configured {
        Some(s) => s@,
        None => "10"@,
    }
}

/// The work duration that the configuration sets, if its text is a number.
pub fn configured_work_duration(configured: Option<&str>) -> (ms: Option<u64>)
    ensures
        ms == parsed_u64(configured_text(configured)),
{
    let text: &str = match configured {
        Some(s) => s,
        None => "10",
    };
    parse_u64(text)
}

/// How long a unit of work takes, in milliseconds: the requested duration,
/// else the configured one, else 10.
pub fn work_duration(duration_millis: Option<u64>, configured: Option<&str>) -> (ms: u64)
    requires
        duration_millis is Some || parsed_u64(configured_text(configured)) is Some,
    ensures
        ms == match duration_millis {
            Some(d) => d,
            None => parsed_u64(configured_text(configured))->0,
        },
{
    match duration_millis {
        Some(d) => d,
        None => configured_work_duration(configured).unwrap(),
    }
}

} // verus!
