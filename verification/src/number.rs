//! Raw brightness values as decimal text: how a value is read from the
//! contents of a device file and how it is written back.

use vstd::prelude::*;
use crate::text::{chars_of, glue, piece};

verus! {

/// A raw brightness value in the device's own unit.
pub type Brightness = u16;

/// Why a text is no brightness value.
#[derive(Debug, Clone, Copy, PartialEq, Eq, Structural)]
pub enum ParseError {
    /// There is nothing to read.
    Empty,
    /// A character is not a decimal digit.
    InvalidDigit,
    /// The number does not fit the brightness type.
    Overflow,
}

/// White space as Unicode defines it.
pub open spec fn is_whitespace(c: char) -> bool {
    ||| '\u{9}' <= c <= '\u{d}'
    ||| c == ' '
    ||| c == '\u{85}'
    ||| c == '\u{a0}'
    ||| c == '\u{1680}'
    ||| '\u{2000}' <= c <= '\u{200a}'
    ||| c == '\u{2028}'
    ||| c == '\u{2029}'
    ||| c == '\u{202f}'
    ||| c == '\u{205f}'
    ||| c == '\u{3000}'
}

/// The first position at or after `i` that holds no white space.
pub open spec fn skip_space(s: Seq<char>, i: int) -> int
    decreases s.len() - i,
{
    if 0 <= i < s.len() && is_whitespace(s[i]) {
        skip_space(s, i + 1)
    } else {
        i
    }
}

/// The end of the text between `start` and `end` once the white space at
/// its end is dropped.
pub open spec fn drop_space(s: Seq<char>, start: int, end: int) -> int
    decreases end,
{
    if start < end && 0 < end <= s.len() && is_whitespace(s[end - 1]) {
        drop_space(s, start, end - 1)
    } else {
        end
    }
}

/// The text without the white space at its two ends.
pub open spec fn trimmed(s: Seq<char>) -> Seq<char> {
    let start = skip_space(s, 0);
    s.subrange(start, drop_space(s, start, s.len() as int))
}

/// A decimal digit.
pub open spec fn is_digit(c: char) -> bool {
    '0' <= c <= '9'
}

/// The value of a decimal digit.
pub open spec fn digit_value(c: char) -> nat {
    (c as u32 - '0' as u32) as nat
}

/// The number that a sequence of decimal digits denotes.
pub open spec fn decimal_value(s: Seq<char>) -> nat
    decreases s.len(),
{
    if s.len() == 0 {
        0
    } else {
        decimal_value(s.drop_last()) * 10 + digit_value(s.last())
    }
}

/// The end of the run of digits that begins at `i`.
pub open spec fn digits_end(s: Seq<char>, i: int) -> int
    decreases s.len() - i,
{
    if 0 <= i < s.len() && is_digit(s[i]) {
        digits_end(s, i + 1)
    } else {
        i
    }
}

/// The brightness that a text denotes: decimal digits, with `+` allowed in
/// front of them. Reading from the left, a number that grows too large is
/// reported before a character beyond it that is no digit.
pub open spec fn parse_brightness_text(s: Seq<char>) -> Result<Brightness, ParseError> {
    if s.len() == 0 {
        Err(ParseError::Empty)
    } else {
        let from: int = if s[0] == '+' {
            1
        } else {
            0
        };
        let to = digits_end(s, from);
        let value = decimal_value(s.subrange(from, to));
        if from == s.len() {
            Err(ParseError::InvalidDigit)
        } else if value > Brightness::MAX {
            Err(ParseError::Overflow)
        } else if to < s.len() {
            Err(ParseError::InvalidDigit)
        } else {
            Ok(value as Brightness)
        }
    }
}

/// The brightness that the contents of a device file denote: the text is
/// read without the white space around it.
pub open spec fn spec_read_brightness(contents: Seq<char>) -> Result<Brightness, ParseError> {
    parse_brightness_text(trimmed(contents))
}

/// The character for a digit's value.
pub open spec fn digit_char(d: nat) -> char {
    if d == 0 {
        '0'
    } else if d == 1 {
        '1'
    } else if d == 2 {
        '2'
    } else if d == 3 {
        '3'
    } else if d == 4 {
        '4'
    } else if d == 5 {
        '5'
    } else if d == 6 {
        '6'
    } else if d == 7 {
        '7'
    } else if d == 8 {
        '8'
    } else {
        '9'
    }
}

/// The decimal digits of a number, without leading zeros.
pub open spec fn decimal(n: nat) -> Seq<char>
    decreases n,
{
    if n < 10 {
        seq![digit_char(n)]
    } else {
        decimal(n / 10).push(digit_char(n % 10))
    }
}

pub fn is_whitespace_char(c: char) -> (r: bool)
    ensures
        r == is_whitespace(c),
{
    ('\u{9}' <= c && c <= '\u{d}') || c == ' ' || c == '\u{85}' || c == '\u{a0}' || c == '\u{1680}'
        || ('\u{2000}' <= c && c <= '\u{200a}') || c == '\u{2028}' || c == '\u{2029}' || c
        == '\u{202f}' || c == '\u{205f}' || c == '\u{3000}'
}

/// A longer run of digits denotes no smaller a number.
pub proof fn lemma_decimal_value_grows(s: Seq<char>, k: int)
    requires
        0 <= k <= s.len(),
    ensures
        decimal_value(s.take(k)) <= decimal_value(s),
    decreases s.len(),
{
    if k < s.len() {
        lemma_decimal_value_grows(s.drop_last(), k);
        assert(s.drop_last().take(k) =~= s.take(k));
    } else {
        assert(s.take(k) =~= s);
    }
}

/// The run of digits from `i` ends at the first character that is none.
pub proof fn lemma_digits_end(s: Seq<char>, i: int)
    requires
        0 <= i <= s.len(),
    ensures
        i <= digits_end(s, i) <= s.len(),
        forall|j: int| i <= j < digits_end(s, i) ==> is_digit(#[trigger] s[j]),
        digits_end(s, i) < s.len() ==> !is_digit(s[digits_end(s, i)]),
    decreases s.len() - i,
{
    if i < s.len() && is_digit(s[i]) {
        lemma_digits_end(s, i + 1);
    }
}

/// The brightness that the characters from `start` up to `end` denote.
fn parse_brightness_chars(s: &Vec<char>, start: usize, end: usize) -> (r: Result<
    Brightness,
    ParseError,
>)
    requires
        start <= end <= s.len(),
    ensures
        r == parse_brightness_text(s@.subrange(start as int, end as int)),
{
    let ghost t = s@.subrange(start as int, end as int);
    if start == end {
        return Err(ParseError::Empty);
    }
    let from: usize = if s[start] == '+' {
        start + 1
    } else {
        start
    };
    if from == end {
        return Err(ParseError::InvalidDigit);
    }
    let ghost f = from - start;
    let ghost to = digits_end(t, f);
    proof {
        lemma_digits_end(t, f);
    }
    let mut i: usize = from;
    let mut value: u32 = 0;
    while i < end
        invariant
            start <= from <= i <= end <= s.len(),
            t == s@.subrange(start as int, end as int),
            f == from - start,
            t.len() > 0,
            f == (if t[0] == '+' {
                1int
            } else {
                0int
            }),
            f < t.len(),
            to == digits_end(t, f),
            f <= to <= t.len(),
            forall|j: int| f <= j < to ==> is_digit(#[trigger] t[j]),
            to < t.len() ==> !is_digit(t[to]),
            i - start <= to,
            value == decimal_value(t.subrange(f, i - start)),
            value <= Brightness::MAX,
        decreases end - i,
    {
        let c = s[i];
        assert(c == t[i - start]);
        if !('0' <= c && c <= '9') {
            assert(i - start == to);
            return Err(ParseError::InvalidDigit);
        }
        assert(i - start < to);
        let d: u32 = c as u32 - '0' as u32;
        let next: u32 = value * 10 + d;
        proof {
            let longer = t.subrange(f, i - start + 1);
            assert(longer.drop_last() =~= t.subrange(f, i - start));
            assert(longer.last() == c);
            assert(next == decimal_value(longer));
            let run = t.subrange(f, to);
            lemma_decimal_value_grows(run, i - start + 1 - f);
            assert(run.take(i - start + 1 - f) =~= longer);
        }
        if next > 65535 {
            return Err(ParseError::Overflow);
        }
        value = next;
        i = i + 1;
    }
    assert(i - start == to);
    Ok(value as Brightness)
}

/// The brightness that the contents of a device file denote.
pub fn read_brightness(contents: &str) -> (r: Result<Brightness, ParseError>)
    ensures
        r == spec_read_brightness(contents@),
{
    let s = chars_of(contents);
    let mut start: usize = 0;
    while start < s.len() && is_whitespace_char(s[start])
        invariant
            start <= s.len(),
            skip_space(s@, start as int) == skip_space(s@, 0),
        decreases s.len() - start,
    {
        start = start + 1;
    }
    let mut end: usize = s.len();
    while end > start && is_whitespace_char(s[end - 1])
        invariant
            start <= end <= s.len(),
            drop_space(s@, start as int, end as int) == drop_space(
                s@,
                start as int,
                s.len() as int,
            ),
        decreases end,
    {
        end = end - 1;
    }
    parse_brightness_chars(&s, start, end)
}

fn digit_text(d: u32) -> (r: String)
    requires
        d < 10,
    ensures
        r@ == seq![digit_char(d as nat)],
{
    proof {
        reveal_strlit("0123456789");
    }
    let r = piece("0123456789", d as usize, d as usize + 1);
    assert(r@ =~= seq![digit_char(d as nat)]);
    r
}

/// The decimal digits of `n`.
pub fn decimal_text(n: u32) -> (r: String)
    ensures
        r@ == decimal(n as nat),
    decreases n,
{
    if n < 10 {
        digit_text(n)
    } else {
        let head = decimal_text(n / 10);
        let last = digit_text(n % 10);
        proof {
            assert(head@ + last@ =~= head@.push(digit_char((n % 10) as nat)));
        }
        glue(head.as_str(), last.as_str())
    }
}

/// The decimal digits of a number are digits, and they denote the number.
pub proof fn lemma_decimal_denotes(n: nat)
    ensures
        decimal(n).len() > 0,
        forall|i: int| 0 <= i < decimal(n).len() ==> is_digit(#[trigger] decimal(n)[i]),
        decimal_value(decimal(n)) == n,
    decreases n,
{
    if n < 10 {
        assert(decimal(n).drop_last() =~= Seq::<char>::empty());
        assert(decimal_value(decimal(n).drop_last()) == 0);
    } else {
        lemma_decimal_denotes(n / 10);
        let head = decimal(n / 10);
        assert(decimal(n).drop_last() =~= head);
        assert(digit_value(digit_char(n % 10)) == n % 10);
    }
}

proof fn lemma_digits_run(s: Seq<char>, i: int)
    requires
        0 <= i <= s.len(),
        forall|j: int| 0 <= j < s.len() ==> is_digit(#[trigger] s[j]),
    ensures
        digits_end(s, i) == s.len(),
    decreases s.len() - i,
{
    if i < s.len() {
        lemma_digits_run(s, i + 1);
    }
}

/// A brightness written in decimal reads back as itself.
pub proof fn lemma_decimal_round_trip(n: Brightness)
    ensures
        spec_read_brightness(decimal(n as nat)) == Ok::<Brightness, ParseError>(n),
{
    let s = decimal(n as nat);
    lemma_decimal_denotes(n as nat);
    assert(is_digit(s[0]));
    assert(is_digit(s[s.len() - 1]));
    assert(skip_space(s, 0) == 0);
    assert(drop_space(s, 0, s.len() as int) == s.len());
    assert(trimmed(s) =~= s);
    lemma_digits_run(s, 0);
    assert(s.subrange(0, s.len() as int) =~= s);
}

} // verus!
