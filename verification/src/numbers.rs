//! Unsigned decimal numbers in text: how a number is written, when a token
//! reads as a number, and the scanner that takes the next number off a buffer.

use vstd::prelude::*;
use crate::text::{
    chars_of, lemma_one_space, lemma_run_len, lemma_span_until, lemma_span_until_at,
    position_after_run, position_of, span_until, string_of, without_leading_spaces,
};

verus! {

/// Why a token does not read as a number.
#[derive(Clone, Copy, Debug, PartialEq, Eq, Structural)]
pub enum ParseError {
    /// The token has no characters: the buffer held no further token.
    Empty,
    /// The token has a character that is no decimal digit.
    InvalidDigit,
    /// The token is a decimal number too large for `usize`.
    Overflow,
}

/// `c` is one of the ten decimal digits.
pub open spec fn is_digit(c: char) -> bool {
    '0' <= c <= '9'
}

/// The value of the decimal digit `c`.
pub open spec fn digit_of(c: char) -> nat
    recommends
        is_digit(c),
{
    (c as int - '0' as int) as nat
}

/// The decimal digit of value `d`.
pub open spec fn digit_char(d: nat) -> char
    recommends
        d < 10,
{
    (d + '0' as nat) as char
}

/// Every character of `s` is a decimal digit.
pub open spec fn all_digits(s: Seq<char>) -> bool {
    forall|i: int| 0 <= i < s.len() ==> is_digit(#[trigger] s[i])
}

/// The number that the digits `s` denote, most significant digit first.
pub open spec fn digits_value(s: Seq<char>) -> nat
    decreases s.len(),
{
    if s.len() == 0 {
        0
    } else {
        10 * digits_value(s.drop_last()) + digit_of(s.last())
    }
}

/// The decimal notation of `n`, without sign or leading zeros.
pub open spec fn decimal(n: nat) -> Seq<char>
    decreases n,
{
    if n < 10 {
        seq![digit_char(n)]
    } else {
        decimal(n / 10).push(digit_char(n % 10))
    }
}

/// What a token reads as. A number is one or more decimal digits, leading
/// zeros allowed, with a value that fits `usize`. A sign is no digit.
pub open spec fn token_value(token: Seq<char>) -> Result<usize, ParseError> {
    if token.len() == 0 {
        Err(ParseError::Empty)
    } else if !all_digits(token) {
        Err(ParseError::InvalidDigit)
    } else if digits_value(token) > usize::MAX {
        Err(ParseError::Overflow)
    } else {
        Ok(digits_value(token) as usize)
    }
}

/// The first token of a buffer: its characters before the first space.
pub open spec fn first_token(buffer: Seq<char>) -> Seq<char> {
    buffer.take(span_until(buffer, ' ') as int)
}

/// The number that stands first in a buffer.
pub open spec fn number_at(buffer: Seq<char>) -> Result<usize, ParseError> {
    token_value(first_token(buffer))
}

/// The buffer after the scan of its first number: without the first token and
/// the spaces behind it where that token is a number, unchanged where it is
/// not.
pub open spec fn after_number(buffer: Seq<char>) -> Seq<char> {
    if number_at(buffer) is Ok {
        without_leading_spaces(buffer.skip(span_until(buffer, ' ') as int))
    } else {
        buffer
    }
}

/// Appending a digit multiplies the value by ten and adds the digit.
pub proof fn lemma_digits_value_push(s: Seq<char>, c: char)
    ensures
        digits_value(s.push(c)) == 10 * digits_value(s) + digit_of(c),
{
    assert(s.push(c).drop_last() == s);
    assert(s.push(c).last() == c);
}

/// Reads a token as a number.
pub fn parse_number(token: &str) -> (r: Result<usize, ParseError>)
    ensures
        r == token_value(token@),
{
    let chars = chars_of(token);
    let n = chars.len();
    proof {
        assert(chars@.subrange(0, n as int) == token@);
    }
    parse_chars(&chars, 0, n)
}

/// Reads the characters of `chars` from `from` up to, not including, `to` as
/// a number.
pub(crate) fn parse_chars(chars: &Vec<char>, from: usize, to: usize) -> (r: Result<usize, ParseError>)
    requires
        from <= to <= chars.len(),
    ensures
        r == token_value(chars@.subrange(from as int, to as int)),
{
    let ghost token = chars@.subrange(from as int, to as int);
    if from == to {
        return Err(ParseError::Empty);
    }
    let mut value: usize = 0;
    let mut fits = true;
    let mut i: usize = from;
    while i < to
        invariant
            from <= i <= to <= chars.len(),
            from < to,
            token == chars@.subrange(from as int, to as int),
            all_digits(token.take(i - from)),
            fits ==> value == digits_value(token.take(i - from)),
            !fits ==> digits_value(token.take(i - from)) > usize::MAX,
        decreases to - i,
    {
        let c = chars[i];
        assert(c == token[i - from]);
        if !('0' <= c && c <= '9') {
            assert(!is_digit(token[i - from]));
            return Err(ParseError::InvalidDigit);
        }
        let d = (c as u32 - '0' as u32) as usize;
        proof {
            let seen = token.take(i - from);
            assert(token.take(i + 1 - from) == seen.push(c));
            lemma_digits_value_push(seen, c);
        }
        if fits {
            if value > (usize::MAX - d) / 10 {
                fits = false;
            } else {
                value = value * 10 + d;
            }
        }
        i = i + 1;
    }
    assert(token.take(to - from) == token);
    if fits {
        Ok(value)
    } else {
        Err(ParseError::Overflow)
    }
}

/// Appends the decimal notation of `n` to `s`.
pub fn push_decimal(s: &mut String, n: usize)
    ensures
        final(s)@ == old(s)@ + decimal(n as nat),
    decreases n,
{
    if n >= 10 {
        push_decimal(s, n / 10);
    }
    let d = (n % 10) as u8;
    s.push(('0' as u8 + d) as char);
}

/// Takes the first number off a buffer. The number is the token before the
/// first space, or the whole buffer where it has no space; the buffer then
/// starts at the next token. Where the token is no number, the buffer is left
/// as it was.
pub fn find_number(contents: &mut String) -> (r: Result<usize, ParseError>)
    ensures
        r == number_at(old(contents)@),
        final(contents)@ == after_number(old(contents)@),
{
    let chars = chars_of(contents.as_str());
    let end = position_of(&chars, 0, ' ');
    assert(chars@.skip(0) == chars@);
    let r = parse_chars(&chars, 0, end);
    if r.is_ok() {
        let next = position_after_run(&chars, end, ' ');
        *contents = string_of(&chars, next, chars.len());
        proof {
            let rest = chars@.skip(end as int);
            assert(rest.skip(next - end) == chars@.subrange(next as int, chars@.len() as int));
        }
    }
    r
}

/// The decimal notation of a number is one or more digits, and they denote
/// the number.
pub proof fn lemma_decimal(n: nat)
    ensures
        decimal(n).len() > 0,
        all_digits(decimal(n)),
        digits_value(decimal(n)) == n,
    decreases n,
{
    if n < 10 {
        assert(decimal(n).drop_last().len() == 0);
        assert(digits_value(decimal(n).drop_last()) == 0);
    } else {
        lemma_decimal(n / 10);
        lemma_digits_value_push(decimal(n / 10), digit_char(n % 10));
    }
}

/// A number in decimal holds neither `#` nor a line feed, and is not empty.
pub proof fn lemma_decimal_is_plain(n: nat)
    ensures
        decimal(n).len() > 0,
        forall|i: int| 0 <= i < decimal(n).len() ==> decimal(n)[i] != '#' && decimal(n)[i] != '\n',
{
    lemma_decimal(n);
    assert forall|i: int| 0 <= i < decimal(n).len() implies decimal(n)[i] != '#' && decimal(
        n,
    )[i] != '\n' by {
        assert(is_digit(decimal(n)[i]));
    }
}

/// A buffer whose first token is a number gets shorter when the number is
/// taken off.
pub proof fn lemma_number_shortens(buffer: Seq<char>)
    requires
        number_at(buffer) is Ok,
    ensures
        after_number(buffer).len() < buffer.len(),
{
    lemma_span_until(buffer, ' ');
    lemma_run_len(buffer.skip(span_until(buffer, ' ') as int), ' ');
}

/// A number in decimal, with nothing or a space behind it, scans as that
/// number; what is left is what stood behind it, without leading spaces.
pub proof fn lemma_scan_decimal(n: usize, tail: Seq<char>)
    requires
        tail.len() == 0 || tail[0] == ' ',
    ensures
        number_at(decimal(n as nat) + tail) == Ok::<usize, ParseError>(n),
        after_number(decimal(n as nat) + tail) == without_leading_spaces(tail),
{
    let digits = decimal(n as nat);
    let buffer = digits + tail;
    lemma_decimal(n as nat);
    assert forall|i: int| 0 <= i < digits.len() implies buffer[i] != ' ' by {
        assert(is_digit(digits[i]));
    }
    lemma_span_until_at(buffer, ' ', digits.len() as int);
    assert(first_token(buffer) == digits);
    assert(is_digit(digits[0]));
    assert(buffer.skip(digits.len() as int) == tail);
}

/// A number in decimal, a space, and then nothing or something other than a
/// space, scans as that number and leaves what stood behind the space.
pub proof fn lemma_scan_field(n: usize, tail: Seq<char>)
    requires
        tail.len() == 0 || tail[0] != ' ',
    ensures
        number_at(decimal(n as nat) + (seq![' '] + tail)) == Ok::<usize, ParseError>(n),
        after_number(decimal(n as nat) + (seq![' '] + tail)) == tail,
{
    lemma_scan_decimal(n, seq![' '] + tail);
    lemma_one_space(tail);
}

} // verus!
