//! Reading a size literal such as `10`, `10k`, `2m` or `1g` as a byte count.
use vstd::prelude::*;
use vstd::string::*;
use crate::text::{is_space, is_digit, digit_value, push_char};

verus! {

/// Why a size literal could not be read. Each variant carries the literal.
#[derive(Debug, Clone)]
pub enum SizeError {
    /// The part before the unit letter is not a decimal integer.
    NotANumber(String),
    /// The byte count does not fit in a `usize`.
    TooLarge(String),
}

/// What the trailing character of a literal multiplies the number by:
/// `k`, `m` and `g` (either case) are powers of 1024, anything else is 1.
pub open spec fn unit_multiplier(c: char) -> nat {
    if c == 'k' || c == 'K' {
        1024
    } else if c == 'm' || c == 'M' {
        1024 * 1024
    } else if c == 'g' || c == 'G' {
        1024 * 1024 * 1024
    } else {
        1
    }
}

/// The multiplier of a whole literal, given by its last character.
pub open spec fn literal_multiplier(s: Seq<char>) -> nat {
    if s.len() > 0 {
        unit_multiplier(s.last())
    } else {
        1
    }
}

/// Whether every character of `d` is an ASCII digit and there is one at least.
pub open spec fn all_digits(d: Seq<char>) -> bool {
    d.len() > 0 && forall|i: int| 0 <= i < d.len() ==> is_digit(#[trigger] d[i])
}

/// The value of a run of decimal digits.
pub open spec fn digits_nat(d: Seq<char>) -> nat
    decreases d.len(),
{
    if d.len() == 0 {
        0
    } else {
        digits_nat(d.drop_last()) * 10 + digit_value(d.last())
    }
}

/// The value of an unsigned integer literal: an optional `+` and then one
/// or more decimal digits; `None` for anything else.
pub open spec fn integer_literal(t: Seq<char>) -> Option<nat> {
    let d = if t.len() > 0 && t[0] == '+' { t.drop_first() } else { t };
    if all_digits(d) {
        Some(digits_nat(d))
    } else {
        None
    }
}

/// The number part of a literal: the literal without its last character
/// when that character is a letter, the literal itself otherwise.
pub open spec fn number_part(s: Seq<char>, last_is_letter: bool) -> Seq<char> {
    if last_is_letter && s.len() > 0 {
        s.drop_last()
    } else {
        s
    }
}

/// The byte count that a literal stands for, given whether its last
/// character is a letter; `None` when its number part is no integer.
pub open spec fn size_of_literal(s: Seq<char>, last_is_letter: bool) -> Option<nat> {
    match integer_literal(number_part(s, last_is_letter)) {
        Some(v) => Some(v * literal_multiplier(s)),
        None => None,
    }
}

/// Whether `r` is the outcome of reading the literal `s`, given whether its
/// last character is a letter.
pub open spec fn size_outcome(s: Seq<char>, last_is_letter: bool, r: Result<usize, SizeError>) -> bool {
    match r {
        Ok(n) => size_of_literal(s, last_is_letter) == Some(n as nat),
        Err(SizeError::NotANumber(lit)) => lit@ == s && size_of_literal(s, last_is_letter) is None,
        Err(SizeError::TooLarge(lit)) => lit@ == s && size_of_literal(s, last_is_letter) is Some
            && size_of_literal(s, last_is_letter)->0 > usize::MAX,
    }
}

/// Whether `c` has Unicode's Alphabetic property.
pub uninterp spec fn alphabetic(c: char) -> bool;

/// Relies on `char::is_alphabetic`: whether the character has Unicode's
/// Alphabetic property.
#[verifier::external_body]
fn is_letter(c: char) -> (r: bool)
    ensures
        r == alphabetic(c),
{
    c.is_alphabetic()
}

proof fn lemma_digits_prefix_le(d: Seq<char>, i: int)
    requires
        0 <= i <= d.len(),
    ensures
        digits_nat(d.take(i)) <= digits_nat(d),
    decreases d.len() - i,
{
    if i < d.len() {
        lemma_digits_prefix_le(d, i + 1);
        assert(d.take(i + 1).drop_last() =~= d.take(i));
    }
    else {
        assert(d.take(i) =~= d);
    }
}

/// Reads `size_str` as a byte count, where `last_is_letter` tells whether
/// its last character is a letter (which is then dropped from the number).
/// The last character gives the multiplier: 1024 for `k`, 1024² for `m`,
/// 1024³ for `g` (either case), 1 for anything else.
pub fn parse_size_with(size_str: &str, last_is_letter: bool) -> (r: Result<usize, SizeError>)
    ensures
        size_outcome(size_str@, last_is_letter, r),
{
    let len = size_str.unicode_len();
    let ghost s = size_str@;
    let mut multiplier: usize = 1;
    let mut end = len;
    if len > 0 {
        let c = size_str.get_char(len - 1);
        if c == 'k' || c == 'K' {
            multiplier = 1024;
        } else if c == 'm' || c == 'M' {
            multiplier = 1024 * 1024;
        } else if c == 'g' || c == 'G' {
            multiplier = 1024 * 1024 * 1024;
        }
        if last_is_letter {
            end = len - 1;
        }
    }
    assert(multiplier as nat == literal_multiplier(s));
    let ghost t = number_part(s, last_is_letter);
    assert(t =~= s.take(end as int));
    let mut start: usize = 0;
    if end > 0 && size_str.get_char(0) == '+' {
        start = 1;
    }
    let ghost d = s.subrange(start as int, end as int);
    assert(d =~= (if t.len() > 0 && t[0] == '+' { t.drop_first() } else { t }));
    if start >= end {
        return Err(SizeError::NotANumber(String::from_str(size_str)));
    }
    let mut i = start;
    while i < end
        invariant
            start <= i <= end <= len == s.len(),
            size_str@ == s,
            d == s.subrange(start as int, end as int),
            t == number_part(s, last_is_letter),
            d == (if t.len() > 0 && t[0] == '+' { t.drop_first() } else { t }),
            multiplier as nat == literal_multiplier(s),
            multiplier >= 1,
            forall|j: int| start <= j < i ==> is_digit(#[trigger] s[j]),
        decreases end - i,
    {
        let c = size_str.get_char(i);
        if !('0' <= c && c <= '9') {
            assert(!is_digit(d[i - start]));
            return Err(SizeError::NotANumber(String::from_str(size_str)));
        }
        i = i + 1;
    }
    assert(all_digits(d));
    let mut value: usize = 0;
    let mut i = start;
    while i < end
        invariant
            start <= i <= end <= len == s.len(),
            size_str@ == s,
            d == s.subrange(start as int, end as int),
            t == number_part(s, last_is_letter),
            d == (if t.len() > 0 && t[0] == '+' { t.drop_first() } else { t }),
            multiplier as nat == literal_multiplier(s),
            multiplier >= 1,
            all_digits(d),
            value as nat == digits_nat(d.take(i - start)),
        decreases end - i,
    {
        let c = size_str.get_char(i);
        assert(d[i - start] == c);
        assert(is_digit(c));
        let digit = (c as u32 - 48) as usize;
        assert(d.take(i - start + 1).drop_last() =~= d.take(i - start));
        assert(digits_nat(d.take(i - start + 1)) == value * 10 + digit);
        if value > (usize::MAX - digit) / 10 {
            proof {
                lemma_digits_prefix_le(d, i - start + 1);
                assert(value * 10 + digit > usize::MAX) by (nonlinear_arith)
                    requires value > (usize::MAX - digit) / 10, digit <= 9;
                let v = digits_nat(d);
                let m = literal_multiplier(s);
                assert(v * m > usize::MAX) by (nonlinear_arith)
                    requires v > usize::MAX, m >= 1;
            }
            return Err(SizeError::TooLarge(String::from_str(size_str)));
        }
        proof {
            assert(value * 10 + digit <= usize::MAX) by (nonlinear_arith)
                requires value <= (usize::MAX - digit) / 10, digit <= 9;
        }
        value = value * 10 + digit;
        i = i + 1;
    }
    assert(d.take(end - start) =~= d);
    assert(multiplier as nat == literal_multiplier(s));
    if value > usize::MAX / multiplier {
        proof {
            assert(value * multiplier > usize::MAX) by (nonlinear_arith)
                requires value > usize::MAX / multiplier, multiplier >= 1;
        }
        Err(SizeError::TooLarge(String::from_str(size_str)))
    } else {
        proof {
            assert(value * multiplier <= usize::MAX) by (nonlinear_arith)
                requires value <= usize::MAX / multiplier, multiplier >= 1;
        }
        Ok(value * multiplier)
    }
}

/// Reads a size literal as a byte count: decimal digits (after an optional
/// `+`), then optionally one letter. A trailing letter is dropped from the
/// number; `k`, `m` and `g` (either case) multiply it by 1024, 1024² and
/// 1024³, any other letter by 1.
pub fn parse_size_suffix(size_str: &str) -> (r: Result<usize, SizeError>)
    ensures
        size_outcome(size_str@, size_str@.len() > 0 && alphabetic(size_str@.last()), r),
{
    let len = size_str.unicode_len();
    let last_is_letter = len > 0 && is_letter(size_str.get_char(len - 1));
    parse_size_with(size_str, last_is_letter)
}

/// `s` without its whitespace characters.
pub open spec fn without_space(s: Seq<char>) -> Seq<char>
    decreases s.len(),
{
    if s.len() == 0 {
        s
    } else if is_space(s.last()) {
        without_space(s.drop_last())
    } else {
        without_space(s.drop_last()).push(s.last())
    }
}

/// The tokens written one after the other, with their whitespace removed.
pub open spec fn joined_tokens(ts: Seq<Seq<char>>) -> Seq<char>
    decreases ts.len(),
{
    if ts.len() == 0 {
        Seq::empty()
    } else {
        joined_tokens(ts.drop_last()) + without_space(ts.last())
    }
}

/// The size literal made of several argument tokens: they are written one
/// after the other and their whitespace is removed, so `1 0 k` reads as `10k`.
pub fn size_literal(tokens: &Vec<String>) -> (r: String)
    ensures
        r@ == joined_tokens(tokens@.map_values(|t: String| t@)),
{
    let ghost ts = tokens@.map_values(|t: String| t@);
    let mut r = String::new();
    let mut k: usize = 0;
    while k < tokens.len()
        invariant
            k <= tokens.len(),
            ts == tokens@.map_values(|t: String| t@),
            r@ == joined_tokens(ts.take(k as int)),
        decreases tokens.len() - k,
    {
        let tok = tokens[k].as_str();
        let n = tok.unicode_len();
        let ghost before = r@;
        let mut i: usize = 0;
        while i < n
            invariant
                i <= n == tok@.len(),
                tok@ == ts[k as int],
                r@ == before + without_space(tok@.take(i as int)),
            decreases n - i,
        {
            let c = tok.get_char(i);
            assert(tok@.take(i + 1).drop_last() =~= tok@.take(i as int));
            if !(c == ' ' || c == '\t' || c == '\n' || c == '\x0C' || c == '\r') {
                push_char(&mut r, c);
                assert(before + without_space(tok@.take(i + 1)) =~= (before + without_space(tok@.take(i as int))).push(c));
            }
            i = i + 1;
        }
        assert(tok@.take(n as int) =~= tok@);
        assert(ts.take(k + 1).drop_last() =~= ts.take(k as int));
        k = k + 1;
    }
    assert(ts.take(k as int) =~= ts);
    r
}

} // verus!
