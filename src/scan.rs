//! Byte-level scanning shared by the parsers.
use vstd::prelude::*;
use vstd::slice::slice_subrange;
use crate::grammar::{
    ErrorKind, ParseError,
    is_ws, is_delim, is_digit, skip_ws, name_end, digit_end, tag_at, SPACE, TAB, LF, CR,
    PERCENT, LPAREN, RPAREN, LT, GT, LBRACKET, RBRACKET, LBRACE, RBRACE, DIGIT_0, DIGIT_9,
};

verus! {

pub fn is_ws_byte(c: u8) -> (r: bool)
    ensures
        r == is_ws(c),
{
    c == SPACE || c == TAB || c == LF || c == CR
}

pub fn is_delim_byte(c: u8) -> (r: bool)
    ensures
        r == is_delim(c),
{
    c == LF || c == CR || c == SPACE || c == PERCENT || c == LPAREN || c == RPAREN || c == LT
        || c == GT || c == LBRACKET || c == RBRACKET || c == LBRACE || c == RBRACE
}

pub fn is_digit_byte(c: u8) -> (r: bool)
    ensures
        r == is_digit(c),
{
    DIGIT_0 <= c && c <= DIGIT_9
}

/// The first position at or after `i` that does not hold whitespace.
pub fn skip_whitespace(s: &[u8], i: usize) -> (r: usize)
    requires
        i <= s@.len(),
    ensures
        r == skip_ws(s@, i as int),
        i <= r <= s@.len(),
{
    let mut j = i;
    while j < s.len() && is_ws_byte(s[j])
        invariant
            i <= j <= s@.len(),
            skip_ws(s@, i as int) == skip_ws(s@, j as int),
        decreases s@.len() - j,
    {
        j = j + 1;
    }
    j
}

/// The first position at or after `i` that does not hold a name byte.
pub fn name_end_at(s: &[u8], i: usize) -> (r: usize)
    requires
        i <= s@.len(),
    ensures
        r == name_end(s@, i as int),
        i <= r <= s@.len(),
{
    let mut j = i;
    while j < s.len() && !is_delim_byte(s[j])
        invariant
            i <= j <= s@.len(),
            name_end(s@, i as int) == name_end(s@, j as int),
        decreases s@.len() - j,
    {
        j = j + 1;
    }
    j
}

/// The first position at or after `i` that does not hold a decimal digit.
pub fn digit_end_at(s: &[u8], i: usize) -> (r: usize)
    requires
        i <= s@.len(),
    ensures
        r == digit_end(s@, i as int),
        i <= r <= s@.len(),
        forall|p: int| i <= p < r ==> is_digit(#[trigger] s@[p]),
{
    let mut j = i;
    while j < s.len() && is_digit_byte(s[j])
        invariant
            i <= j <= s@.len(),
            forall|p: int| i <= p < j ==> is_digit(#[trigger] s@[p]),
            digit_end(s@, i as int) == digit_end(s@, j as int),
        decreases s@.len() - j,
    {
        j = j + 1;
    }
    j
}

/// Whether `t` stands in `s` at position `i`.
pub fn starts_with_at(s: &[u8], i: usize, t: &[u8]) -> (r: bool)
    requires
        i <= s@.len(),
    ensures
        r == tag_at(s@, i as int, t@),
        s@.len() <= usize::MAX,
{
    let n = s.len();
    if t.len() > n - i {
        return false;
    }
    let mut k: usize = 0;
    while k < t.len()
        invariant
            n == s@.len(),
            i + t@.len() <= s@.len(),
            k <= t@.len(),
            forall|m: int| 0 <= m < k ==> s@[i + m] == t@[m],
        decreases t@.len() - k,
    {
        if s[i + k] != t[k] {
            proof {
                assert(s@.subrange(i as int, i + t@.len())[k as int] != t@[k as int]);
            }
            return false;
        }
        k = k + 1;
    }
    proof {
        assert(s@.subrange(i as int, i + t@.len()) =~= t@);
    }
    true
}

} // verus!
verus! {

/// Turns the result of a rule at position 0 into the public form: the value
/// with the rest of the input, or the error.
pub fn finish<'b, T>(s: &'b [u8], r: Result<(T, usize), ErrorKind>) -> (out: Result<(&'b [u8], T), ParseError>)
    requires
        r matches Ok((_, e)) ==> e <= s@.len(),
    ensures
        match r {
            Ok((v, e)) => out matches Ok((rem, w)) && w == v && rem@ == s@.subrange(e as int, s@.len() as int),
            Err(k) => out == Err::<(&'b [u8], T), ParseError>(ParseError { kind: k }),
        },
{
    match r {
        Ok((v, e)) => Ok((slice_subrange(s, e, s.len()), v)),
        Err(k) => Err(ParseError { kind: k }),
    }
}

} // verus!
verus! {

/// Whether `a` and `b` hold the same bytes.
pub fn bytes_eq(a: &[u8], b: &[u8]) -> (r: bool)
    ensures
        r == (a@ == b@),
{
    if a.len() != b.len() {
        return false;
    }
    let mut k: usize = 0;
    while k < a.len()
        invariant
            a@.len() == b@.len(),
            k <= a@.len(),
            forall|m: int| 0 <= m < k ==> a@[m] == b@[m],
        decreases a@.len() - k,
    {
        if a[k] != b[k] {
            return false;
        }
        k = k + 1;
    }
    proof {
        assert(a@ =~= b@);
    }
    true
}

} // verus!
