//! String objects, in literal `( ... )` and hexadecimal `< ... >` form.
use vstd::prelude::*;
use vstd::slice::{slice_subrange, slice_to_vec};
use crate::grammar::{
    string_rule, hex_rule, literal_rule, hex_digits, padded, hex_bytes, is_hex_digit,
    is_octal, gt_index, close_index, unescape, unescape_after_newlines, prepend, octal_count,
    octal_value, is_named_escape, named_escape, ErrorKind, ParseError, LT, GT, LPAREN, RPAREN,
    BACKSLASH, LF, CR, TAB, BS, FF, DIGIT_0, DIGIT_7, DIGIT_9, LOWER_A, LOWER_F, UPPER_A, UPPER_F,
    LOWER_N, LOWER_R, LOWER_T, LOWER_B,
};
use crate::scan::finish;

verus! {

/// The error type of `hex::decode`, carried through without looking inside.
#[verifier::external_type_specification]
#[verifier::external_body]
pub struct ExFromHexError(hex::FromHexError);

/// Relies on hex::decode: an even number of hexadecimal digits (either case)
/// decodes to one byte per pair, the first digit of a pair giving the high
/// four bits; an odd count or any other byte is an error.
#[verifier::external_body]
fn hex_decode(d: &[u8]) -> (r: Result<Vec<u8>, hex::FromHexError>)
    ensures
        r is Ok <==> (d@.len() % 2 == 0 && forall|k: int| 0 <= k < d@.len() ==> is_hex_digit(#[trigger] d@[k])),
        r matches Ok(v) ==> v@ == hex_bytes(d@),
{
    hex::decode(d)
}

/// A string object: the bytes after escape or hexadecimal decoding.
#[derive(Debug, PartialEq, Eq)]
pub struct String(Vec<u8>);

impl View for String {
    type V = Seq<u8>;

    closed spec fn view(&self) -> Seq<u8> {
        self.0@
    }
}

fn is_hex_digit_byte(c: u8) -> (r: bool)
    ensures
        r == is_hex_digit(c),
{
    (DIGIT_0 <= c && c <= DIGIT_9) || (LOWER_A <= c && c <= LOWER_F) || (UPPER_A <= c && c <= UPPER_F)
}

/// The hexadecimal digits of `s`, with a `0` appended when their count is
/// odd; every other byte is dropped.
pub fn fix_hex_str(s: &[u8]) -> (r: Vec<u8>)
    ensures
        r@ == padded(hex_digits(s@)),
        r@.len() % 2 == 0,
        forall|k: int| 0 <= k < r@.len() ==> is_hex_digit(#[trigger] r@[k]),
{
    let mut out: Vec<u8> = Vec::new();
    let mut p: usize = 0;
    while p < s.len()
        invariant
            p <= s@.len(),
            out@ == hex_digits(s@.subrange(0, p as int)),
            forall|k: int| 0 <= k < out@.len() ==> is_hex_digit(#[trigger] out@[k]),
        decreases s@.len() - p,
    {
        proof {
            assert(s@.subrange(0, p + 1).drop_last() =~= s@.subrange(0, p as int));
        }
        if is_hex_digit_byte(s[p]) {
            out.push(s[p]);
        }
        p = p + 1;
    }
    proof {
        assert(s@.subrange(0, s@.len() as int) =~= s@);
    }
    if out.len() % 2 == 1 {
        out.push(DIGIT_0);
    }
    out
}

/// The first position at or after `i` that holds `>`, or the length of `s`.
fn gt_index_at(s: &[u8], i: usize) -> (r: usize)
    requires
        i <= s@.len(),
    ensures
        r == gt_index(s@, i as int),
        i <= r <= s@.len(),
{
    let mut j = i;
    while j < s.len() && s[j] != GT
        invariant
            i <= j <= s@.len(),
            gt_index(s@, i as int) == gt_index(s@, j as int),
        decreases s@.len() - j,
    {
        j = j + 1;
    }
    j
}

/// The position of the `)` that closes a literal string whose body starts at
/// `i`, or the length of `s` when the input ends first.
fn take_until_unbalanced_bracket(s: &[u8], i: usize) -> (r: usize)
    requires
        i <= s@.len(),
    ensures
        r == close_index(s@, i as int, 0, false),
        i <= r <= s@.len(),
{
    let mut depth: usize = 0;
    let mut escaped = false;
    let mut p = i;
    while p < s.len()
        invariant
            i <= p <= s@.len(),
            depth <= p,
            close_index(s@, i as int, 0, false) == close_index(s@, p as int, depth as int, escaped),
        decreases s@.len() - p,
    {
        let c = s[p];
        if c == LPAREN && !escaped {
            depth = depth + 1;
            escaped = false;
        } else if c == RPAREN && !escaped {
            if depth == 0 {
                return p;
            }
            depth = depth - 1;
            escaped = false;
        } else if c == BACKSLASH {
            escaped = !escaped;
        } else {
            escaped = false;
        }
        p = p + 1;
    }
    p
}

/// `out` followed by what `rest` holds, if it holds anything.
pub open spec fn after(out: Seq<u8>, rest: Option<Seq<u8>>) -> Option<Seq<u8>> {
    match rest {
        Some(t) => Some(out + t),
        None => None,
    }
}

proof fn lemma_after_prepend(out: Seq<u8>, b: u8, rest: Option<Seq<u8>>)
    ensures
        after(out, prepend(b, rest)) == after(out.push(b), rest),
{
    if let Some(t) = rest {
        assert(out + (seq![b] + t) =~= out.push(b) + t);
    }
}

/// The byte that an escape names, for the escapes that name one.
fn named_escape_byte(c: u8) -> (r: Option<u8>)
    ensures
        r == (if is_named_escape(c) { Some(named_escape(c)) } else { None::<u8> }),
{
    if c == LOWER_N {
        Some(LF)
    } else if c == LOWER_R {
        Some(CR)
    } else if c == LOWER_T {
        Some(TAB)
    } else if c == LOWER_B {
        Some(BS)
    } else if c == LOWER_F {
        Some(FF)
    } else if c == LPAREN || c == RPAREN || c == BACKSLASH {
        Some(c)
    } else {
        None
    }
}

fn is_octal_byte(c: u8) -> (r: bool)
    ensures
        r == is_octal(c),
{
    DIGIT_0 <= c && c <= DIGIT_7
}

/// Decodes the body of a literal string: line continuations are dropped,
/// named and octal escapes become the byte they stand for, and a backslash
/// before any other byte stays. `None` when an octal escape exceeds a byte.
fn remove_esc_seq(r: &[u8]) -> (out: Option<Vec<u8>>)
    ensures
        match out {
            Some(v) => unescape(r@, 0) == Some(v@),
            None => unescape(r@, 0) is None,
        },
{
    let n = r.len();
    let mut out: Vec<u8> = Vec::new();
    let mut p: usize = 0;
    proof {
        assert(out@ + unescape(r@, 0).unwrap_or(seq![]) =~= unescape(r@, 0).unwrap_or(seq![]));
        assert(after(out@, unescape(r@, 0)) == unescape(r@, 0));
    }
    while p < n
        invariant
            n == r@.len(),
            p <= n,
            unescape(r@, 0) == after(out@, unescape(r@, p as int)),
        decreases n - p,
    {
        let c = r[p];
        if c != BACKSLASH || p + 1 >= n {
            proof {
                lemma_after_prepend(out@, c, unescape(r@, p + 1));
            }
            out.push(c);
            p = p + 1;
        } else {
            let e = r[p + 1];
            if e == LF || e == CR {
                let mut q = p + 1;
                while q < n && (r[q] == LF || r[q] == CR)
                    invariant
                        n == r@.len(),
                        p < q <= n,
                        unescape(r@, 0) == after(out@, unescape_after_newlines(r@, q as int)),
                    decreases n - q,
                {
                    q = q + 1;
                }
                p = q;
            } else if let Some(b) = named_escape_byte(e) {
                proof {
                    lemma_after_prepend(out@, b, unescape(r@, p + 2));
                }
                out.push(b);
                p = p + 2;
            } else if is_octal_byte(e) {
                let j = p + 1;
                let count: usize = if j + 1 < n && is_octal_byte(r[j + 1]) {
                    if j + 2 < n && is_octal_byte(r[j + 2]) {
                        3
                    } else {
                        2
                    }
                } else {
                    1
                };
                let mut v: u32 = 0;
                let mut q = j;
                while q < j + count
                    invariant
                        n == r@.len(),
                        count == octal_count(r@, j as int),
                        1 <= count <= 3,
                        j + count <= n,
                        j <= q <= j + count,
                        forall|m: int| j <= m < j + count ==> is_octal(#[trigger] r@[m]),
                        v == octal_value(r@, j as int, q as int),
                        v < (if q == j { 1int } else if q == j + 1 { 8int } else if q == j + 2 { 64int } else { 512int }),
                    decreases j + count - q,
                {
                    v = v * 8 + (r[q] - DIGIT_0) as u32;
                    q = q + 1;
                }
                if v > 255 {
                    return None;
                }
                proof {
                    lemma_after_prepend(out@, v as u8, unescape(r@, (j + count) as int));
                }
                out.push(v as u8);
                p = j + count;
            } else {
                proof {
                    lemma_after_prepend(out@, BACKSLASH, unescape(r@, p + 1));
                }
                out.push(BACKSLASH);
                p = p + 1;
            }
        }
    }
    proof {
        assert(out@ + seq![] =~= out@);
    }
    Some(out)
}

impl String {
    /// Parses a hexadecimal string, or else a literal string, at the start of
    /// `input`.
    pub fn parse(input: &[u8]) -> (r: Result<(&[u8], String), ParseError>)
        ensures
            match string_rule(input@, 0) {
                Ok((t, e)) => r matches Ok((rem, v)) && v@ == t && rem@ == input@.subrange(e, input@.len() as int),
                Err(k) => r == Err::<(&[u8], String), ParseError>(ParseError { kind: k }),
            },
    {
        finish(input, Self::parse_at(input, 0))
    }

    pub(crate) fn parse_at(s: &[u8], i: usize) -> (r: Result<(String, usize), ErrorKind>)
        requires
            i <= s@.len(),
        ensures
            match string_rule(s@, i as int) {
                Ok((t, e)) => r matches Ok((v, f)) && v@ == t && f == e && i < f <= s@.len(),
                Err(k) => r == Err::<(String, usize), ErrorKind>(k),
            },
    {
        match Self::parse_hexadecimal_at(s, i) {
            Ok(x) => Ok(x),
            Err(_) => Self::parse_literal_at(s, i),
        }
    }

    /// Parses a literal string at the start of `input`: `(`, a body whose
    /// unescaped parentheses balance, `)`. The body is decoded.
    pub fn parse_literal(input: &[u8]) -> (r: Result<(&[u8], String), ParseError>)
        ensures
            match literal_rule(input@, 0) {
                Ok((t, e)) => r matches Ok((rem, v)) && v@ == t && rem@ == input@.subrange(e, input@.len() as int),
                Err(k) => r == Err::<(&[u8], String), ParseError>(ParseError { kind: k }),
            },
    {
        finish(input, Self::parse_literal_at(input, 0))
    }

    fn parse_literal_at(s: &[u8], i: usize) -> (r: Result<(String, usize), ErrorKind>)
        requires
            i <= s@.len(),
        ensures
            match literal_rule(s@, i as int) {
                Ok((t, e)) => r matches Ok((v, f)) && v@ == t && f == e && i < f <= s@.len(),
                Err(k) => r == Err::<(String, usize), ErrorKind>(k),
            },
    {
        if i >= s.len() || s[i] != LPAREN {
            return Err(ErrorKind::Expected);
        }
        let c = take_until_unbalanced_bracket(s, i + 1);
        if c >= s.len() {
            return Err(ErrorKind::Unbalanced);
        }
        match remove_esc_seq(slice_subrange(s, i + 1, c)) {
            Some(v) => Ok((String(v), c + 1)),
            None => Err(ErrorKind::Overflow),
        }
    }

    /// Parses a hexadecimal string at the start of `input`: `<`, anything but
    /// `>`, then `>`. Only the hexadecimal digits in between count; a `0` is
    /// appended to an odd number of them, and each pair gives one byte.
    pub fn parse_hexadecimal(input: &[u8]) -> (r: Result<(&[u8], String), ParseError>)
        ensures
            match hex_rule(input@, 0) {
                Ok((t, e)) => r matches Ok((rem, v)) && v@ == t && rem@ == input@.subrange(e, input@.len() as int),
                Err(k) => r == Err::<(&[u8], String), ParseError>(ParseError { kind: k }),
            },
    {
        finish(input, Self::parse_hexadecimal_at(input, 0))
    }

    fn parse_hexadecimal_at(s: &[u8], i: usize) -> (r: Result<(String, usize), ErrorKind>)
        requires
            i <= s@.len(),
        ensures
            match hex_rule(s@, i as int) {
                Ok((t, e)) => r matches Ok((v, f)) && v@ == t && f == e && i < f <= s@.len(),
                Err(k) => r == Err::<(String, usize), ErrorKind>(k),
            },
    {
        if i >= s.len() || s[i] != LT {
            return Err(ErrorKind::Expected);
        }
        let j = gt_index_at(s, i + 1);
        if j >= s.len() {
            return Err(ErrorKind::Expected);
        }
        let digits = fix_hex_str(slice_subrange(s, i + 1, j));
        match hex_decode(digits.as_slice()) {
            Ok(v) => Ok((String(v), j + 1)),
            Err(_) => Err(ErrorKind::Expected),
        }
    }

    /// A copy of the string.
    pub fn duplicate(&self) -> (r: String)
        ensures
            r@ == self@,
    {
        String(slice_to_vec(self.0.as_slice()))
    }

    /// The decoded bytes.
    pub fn get(&self) -> (r: &[u8])
        ensures
            r@ == self@,
    {
        self.0.as_slice()
    }
}

impl Clone for String {
    fn clone(&self) -> Self {
        self.duplicate()
    }
}

} // verus!
