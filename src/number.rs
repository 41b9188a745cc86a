//! Integer and real number objects.
use vstd::prelude::*;
use vstd::slice::slice_subrange;
use crate::grammar::{
    integer_rule, real_rule, decimal, sign_len, is_digit, ErrorKind,
    ParseError, PLUS, MINUS, DOT, DIGIT_0,
};
use crate::scan::{digit_end_at, finish};

verus! {

/// A signed 32-bit integer object.
#[derive(Clone, Copy, Debug, PartialEq, Eq, Structural)]
pub struct Integer(pub i32);

impl View for Integer {
    type V = i32;

    open spec fn view(&self) -> i32 {
        self.0
    }
}

/// A real number object, kept as its sign and its unsigned text (digits with
/// at most one `.`), borrowed from the input.
#[derive(Clone, Copy, Debug, PartialEq, Eq)]
pub struct Real<'b> {
    negative: bool,
    text: &'b [u8],
}

impl<'b> View for Real<'b> {
    type V = (bool, Seq<u8>);

    closed spec fn view(&self) -> (bool, Seq<u8>) {
        (self.negative, self.text@)
    }
}

/// The decimal value of digits never shrinks as digits are added.
proof fn lemma_decimal_grows(s: Seq<u8>, k: int, a: int, b: int)
    requires
        k <= a <= b <= s.len(),
        forall|p: int| k <= p < b ==> is_digit(#[trigger] s[p]),
    ensures
        decimal(s, k, a) <= decimal(s, k, b),
    decreases b - a,
{
    if a < b {
        lemma_decimal_grows(s, k, a, b - 1);
        assert(decimal(s, k, b) == decimal(s, k, b - 1) * 10 + (s[b - 1] - DIGIT_0));
        assert(decimal(s, k, b - 1) >= 0) by {
            lemma_decimal_nonneg(s, k, b - 1);
        }
    }
}

/// Decimal digits have a non-negative value.
pub(crate) proof fn lemma_decimal_nonneg(s: Seq<u8>, k: int, b: int)
    requires
        forall|p: int| k <= p < b ==> is_digit(#[trigger] s[p]),
    ensures
        decimal(s, k, b) >= 0,
    decreases b - k,
{
    if k < b {
        lemma_decimal_nonneg(s, k, b - 1);
    }
}

/// The value of the digits `s[k..j]`, or `None` when it exceeds `i32::MAX`.
fn decimal_value(s: &[u8], k: usize, j: usize) -> (r: Option<i32>)
    requires
        k <= j <= s@.len(),
        forall|p: int| k <= p < j ==> is_digit(#[trigger] s@[p]),
    ensures
        match r {
            Some(v) => v == decimal(s@, k as int, j as int) && v >= 0,
            None => decimal(s@, k as int, j as int) > i32::MAX,
        },
{
    let mut acc: i32 = 0;
    let mut p = k;
    while p < j
        invariant
            k <= p <= j <= s@.len(),
            forall|q: int| k <= q < j ==> is_digit(#[trigger] s@[q]),
            acc == decimal(s@, k as int, p as int),
            acc >= 0,
        decreases j - p,
    {
        let next: i64 = (acc as i64) * 10 + ((s[p] - DIGIT_0) as i64);
        if next > i32::MAX as i64 {
            proof {
                lemma_decimal_grows(s@, k as int, p as int + 1, j as int);
            }
            return None;
        }
        acc = next as i32;
        p = p + 1;
    }
    Some(acc)
}

/// Applies the sign to a magnitude; `None` when the negation does not fit.
fn sign_integer(negative: bool, value: i32) -> (r: Option<Integer>)
    ensures
        match r {
            Some(n) => n@ == (if negative { -value } else { value as int }),
            None => negative && value == i32::MIN,
        },
{
    if negative {
        if value == i32::MIN {
            None
        } else {
            Some(Integer(-value))
        }
    } else {
        Some(Integer(value))
    }
}

/// The length of an optional sign at `i`.
fn sign_at(s: &[u8], i: usize) -> (r: usize)
    requires
        i <= s@.len(),
    ensures
        r == sign_len(s@, i as int),
        i + r <= s@.len() <= usize::MAX,
{
    let n = s.len();
    if i < n && (s[i] == PLUS || s[i] == MINUS) {
        1
    } else {
        0
    }
}

impl Integer {
    /// Parses an optional sign and a run of digits at the start of `input`.
    /// A `.` after the digits, or a magnitude beyond `i32::MAX`, is an error.
    pub fn parse(input: &[u8]) -> (r: Result<(&[u8], Integer), ParseError>)
        ensures
            match integer_rule(input@, 0) {
                Ok((n, e)) => r matches Ok((rem, v)) && v@ == n && rem@ == input@.subrange(e, input@.len() as int),
                Err(k) => r == Err::<(&[u8], Integer), ParseError>(ParseError { kind: k }),
            },
    {
        finish(input, Self::parse_at(input, 0))
    }

    pub(crate) fn parse_at(s: &[u8], i: usize) -> (r: Result<(Integer, usize), ErrorKind>)
        requires
            i <= s@.len(),
        ensures
            match integer_rule(s@, i as int) {
                Ok((n, e)) => r matches Ok((v, f)) && v@ == n && f == e && i < f <= s@.len(),
                Err(k) => r == Err::<(Integer, usize), ErrorKind>(k),
            },
    {
        let k = i + sign_at(s, i);
        let j = digit_end_at(s, k);
        if j < s.len() && s[j] == DOT {
            return Err(ErrorKind::Expected);
        }
        if j == k {
            return Err(ErrorKind::Empty);
        }
        let negative = i < s.len() && s[i] == MINUS;
        match decimal_value(s, k, j) {
            None => Err(ErrorKind::Overflow),
            Some(m) => match sign_integer(negative, m) {
                Some(n) => Ok((n, j)),
                None => Err(ErrorKind::Overflow),
            },
        }
    }

    pub fn get(&self) -> (r: i32)
        ensures
            r == self@,
    {
        self.0
    }

    pub fn new(i: i32) -> (r: Self)
        ensures
            r@ == i,
    {
        Integer(i)
    }
}

impl<'b> Real<'b> {
    /// Parses an optional sign and then digits with an optional `.` and
    /// fraction digits, or `.` and one or more digits, at the start of
    /// `input`. What follows, such as a second `.` or an exponent, is left in
    /// the rest.
    pub fn parse(input: &'b [u8]) -> (r: Result<(&'b [u8], Real<'b>), ParseError>)
        ensures
            match real_rule(input@, 0) {
                Ok((x, e)) => r matches Ok((rem, v)) && v@ == x && rem@ == input@.subrange(e, input@.len() as int),
                Err(k) => r == Err::<(&'b [u8], Real<'b>), ParseError>(ParseError { kind: k }),
            },
    {
        finish(input, Self::parse_at(input, 0))
    }

    pub(crate) fn parse_at(s: &'b [u8], i: usize) -> (r: Result<(Real<'b>, usize), ErrorKind>)
        requires
            i <= s@.len(),
        ensures
            match real_rule(s@, i as int) {
                Ok((x, e)) => r matches Ok((v, f)) && v@ == x && f == e && i < f <= s@.len(),
                Err(k) => r == Err::<(Real<'b>, usize), ErrorKind>(k),
            },
    {
        let k = i + sign_at(s, i);
        let negative = i < s.len() && s[i] == MINUS;
        let d = digit_end_at(s, k);
        let e = if d > k {
            if d < s.len() && s[d] == DOT {
                digit_end_at(s, d + 1)
            } else {
                d
            }
        } else if k < s.len() && s[k] == DOT && digit_end_at(s, k + 1) > k + 1 {
            digit_end_at(s, k + 1)
        } else {
            return Err(ErrorKind::Expected);
        };
        Ok((Real { negative, text: slice_subrange(s, k, e) }, e))
    }

    /// Whether the number was written with a `-` sign.
    pub fn is_negative(&self) -> (r: bool)
        ensures
            r == self@.0,
    {
        self.negative
    }

    /// The unsigned text of the number, as written.
    pub fn text(&self) -> (r: &'b [u8])
        ensures
            r@ == self@.1,
    {
        self.text
    }
}

} // verus!
