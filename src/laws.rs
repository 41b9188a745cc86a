//! Properties of the grammar that relate several parses.
use vstd::prelude::*;
use crate::grammar::{
    Value, ErrorKind, stream_rule, declared_length, skip_ws, is_ws, dict_rule, stream_tag,
    boolean_rule, name_rule, integer_rule, real_rule, pairs_map, true_tag, false_tag,
    name_end, digit_end, decimal, sign_len, has_minus, is_delim, is_digit, tag_at, SLASH, MINUS,
    DOT, DIGIT_0,
};
use crate::number::lemma_decimal_nonneg;

verus! {

/// How a boolean is written.
pub open spec fn boolean_text(b: bool) -> Seq<u8> {
    if b {
        true_tag()
    } else {
        false_tag()
    }
}

/// How a name is written.
pub open spec fn name_text(n: Seq<u8>) -> Seq<u8> {
    seq![SLASH] + n
}

/// The decimal digits of `m`, without leading zeros.
pub open spec fn digits_of(m: nat) -> Seq<u8>
    decreases m,
{
    if m < 10 {
        seq![(DIGIT_0 + m) as u8]
    } else {
        digits_of(m / 10).push((DIGIT_0 + m % 10) as u8)
    }
}

/// How an integer is written: a `-` for a negative one, then its digits.
pub open spec fn integer_text(n: i32) -> Seq<u8> {
    if n < 0 {
        seq![MINUS] + digits_of((-n) as nat)
    } else {
        digits_of(n as nat)
    }
}

/// Writing a boolean and parsing the text gives the boolean back, the whole
/// text consumed.
pub proof fn boolean_round_trip(b: bool)
    ensures
        boolean_rule(boolean_text(b), 0) == Ok::<(bool, int), ErrorKind>((b, boolean_text(b).len() as int)),
{
    let t = boolean_text(b);
    assert(t.subrange(0, t.len() as int) =~= t);
    if !b {
        assert(t[0] != true_tag()[0]);
        assert(!tag_at(t, 0, true_tag()));
    }
}

/// `name_end` stops at the end of the input when no delimiter comes first.
proof fn lemma_name_end_reaches(s: Seq<u8>, i: int)
    requires
        0 <= i <= s.len(),
        forall|p: int| i <= p < s.len() ==> !is_delim(#[trigger] s[p]),
    ensures
        name_end(s, i) == s.len(),
    decreases s.len() - i,
{
    if i < s.len() {
        lemma_name_end_reaches(s, i + 1);
    }
}

/// `name_end` runs over name bytes only.
proof fn lemma_name_end_bytes(s: Seq<u8>, i: int)
    requires
        0 <= i <= s.len(),
    ensures
        i <= name_end(s, i) <= s.len(),
        forall|p: int| i <= p < name_end(s, i) ==> !is_delim(#[trigger] s[p]),
    decreases s.len() - i,
{
    if i < s.len() && !is_delim(s[i]) {
        lemma_name_end_bytes(s, i + 1);
    }
}

/// A parsed name, written out and parsed again, gives the same name, the
/// whole text consumed.
pub proof fn name_round_trip(s: Seq<u8>)
    requires
        name_rule(s, 0) is Ok,
    ensures
        ({
            let n = name_rule(s, 0)->Ok_0.0;
            name_rule(name_text(n), 0) == Ok::<(Seq<u8>, int), ErrorKind>((n, name_text(n).len() as int))
        }),
{
    let n = name_rule(s, 0)->Ok_0.0;
    lemma_name_end_bytes(s, 1);
    let t = name_text(n);
    assert forall|p: int| 1 <= p < t.len() implies !is_delim(#[trigger] t[p]) by {
        assert(t[p] == s[p]);
    }
    lemma_name_end_reaches(t, 1);
    assert(t.subrange(1, t.len() as int) =~= n);
}

/// `digit_end` stops at `l` when only digits come before it and no digit
/// stands at it.
proof fn lemma_digit_end_stops(s: Seq<u8>, i: int, l: int)
    requires
        0 <= i <= l <= s.len(),
        forall|p: int| i <= p < l ==> is_digit(#[trigger] s[p]),
        l == s.len() || !is_digit(s[l]),
    ensures
        digit_end(s, i) == l,
    decreases l - i,
{
    if i < l {
        lemma_digit_end_stops(s, i + 1, l);
    }
}

proof fn lemma_digits_of(m: nat)
    ensures
        digits_of(m).len() >= 1,
        forall|p: int| 0 <= p < digits_of(m).len() ==> is_digit(#[trigger] digits_of(m)[p]),
        decimal(digits_of(m), 0, digits_of(m).len() as int) == m,
    decreases m,
{
    if m >= 10 {
        lemma_digits_of(m / 10);
        let d = digits_of(m / 10);
        let t = digits_of(m);
        assert forall|p: int| 0 <= p < d.len() implies t[0 + p] == d[p] by {}
        lemma_decimal_shift(d, t, 0, 0, d.len() as int);
        assert(decimal(t, 0, t.len() as int) == decimal(t, 0, d.len() as int) * 10 + (t[d.len() as int] - DIGIT_0));
        assert((m / 10) * 10 + m % 10 == m);
        assert forall|p: int| 0 <= p < t.len() implies is_digit(#[trigger] t[p]) by {
            if p < d.len() {
                assert(t[p] == d[p]);
            }
        }
    } else {
        let t = digits_of(m);
        assert(decimal(t, 0, 0) == 0);
        assert(decimal(t, 0, 1) == decimal(t, 0, 0) * 10 + (t[0] - DIGIT_0));
    }
}

/// The value of digits depends only on the digits: `b` holds the digits of
/// `a` at offset `off`.
proof fn lemma_decimal_shift(a: Seq<u8>, b: Seq<u8>, off: int, i: int, j: int)
    requires
        0 <= i <= j <= a.len(),
        0 <= off,
        off + a.len() <= b.len(),
        forall|p: int| 0 <= p < a.len() ==> b[off + p] == a[p],
    ensures
        decimal(b, off + i, off + j) == decimal(a, i, j),
    decreases j - i,
{
    if i < j {
        lemma_decimal_shift(a, b, off, i, j - 1);
        assert(b[off + j - 1] == a[j - 1]);
    }
}

/// A parsed integer, written out and parsed again, gives the same integer;
/// the parse takes the whole text and leaves what follows it, when that
/// starts with neither a digit nor a `.`.
pub proof fn integer_round_trip(s: Seq<u8>, rest: Seq<u8>)
    requires
        integer_rule(s, 0) is Ok,
        rest.len() == 0 || (!is_digit(rest[0]) && rest[0] != DOT),
    ensures
        ({
            let n = integer_rule(s, 0)->Ok_0.0;
            integer_rule(integer_text(n) + rest, 0) == Ok::<(i32, int), ErrorKind>((n, integer_text(n).len() as int))
        }),
{
    let n = integer_rule(s, 0)->Ok_0.0;
    let k = sign_len(s, 0);
    let j = digit_end(s, k);
    lemma_digit_end_digits(s, k);
    lemma_decimal_nonneg(s, k, j);
    assert(n != i32::MIN);
    let m: nat = if n < 0 { (-n) as nat } else { n as nat };
    let d = digits_of(m);
    lemma_digits_of(m);
    let t = integer_text(n);
    let x = t + rest;
    let off: int = if n < 0 { 1 } else { 0 };
    assert forall|p: int| 0 <= p < d.len() implies x[off + p] == d[p] by {}
    lemma_decimal_shift(d, x, off, 0, d.len() as int);
    assert(sign_len(x, 0) == off && has_minus(x, 0) == (n < 0)) by {
        if n >= 0 {
            assert(is_digit(d[0]));
            assert(x[0] == d[0]);
        }
    }
    assert forall|p: int| off <= p < t.len() implies is_digit(#[trigger] x[p]) by {
        assert(x[p] == d[p - off]);
    }
    if rest.len() > 0 {
        assert(x[t.len() as int] == rest[0]);
    }
    lemma_digit_end_stops(x, off, t.len() as int);
}

/// A magnitude beyond `i32::MAX`, signed or not, is an overflow error and
/// never wraps around; so no parsed integer is `i32::MIN`.
pub proof fn integer_overflow_is_error(s: Seq<u8>)
    ensures
        ({
            let k = sign_len(s, 0);
            let j = digit_end(s, k);
            !(0 <= j < s.len() && s[j] == DOT) && decimal(s, k, j) > i32::MAX ==> integer_rule(s, 0)
                == Err::<(i32, int), ErrorKind>(ErrorKind::Overflow)
        }),
        integer_rule(s, 0) matches Ok((n, _)) ==> n != i32::MIN,
{
    let k = sign_len(s, 0);
    let j = digit_end(s, k);
    lemma_digit_end_digits(s, k);
    lemma_decimal_nonneg(s, k, j);
}

proof fn lemma_digit_end_digits(s: Seq<u8>, i: int)
    ensures
        forall|p: int| i <= p < digit_end(s, i) ==> is_digit(#[trigger] s[p]),
    decreases s.len() - i,
{
    if 0 <= i < s.len() && is_digit(s[i]) {
        lemma_digit_end_digits(s, i + 1);
    }
}

/// How a real number is written: a `-` when it had one, then its text.
pub open spec fn real_text(negative: bool, t: Seq<u8>) -> Seq<u8> {
    if negative {
        seq![MINUS] + t
    } else {
        t
    }
}

proof fn lemma_digit_end_bounds(s: Seq<u8>, i: int)
    requires
        0 <= i <= s.len(),
    ensures
        i <= digit_end(s, i) <= s.len(),
    decreases s.len() - i,
{
    if i < s.len() && is_digit(s[i]) {
        lemma_digit_end_bounds(s, i + 1);
    }
}

/// The run of digits in `a` from `p`, where `b` holds `a` at offset `off`,
/// is the run in `b` cut at the end of `a`.
proof fn lemma_digit_end_within(a: Seq<u8>, b: Seq<u8>, off: int, p: int)
    requires
        0 <= off,
        0 <= p <= a.len(),
        off + a.len() <= b.len(),
        forall|q: int| p <= q < a.len() ==> b[off + q] == a[q],
    ensures
        digit_end(a, p) == (if digit_end(b, off + p) < off + a.len() { digit_end(b, off + p) } else { off + a.len() }) - off,
    decreases a.len() - p,
{
    lemma_digit_end_bounds(b, off + p);
    if p < a.len() && is_digit(a[p]) {
        lemma_digit_end_within(a, b, off, p + 1);
    }
}

/// A parsed real number, written out and parsed again, gives the same sign
/// and text, the whole text consumed.
pub proof fn real_round_trip(s: Seq<u8>)
    requires
        real_rule(s, 0) is Ok,
    ensures
        ({
            let (neg, t) = real_rule(s, 0)->Ok_0.0;
            real_rule(real_text(neg, t), 0) == Ok::<((bool, Seq<u8>), int), ErrorKind>(((neg, t), real_text(neg, t).len() as int))
        }),
{
    let (neg, t) = real_rule(s, 0)->Ok_0.0;
    let k = sign_len(s, 0);
    let d = digit_end(s, k);
    lemma_digit_end_bounds(s, k);
    let x = real_text(neg, t);
    let off: int = if neg { 1 } else { 0 };
    assert forall|q: int| 0 <= q < t.len() implies x[off + q] == t[q] by {}
    // Where the text came from in `s`, and how far it reaches.
    let e: int = if d > k {
        if d < s.len() && s[d] == DOT {
            lemma_digit_end_bounds(s, d + 1);
            digit_end(s, d + 1)
        } else {
            d
        }
    } else {
        lemma_digit_end_bounds(s, k + 1);
        digit_end(s, k + 1)
    };
    assert(t == s.subrange(k, e));
    assert forall|q: int| 0 <= q < t.len() implies s[k + q] == t[q] by {}
    lemma_digit_end_within(t, s, k, 0);
    lemma_digit_end_within(t, x, off, 0);
    lemma_digit_end_bounds(x, off);
    assert(t.len() >= 1);
    assert(sign_len(x, 0) == off && has_minus(x, 0) == neg) by {
        if !neg {
            if d > k {
                lemma_digit_end_digits(s, k);
                assert(is_digit(s[k]));
            }
            assert(x[0] == s[k]);
        }
    }
    if d > k && d < s.len() && s[d] == DOT {
        lemma_digit_end_within(t, s, k, d - k + 1);
        lemma_digit_end_within(t, x, off, d - k + 1);
        lemma_digit_end_bounds(x, off + d - k + 1);
        assert(x.subrange(off, x.len() as int) =~= t);
    } else if d > k {
        assert(x.subrange(off, x.len() as int) =~= t);
    } else {
        lemma_digit_end_within(t, s, k, 1);
        lemma_digit_end_within(t, x, off, 1);
        lemma_digit_end_bounds(x, off + 1);
        assert(x.subrange(off, x.len() as int) =~= t);
    }
}

/// The payload of a parsed stream is exactly as long as its dictionary's
/// `Length` entry says.
pub proof fn stream_payload_has_declared_length(s: Seq<u8>)
    requires
        stream_rule(s, 0) is Ok,
    ensures
        ({
            let (m, data) = stream_rule(s, 0)->Ok_0.0;
            declared_length(m) == Some(data.len() as int)
        }),
{
    let j = dict_rule(s, 0)->Ok_0.1;
    let k = skip_ws(s, j);
    assert(tag_at(s, k, stream_tag()));
    lemma_skip_ws_ge(s, k + 6);
}

proof fn lemma_skip_ws_ge(s: Seq<u8>, i: int)
    ensures
        skip_ws(s, i) >= i,
    decreases s.len() - i,
{
    if 0 <= i < s.len() && is_ws(s[i]) {
        lemma_skip_ws_ge(s, i + 1);
    }
}

/// A pair that gives a key the null object adds nothing to a dictionary, and
/// no key of a dictionary maps to the null object.
pub proof fn dictionary_ignores_null(ps: Seq<(Seq<u8>, Value)>, k: Seq<u8>)
    ensures
        pairs_map(ps.push((k, Value::Null))) == pairs_map(ps),
        forall|key: Seq<u8>| #[trigger] pairs_map(ps).contains_key(key) ==> !(pairs_map(ps)[key] is Null),
    decreases ps.len(),
{
    assert(ps.push((k, Value::Null)).drop_last() =~= ps);
    if ps.len() > 0 {
        dictionary_ignores_null(ps.drop_last(), k);
    }
}

} // verus!
