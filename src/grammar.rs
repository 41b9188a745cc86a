//! The object grammar as spec functions over byte sequences.
//!
//! Each rule reads the input `s` from position `i` and yields the value it
//! denotes together with the position just after it, or the kind of failure.
use vstd::prelude::*;

verus! {

/// Byte values of the grammar's characters.
pub const SLASH: u8 = 0x2F;
pub const PERCENT: u8 = 0x25;
pub const LPAREN: u8 = 0x28;
pub const RPAREN: u8 = 0x29;
pub const LT: u8 = 0x3C;
pub const GT: u8 = 0x3E;
pub const LBRACKET: u8 = 0x5B;
pub const RBRACKET: u8 = 0x5D;
pub const LBRACE: u8 = 0x7B;
pub const RBRACE: u8 = 0x7D;
pub const BACKSLASH: u8 = 0x5C;
pub const SPACE: u8 = 0x20;
pub const TAB: u8 = 0x09;
pub const LF: u8 = 0x0A;
pub const CR: u8 = 0x0D;
pub const BS: u8 = 0x08;
pub const FF: u8 = 0x0C;
pub const PLUS: u8 = 0x2B;
pub const MINUS: u8 = 0x2D;
pub const DOT: u8 = 0x2E;
pub const DIGIT_0: u8 = 0x30;
pub const DIGIT_7: u8 = 0x37;
pub const DIGIT_9: u8 = 0x39;
pub const UPPER_A: u8 = 0x41;
pub const UPPER_F: u8 = 0x46;
pub const LOWER_A: u8 = 0x61;
pub const LOWER_B: u8 = 0x62;
pub const LOWER_F: u8 = 0x66;
pub const LOWER_N: u8 = 0x6E;
pub const LOWER_R: u8 = 0x72;
pub const LOWER_T: u8 = 0x74;

/// What went wrong when a rule did not match.
#[derive(Clone, Copy, Debug, PartialEq, Eq, Structural)]
pub enum ErrorKind {
    /// An expected token or delimiter is not at the current position.
    Expected,
    /// A construct that needs one or more bytes found none.
    Empty,
    /// A number or an octal escape does not fit its type.
    Overflow,
    /// The input ended inside a literal string.
    Unbalanced,
    /// The `Length` entry of a stream is missing, not a non-negative
    /// integer, or longer than what is left of the input.
    StreamLength,
    /// No `endstream` after the payload of a stream.
    StreamEnd,
    /// None of the object forms matched.
    NoMatch,
}

/// A failed parse, with the kind of failure.
#[derive(Clone, Copy, Debug, PartialEq, Eq, Structural)]
pub struct ParseError {
    pub kind: ErrorKind,
}

/// The meaning of a parsed object.
pub enum Value {
    Boolean(bool),
    /// The bytes of the name, without the leading `/`.
    Name(Seq<u8>),
    Integer(i32),
    /// Whether a `-` sign was given, and the unsigned numeric text.
    Real(bool, Seq<u8>),
    /// The decoded bytes.
    Str(Seq<u8>),
    Array(Seq<Value>),
    Null,
    Dictionary(Map<Seq<u8>, Value>),
    /// The stream's dictionary and its payload.
    Stream(Map<Seq<u8>, Value>, Seq<u8>),
}

/// Space, tab, line feed and carriage return separate tokens.
pub open spec fn is_ws(c: u8) -> bool {
    c == SPACE || c == TAB || c == LF || c == CR
}

/// The bytes that end a name.
pub open spec fn is_delim(c: u8) -> bool {
    c == LF || c == CR || c == SPACE || c == PERCENT || c == LPAREN || c == RPAREN || c == LT
        || c == GT || c == LBRACKET || c == RBRACKET || c == LBRACE || c == RBRACE
}

pub open spec fn is_digit(c: u8) -> bool {
    DIGIT_0 <= c <= DIGIT_9
}

pub open spec fn is_octal(c: u8) -> bool {
    DIGIT_0 <= c <= DIGIT_7
}

pub open spec fn is_hex_digit(c: u8) -> bool {
    is_digit(c) || (LOWER_A <= c <= LOWER_F) || (UPPER_A <= c <= UPPER_F)
}

/// The first position at or after `i` that does not hold whitespace.
pub open spec fn skip_ws(s: Seq<u8>, i: int) -> int
    decreases s.len() - i,
{
    if 0 <= i < s.len() && is_ws(s[i]) {
        skip_ws(s, i + 1)
    } else {
        i
    }
}

/// The first position at or after `i` that does not hold a name byte.
pub open spec fn name_end(s: Seq<u8>, i: int) -> int
    decreases s.len() - i,
{
    if 0 <= i < s.len() && !is_delim(s[i]) {
        name_end(s, i + 1)
    } else {
        i
    }
}

/// The first position at or after `i` that does not hold a decimal digit.
pub open spec fn digit_end(s: Seq<u8>, i: int) -> int
    decreases s.len() - i,
{
    if 0 <= i < s.len() && is_digit(s[i]) {
        digit_end(s, i + 1)
    } else {
        i
    }
}

/// The first position at or after `i` that holds `>`, or the length of `s`.
pub open spec fn gt_index(s: Seq<u8>, i: int) -> int
    decreases s.len() - i,
{
    if 0 <= i < s.len() && s[i] != GT {
        gt_index(s, i + 1)
    } else if i < 0 {
        i
    } else if i < s.len() {
        i
    } else {
        s.len() as int
    }
}

/// Whether `t` stands in `s` at position `i`.
pub open spec fn tag_at(s: Seq<u8>, i: int, t: Seq<u8>) -> bool {
    0 <= i && i + t.len() <= s.len() && s.subrange(i, i + t.len()) == t
}

pub open spec fn true_tag() -> Seq<u8> {
    seq![0x74u8, 0x72u8, 0x75u8, 0x65u8]
}

pub open spec fn false_tag() -> Seq<u8> {
    seq![0x66u8, 0x61u8, 0x6Cu8, 0x73u8, 0x65u8]
}

pub open spec fn null_tag() -> Seq<u8> {
    seq![0x6Eu8, 0x75u8, 0x6Cu8, 0x6Cu8]
}

pub open spec fn dict_open_tag() -> Seq<u8> {
    seq![LT, LT]
}

pub open spec fn dict_close_tag() -> Seq<u8> {
    seq![GT, GT]
}

pub open spec fn stream_tag() -> Seq<u8> {
    seq![0x73u8, 0x74u8, 0x72u8, 0x65u8, 0x61u8, 0x6Du8]
}

pub open spec fn endstream_tag() -> Seq<u8> {
    seq![0x65u8, 0x6Eu8, 0x64u8, 0x73u8, 0x74u8, 0x72u8, 0x65u8, 0x61u8, 0x6Du8]
}

/// The key of a stream dictionary that gives the payload's length.
pub open spec fn length_key() -> Seq<u8> {
    seq![0x4Cu8, 0x65u8, 0x6Eu8, 0x67u8, 0x74u8, 0x68u8]
}

/// `true` or `false`.
pub open spec fn boolean_rule(s: Seq<u8>, i: int) -> Result<(bool, int), ErrorKind> {
    if tag_at(s, i, true_tag()) {
        Ok((true, i + 4))
    } else if tag_at(s, i, false_tag()) {
        Ok((false, i + 5))
    } else {
        Err(ErrorKind::Expected)
    }
}

/// `null`; yields the end position.
pub open spec fn null_rule(s: Seq<u8>, i: int) -> Result<int, ErrorKind> {
    if tag_at(s, i, null_tag()) {
        Ok(i + 4)
    } else {
        Err(ErrorKind::Expected)
    }
}

/// `/` and one or more name bytes; yields the bytes after the `/`.
pub open spec fn name_rule(s: Seq<u8>, i: int) -> Result<(Seq<u8>, int), ErrorKind> {
    if !(0 <= i < s.len() && s[i] == SLASH) {
        Err(ErrorKind::Expected)
    } else if name_end(s, i + 1) == i + 1 {
        Err(ErrorKind::Empty)
    } else {
        Ok((s.subrange(i + 1, name_end(s, i + 1)), name_end(s, i + 1)))
    }
}

/// The length of an optional sign at `i`.
pub open spec fn sign_len(s: Seq<u8>, i: int) -> int {
    if 0 <= i < s.len() && (s[i] == PLUS || s[i] == MINUS) {
        1
    } else {
        0
    }
}

pub open spec fn has_minus(s: Seq<u8>, i: int) -> bool {
    0 <= i < s.len() && s[i] == MINUS
}

/// The value of the decimal digits in `s[i..j]`.
pub open spec fn decimal(s: Seq<u8>, i: int, j: int) -> int
    decreases j - i,
{
    if j <= i {
        0
    } else {
        decimal(s, i, j - 1) * 10 + (s[j - 1] - DIGIT_0)
    }
}

/// An optional sign and a run of digits that no `.` follows. The magnitude
/// must fit an `i32`.
pub open spec fn integer_rule(s: Seq<u8>, i: int) -> Result<(i32, int), ErrorKind> {
    let k = i + sign_len(s, i);
    let j = digit_end(s, k);
    if 0 <= j < s.len() && s[j] == DOT {
        Err(ErrorKind::Expected)
    } else if j == k {
        Err(ErrorKind::Empty)
    } else if decimal(s, k, j) > i32::MAX {
        Err(ErrorKind::Overflow)
    } else if has_minus(s, i) {
        Ok(((-decimal(s, k, j)) as i32, j))
    } else {
        Ok((decimal(s, k, j) as i32, j))
    }
}

/// An optional sign, then digits with an optional `.` and fraction digits,
/// or `.` and one or more digits. Yields the sign and the unsigned text.
pub open spec fn real_rule(s: Seq<u8>, i: int) -> Result<((bool, Seq<u8>), int), ErrorKind> {
    let k = i + sign_len(s, i);
    let d = digit_end(s, k);
    if d > k {
        if d < s.len() && s[d] == DOT {
            Ok(((has_minus(s, i), s.subrange(k, digit_end(s, d + 1))), digit_end(s, d + 1)))
        } else {
            Ok(((has_minus(s, i), s.subrange(k, d)), d))
        }
    } else if 0 <= k < s.len() && s[k] == DOT && digit_end(s, k + 1) > k + 1 {
        Ok(((has_minus(s, i), s.subrange(k, digit_end(s, k + 1))), digit_end(s, k + 1)))
    } else {
        Err(ErrorKind::Expected)
    }
}

/// The hexadecimal digits of `t`, in order.
pub open spec fn hex_digits(t: Seq<u8>) -> Seq<u8>
    decreases t.len(),
{
    if t.len() == 0 {
        seq![]
    } else if is_hex_digit(t.last()) {
        hex_digits(t.drop_last()).push(t.last())
    } else {
        hex_digits(t.drop_last())
    }
}

/// `d` with a `0` digit appended when its length is odd.
pub open spec fn padded(d: Seq<u8>) -> Seq<u8> {
    if d.len() % 2 == 1 {
        d.push(DIGIT_0)
    } else {
        d
    }
}

/// The value of one hexadecimal digit.
pub open spec fn hex_val(c: u8) -> int {
    if is_digit(c) {
        c - DIGIT_0
    } else if LOWER_A <= c <= LOWER_F {
        c - LOWER_A + 10
    } else {
        c - UPPER_A + 10
    }
}

/// The bytes that the pairs of hexadecimal digits of `d` stand for.
pub open spec fn hex_bytes(d: Seq<u8>) -> Seq<u8> {
    Seq::new((d.len() / 2) as nat, |k: int| (hex_val(d[2 * k]) * 16 + hex_val(d[2 * k + 1])) as u8)
}

/// `<`, anything but `>`, then `>`. The hexadecimal digits in between,
/// padded to an even count, give the bytes.
pub open spec fn hex_rule(s: Seq<u8>, i: int) -> Result<(Seq<u8>, int), ErrorKind> {
    if !(0 <= i < s.len() && s[i] == LT) {
        Err(ErrorKind::Expected)
    } else if gt_index(s, i + 1) >= s.len() {
        Err(ErrorKind::Expected)
    } else {
        Ok((hex_bytes(padded(hex_digits(s.subrange(i + 1, gt_index(s, i + 1))))), gt_index(s, i + 1) + 1))
    }
}

/// The position of the `)` that closes a literal string whose body starts
/// before `i`, at nesting `depth`, with `esc` telling whether the byte at `i`
/// follows an escaping backslash; the length of `s` when there is none.
pub open spec fn close_index(s: Seq<u8>, i: int, depth: int, esc: bool) -> int
    decreases s.len() - i,
{
    if !(0 <= i < s.len()) {
        s.len() as int
    } else if s[i] == LPAREN && !esc {
        close_index(s, i + 1, depth + 1, false)
    } else if s[i] == RPAREN && !esc {
        if depth == 0 {
            i
        } else {
            close_index(s, i + 1, depth - 1, false)
        }
    } else if s[i] == BACKSLASH {
        close_index(s, i + 1, depth, !esc)
    } else {
        close_index(s, i + 1, depth, false)
    }
}

/// How many octal digits, at most three, stand at `j`, where `r[j]` is one.
pub open spec fn octal_count(r: Seq<u8>, j: int) -> int {
    if j + 1 < r.len() && is_octal(r[j + 1]) {
        if j + 2 < r.len() && is_octal(r[j + 2]) {
            3
        } else {
            2
        }
    } else {
        1
    }
}

/// The value of the octal digits in `r[i..j]`.
pub open spec fn octal_value(r: Seq<u8>, i: int, j: int) -> int
    decreases j - i,
{
    if j <= i {
        0
    } else {
        octal_value(r, i, j - 1) * 8 + (r[j - 1] - DIGIT_0)
    }
}

/// Whether `\` followed by `c` stands for a single byte.
pub open spec fn is_named_escape(c: u8) -> bool {
    c == LOWER_N || c == LOWER_R || c == LOWER_T || c == LOWER_B || c == LOWER_F || c == LPAREN
        || c == RPAREN || c == BACKSLASH
}

/// The byte that `\` followed by `c` stands for.
pub open spec fn named_escape(c: u8) -> u8 {
    if c == LOWER_N {
        LF
    } else if c == LOWER_R {
        CR
    } else if c == LOWER_T {
        TAB
    } else if c == LOWER_B {
        BS
    } else if c == LOWER_F {
        FF
    } else {
        c
    }
}

pub open spec fn prepend(b: u8, rest: Option<Seq<u8>>) -> Option<Seq<u8>> {
    match rest {
        Some(t) => Some(seq![b] + t),
        None => None,
    }
}

/// The bytes that the body `r` of a literal string stands for from position
/// `i` on, or `None` when an octal escape exceeds a byte.
pub open spec fn unescape(r: Seq<u8>, i: int) -> Option<Seq<u8>>
    decreases r.len() - i, 0int,
{
    if !(0 <= i < r.len()) {
        Some(seq![])
    } else if r[i] != BACKSLASH || i + 1 >= r.len() {
        prepend(r[i], unescape(r, i + 1))
    } else if r[i + 1] == LF || r[i + 1] == CR {
        unescape_after_newlines(r, i + 1)
    } else if is_named_escape(r[i + 1]) {
        prepend(named_escape(r[i + 1]), unescape(r, i + 2))
    } else if is_octal(r[i + 1]) {
        let n = octal_count(r, i + 1);
        if octal_value(r, i + 1, i + 1 + n) > 255 {
            None
        } else {
            prepend(octal_value(r, i + 1, i + 1 + n) as u8, unescape(r, i + 1 + n))
        }
    } else {
        prepend(BACKSLASH, unescape(r, i + 1))
    }
}

/// A line continuation: the line feeds and carriage returns from `i` on are
/// dropped, then the body goes on.
pub open spec fn unescape_after_newlines(r: Seq<u8>, i: int) -> Option<Seq<u8>>
    decreases r.len() - i, 1int,
{
    if 0 <= i < r.len() && (r[i] == LF || r[i] == CR) {
        unescape_after_newlines(r, i + 1)
    } else {
        unescape(r, i)
    }
}

/// `(`, a body with balanced unescaped parentheses, then `)`.
pub open spec fn literal_rule(s: Seq<u8>, i: int) -> Result<(Seq<u8>, int), ErrorKind> {
    if !(0 <= i < s.len() && s[i] == LPAREN) {
        Err(ErrorKind::Expected)
    } else if close_index(s, i + 1, 0, false) >= s.len() {
        Err(ErrorKind::Unbalanced)
    } else {
        match unescape(s.subrange(i + 1, close_index(s, i + 1, 0, false)), 0) {
            Some(t) => Ok((t, close_index(s, i + 1, 0, false) + 1)),
            None => Err(ErrorKind::Overflow),
        }
    }
}

/// A hexadecimal string, or else a literal string.
pub open spec fn string_rule(s: Seq<u8>, i: int) -> Result<(Seq<u8>, int), ErrorKind> {
    match hex_rule(s, i) {
        Ok(r) => Ok(r),
        Err(_) => literal_rule(s, i),
    }
}

/// The mapping that a sequence of pairs denotes: pairs whose value is the
/// null object are left out, and a later pair overrides an earlier one.
pub open spec fn pairs_map(ps: Seq<(Seq<u8>, Value)>) -> Map<Seq<u8>, Value>
    decreases ps.len(),
{
    if ps.len() == 0 {
        Map::empty()
    } else if ps.last().1 is Null {
        pairs_map(ps.drop_last())
    } else {
        pairs_map(ps.drop_last()).insert(ps.last().0, ps.last().1)
    }
}

/// Zero or more objects, each after optional whitespace. `i` is the end of
/// the last object so far, `k` the position reached while skipping
/// whitespace. Yields the objects and the end of the last one.
pub open spec fn items_rule(s: Seq<u8>, i: int, k: int) -> (Seq<Value>, int)
    decreases s.len() - k, 3int,
{
    if 0 <= k < s.len() && is_ws(s[k]) {
        items_rule(s, i, k + 1)
    } else {
        match object_rule(s, k) {
            Ok((v, e)) => if k < e <= s.len() {
                (seq![v] + items_rule(s, e, e).0, items_rule(s, e, e).1)
            } else {
                (seq![], i)
            },
            Err(_) => (seq![], i),
        }
    }
}

/// `[`, objects, optional whitespace, `]`.
pub open spec fn array_rule(s: Seq<u8>, i: int) -> Result<(Seq<Value>, int), ErrorKind>
    decreases s.len() - i, 1int,
{
    if !(0 <= i < s.len() && s[i] == LBRACKET) {
        Err(ErrorKind::Expected)
    } else {
        let (vs, j) = items_rule(s, i + 1, i + 1);
        let k = skip_ws(s, j);
        if 0 <= k < s.len() && s[k] == RBRACKET {
            Ok((vs, k + 1))
        } else {
            Err(ErrorKind::Expected)
        }
    }
}

/// Optional whitespace, then an object.
pub open spec fn entry_value_rule(s: Seq<u8>, k: int) -> Result<(Value, int), ErrorKind>
    decreases s.len() - k, 3int,
{
    if 0 <= k < s.len() && is_ws(s[k]) {
        entry_value_rule(s, k + 1)
    } else {
        object_rule(s, k)
    }
}

/// Zero or more pairs of a name and an object, each after optional
/// whitespace. `i` is the end of the last pair so far, `k` the position
/// reached while skipping whitespace. Yields the pairs and the end of the
/// last one. As for objects, a pair that consumed nothing would end the run.
pub open spec fn pairs_rule(s: Seq<u8>, i: int, k: int) -> (Seq<(Seq<u8>, Value)>, int)
    decreases s.len() - k, 4int,
{
    if 0 <= k < s.len() && is_ws(s[k]) {
        pairs_rule(s, i, k + 1)
    } else {
        match name_rule(s, k) {
            Ok((n, e1)) => if k < e1 <= s.len() {
                match entry_value_rule(s, e1) {
                    Ok((v, e2)) => if e1 < e2 <= s.len() {
                        (seq![(n, v)] + pairs_rule(s, e2, e2).0, pairs_rule(s, e2, e2).1)
                    } else {
                        (seq![], i)
                    },
                    Err(_) => (seq![], i),
                }
            } else {
                (seq![], i)
            },
            Err(_) => (seq![], i),
        }
    }
}

/// `<<`, pairs, optional whitespace, `>>`. Pairs whose value is the null
/// object are left out, and a later pair overrides an earlier one.
pub open spec fn dict_rule(s: Seq<u8>, i: int) -> Result<(Map<Seq<u8>, Value>, int), ErrorKind>
    decreases s.len() - i, 0int,
{
    if !tag_at(s, i, dict_open_tag()) {
        Err(ErrorKind::Expected)
    } else {
        let (ps, j) = pairs_rule(s, i + 2, i + 2);
        let k = skip_ws(s, j);
        if tag_at(s, k, dict_close_tag()) {
            Ok((pairs_map(ps), k + 2))
        } else {
            Err(ErrorKind::Expected)
        }
    }
}

/// The payload length that a stream dictionary declares, if it is a
/// non-negative integer.
pub open spec fn declared_length(m: Map<Seq<u8>, Value>) -> Option<int> {
    if m.contains_key(length_key()) {
        match m[length_key()] {
            Value::Integer(n) => if n >= 0 {
                Some(n as int)
            } else {
                None
            },
            _ => None,
        }
    } else {
        None
    }
}

/// A dictionary, optional whitespace, `stream`, one or more whitespace bytes,
/// exactly as many payload bytes as its `Length` entry says, optional
/// whitespace, `endstream`.
pub open spec fn stream_rule(s: Seq<u8>, i: int) -> Result<((Map<Seq<u8>, Value>, Seq<u8>), int), ErrorKind>
    decreases s.len() - i, 1int,
{
    match dict_rule(s, i) {
        Err(e) => Err(e),
        Ok((m, j)) => {
            let k = skip_ws(s, j);
            if !tag_at(s, k, stream_tag()) {
                Err(ErrorKind::Expected)
            } else if skip_ws(s, k + 6) == k + 6 {
                Err(ErrorKind::Empty)
            } else {
                let w = skip_ws(s, k + 6);
                match declared_length(m) {
                    None => Err(ErrorKind::StreamLength),
                    Some(n) => if w + n > s.len() {
                        Err(ErrorKind::StreamLength)
                    } else if tag_at(s, skip_ws(s, w + n), endstream_tag()) {
                        Ok(((m, s.subrange(w, w + n)), skip_ws(s, w + n) + 9))
                    } else {
                        Err(ErrorKind::StreamEnd)
                    },
                }
            }
        },
    }
}

/// Any object: the first of name, integer, stream, dictionary, string, real,
/// boolean, array and null that matches.
pub open spec fn object_rule(s: Seq<u8>, i: int) -> Result<(Value, int), ErrorKind>
    decreases s.len() - i, 2int,
{
    if let Ok((n, e)) = name_rule(s, i) {
        Ok((Value::Name(n), e))
    } else if let Ok((n, e)) = integer_rule(s, i) {
        Ok((Value::Integer(n), e))
    } else if let Ok(((m, d), e)) = stream_rule(s, i) {
        Ok((Value::Stream(m, d), e))
    } else if let Ok((m, e)) = dict_rule(s, i) {
        Ok((Value::Dictionary(m), e))
    } else if let Ok((t, e)) = string_rule(s, i) {
        Ok((Value::Str(t), e))
    } else if let Ok(((neg, t), e)) = real_rule(s, i) {
        Ok((Value::Real(neg, t), e))
    } else if let Ok((b, e)) = boolean_rule(s, i) {
        Ok((Value::Boolean(b), e))
    } else if let Ok((vs, e)) = array_rule(s, i) {
        Ok((Value::Array(vs), e))
    } else if let Ok(e) = null_rule(s, i) {
        Ok((Value::Null, e))
    } else {
        Err(ErrorKind::NoMatch)
    }
}

} // verus!
