//! The boolean object.
use vstd::prelude::*;
use crate::grammar::{boolean_rule, true_tag, false_tag, ErrorKind, ParseError};
use crate::scan::{starts_with_at, finish};

verus! {

/// A boolean object, `true` or `false`.
#[derive(Clone, Copy, Debug, PartialEq, Eq, Structural)]
pub struct Boolean(pub bool);

impl View for Boolean {
    type V = bool;

    open spec fn view(&self) -> bool {
        self.0
    }
}

impl Boolean {
    /// Parses `true` or `false` at the start of `input`; whitespace before it
    /// is not skipped.
    pub fn parse(input: &[u8]) -> (r: Result<(&[u8], Boolean), ParseError>)
        ensures
            match boolean_rule(input@, 0) {
                Ok((b, e)) => r matches Ok((rem, v)) && v@ == b && rem@ == input@.subrange(e, input@.len() as int),
                Err(k) => r == Err::<(&[u8], Boolean), ParseError>(ParseError { kind: k }),
            },
    {
        finish(input, Self::parse_at(input, 0))
    }

    pub(crate) fn parse_at(s: &[u8], i: usize) -> (r: Result<(Boolean, usize), ErrorKind>)
        requires
            i <= s@.len(),
        ensures
            match boolean_rule(s@, i as int) {
                Ok((b, e)) => r matches Ok((v, f)) && v@ == b && f == e && f <= s@.len(),
                Err(k) => r == Err::<(Boolean, usize), ErrorKind>(k),
            },
    {
        let t: [u8; 4] = [0x74, 0x72, 0x75, 0x65];
        let f: [u8; 5] = [0x66, 0x61, 0x6C, 0x73, 0x65];
        proof {
            assert(t@ =~= true_tag());
            assert(f@ =~= false_tag());
        }
        if starts_with_at(s, i, t.as_slice()) {
            Ok((Boolean(true), i + 4))
        } else if starts_with_at(s, i, f.as_slice()) {
            Ok((Boolean(false), i + 5))
        } else {
            Err(ErrorKind::Expected)
        }
    }

    pub fn get(&self) -> (r: bool)
        ensures
            r == self@,
    {
        self.0
    }

    pub fn new(b: bool) -> (r: Self)
        ensures
            r@ == b,
    {
        Boolean(b)
    }
}

} // verus!
