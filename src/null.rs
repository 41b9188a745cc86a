//! The null object.
use vstd::prelude::*;
use crate::grammar::{null_rule, null_tag, ErrorKind, ParseError};
use crate::scan::{starts_with_at, finish};

verus! {

/// The null object, `null`.
#[derive(Clone, Copy, Debug, PartialEq, Eq, Structural)]
pub struct Null;

impl Null {
    /// Parses `null` at the start of `input`.
    pub fn parse(input: &[u8]) -> (r: Result<(&[u8], Null), ParseError>)
        ensures
            match null_rule(input@, 0) {
                Ok(e) => r matches Ok((rem, _)) && rem@ == input@.subrange(e, input@.len() as int),
                Err(k) => r == Err::<(&[u8], Null), ParseError>(ParseError { kind: k }),
            },
    {
        finish(input, Self::parse_at(input, 0))
    }

    pub(crate) fn parse_at(s: &[u8], i: usize) -> (r: Result<(Null, usize), ErrorKind>)
        requires
            i <= s@.len(),
        ensures
            match null_rule(s@, i as int) {
                Ok(e) => r matches Ok((_, f)) && f == e && f <= s@.len(),
                Err(k) => r == Err::<(Null, usize), ErrorKind>(k),
            },
    {
        let t: [u8; 4] = [0x6E, 0x75, 0x6C, 0x6C];
        proof {
            assert(t@ =~= null_tag());
        }
        if starts_with_at(s, i, t.as_slice()) {
            Ok((Null, i + 4))
        } else {
            Err(ErrorKind::Expected)
        }
    }
}

} // verus!
