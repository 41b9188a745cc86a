//! The name object.
use vstd::prelude::*;
use vstd::slice::slice_subrange;
use crate::grammar::{name_rule, ErrorKind, ParseError, SLASH};
use crate::scan::{name_end_at, finish};

verus! {

/// A name: the bytes after a `/`, borrowed from the input.
#[derive(Clone, Copy, Debug, PartialEq, Eq, Hash)]
pub struct Name<'b>(pub &'b [u8]);

impl<'b> View for Name<'b> {
    type V = Seq<u8>;

    open spec fn view(&self) -> Seq<u8> {
        self.0@
    }
}

impl<'b> Name<'b> {
    /// Parses `/` and one or more bytes that are neither whitespace nor
    /// delimiters, at the start of `input`.
    pub fn parse(input: &'b [u8]) -> (r: Result<(&'b [u8], Name<'b>), ParseError>)
        ensures
            match name_rule(input@, 0) {
                Ok((n, e)) => r matches Ok((rem, v)) && v@ == n && rem@ == input@.subrange(e, input@.len() as int),
                Err(k) => r == Err::<(&'b [u8], Name<'b>), ParseError>(ParseError { kind: k }),
            },
    {
        finish(input, Self::parse_at(input, 0))
    }

    pub(crate) fn parse_at(s: &'b [u8], i: usize) -> (r: Result<(Name<'b>, usize), ErrorKind>)
        requires
            i <= s@.len(),
        ensures
            match name_rule(s@, i as int) {
                Ok((n, e)) => r matches Ok((v, f)) && v@ == n && f == e && i < f <= s@.len(),
                Err(k) => r == Err::<(Name<'b>, usize), ErrorKind>(k),
            },
    {
        if i >= s.len() || s[i] != SLASH {
            return Err(ErrorKind::Expected);
        }
        let e = name_end_at(s, i + 1);
        if e == i + 1 {
            return Err(ErrorKind::Empty);
        }
        Ok((Name(slice_subrange(s, i + 1, e)), e))
    }

    pub fn get(&self) -> (r: &'b [u8])
        ensures
            r@ == self@,
    {
        self.0
    }

    pub fn new(name: &'b [u8]) -> (r: Self)
        ensures
            r@ == name@,
    {
        Name(name)
    }
}

} // verus!
