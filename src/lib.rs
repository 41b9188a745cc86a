//! Parser for the primitive object grammar of PDF documents: booleans, names,
//! numbers, literal and hexadecimal strings, arrays, dictionaries, the null
//! object and length-delimited streams.
//!
//! Every parser takes a byte slice and returns either the parsed object with
//! the unconsumed rest of the input, or a [`ParseError`]. The behaviour of each
//! parser is stated against the spec-level grammar in [`grammar`].
pub mod grammar;
mod scan;
pub mod boolean;
pub mod null;
pub mod name;
pub mod number;
pub mod string;
pub mod object;
pub mod laws;

pub use boolean::Boolean;
pub use null::Null;
pub use name::Name;
pub use number::{Integer, Real};
pub use string::{String, fix_hex_str};
pub use object::{Object, Array, Dictionary, Stream, GetObj};
pub use grammar::{ErrorKind, ParseError, Value};
