//! Errors of the descriptor parsers.

use vstd::prelude::*;
use vstd::string::StringExecFns;

verus! {

/// An error while parsing a script or a descriptor.
#[derive(Clone, PartialEq, Eq, Debug)]
pub enum Error {
    /// Something came that was not expected there; the text says what.
    Unexpected(String),
    /// The input ended before the expression it began was complete.
    UnexpectedStart,
}

/// An `Unexpected` error with the given text.
pub fn errstr(s: &str) -> (r: Error)
    ensures
        r matches Error::Unexpected(t) && t@ == s@,
{
    Error::Unexpected(String::from_str(s))
}

} // verus!
