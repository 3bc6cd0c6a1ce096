//! What can go wrong.

use vstd::prelude::*;

verus! {

/// The log holds something that is no record. `offset` is where the first
/// such thing starts: everything before it reads as records.
#[derive(Clone, Copy, Debug, PartialEq, Eq, Structural)]
pub struct ParseError {
    pub offset: usize,
}

/// The ways in which working with the store fails.
#[derive(Debug)]
pub enum NoterError {
    /// The log is malformed.
    ParseError(ParseError),
    /// Something else stood in the way; the message says what.
    Mess(&'static str),
}

impl From<ParseError> for NoterError {
    fn from(e: ParseError) -> (error: NoterError) {
        NoterError::ParseError(e)
    }
}

impl vstd::std_specs::convert::FromSpecImpl<ParseError> for NoterError {
    open spec fn obeys_from_spec() -> bool {
        true
    }

    open spec fn from_spec(e: ParseError) -> NoterError {
        NoterError::ParseError(e)
    }
}

impl From<&'static str> for NoterError {
    fn from(e: &'static str) -> (error: NoterError) {
        NoterError::Mess(e)
    }
}

impl vstd::std_specs::convert::FromSpecImpl<&'static str> for NoterError {
    open spec fn obeys_from_spec() -> bool {
        true
    }

    open spec fn from_spec(e: &'static str) -> NoterError {
        NoterError::Mess(e)
    }
}

} // verus!
