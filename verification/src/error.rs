//! The one error type that a host presents: whatever went wrong while
//! loading, parsing or running a program, wrapped as it is.

use crate::interpreter::io_error_text;
use crate::interpreter::InterpreterError;
use crate::parser::parse_error_text;
use crate::parser::ParseError;
use vstd::prelude::*;
use vstd::std_specs::convert::FromSpecImpl;
use vstd::string::StringExecFns;

verus! {

/// Errors that may occur between loading a program and the end of its run.
#[derive(Debug)]
pub enum BfError {
    /// Error during parsing.
    Parse(ParseError),
    /// Error during execution.
    Runtime(InterpreterError),
    /// Error during I/O operations of the host.
    Io(std::io::Error),
}

impl From<ParseError> for BfError {
    fn from(error: ParseError) -> (wrapped: Self) {
        BfError::Parse(error)
    }
}

impl FromSpecImpl<ParseError> for BfError {
    open spec fn obeys_from_spec() -> bool {
        true
    }

    open spec fn from_spec(error: ParseError) -> Self {
        BfError::Parse(error)
    }
}

impl From<InterpreterError> for BfError {
    fn from(error: InterpreterError) -> (wrapped: Self) {
        BfError::Runtime(error)
    }
}

impl FromSpecImpl<InterpreterError> for BfError {
    open spec fn obeys_from_spec() -> bool {
        true
    }

    open spec fn from_spec(error: InterpreterError) -> Self {
        BfError::Runtime(error)
    }
}

impl From<std::io::Error> for BfError {
    fn from(error: std::io::Error) -> (wrapped: Self) {
        BfError::Io(error)
    }
}

impl FromSpecImpl<std::io::Error> for BfError {
    open spec fn obeys_from_spec() -> bool {
        true
    }

    open spec fn from_spec(error: std::io::Error) -> Self {
        BfError::Io(error)
    }
}

impl BfError {
    /// What the message of the error is, given the text of its cause where
    /// the error wraps a failure of the host's I/O.
    pub open spec fn text(self, cause: Seq<char>) -> Seq<char> {
        match self {
            BfError::Parse(e) => "Parse error: "@ + parse_error_text(e),
            BfError::Runtime(e) => "Runtime error: "@ + e.text(cause),
            BfError::Io(_) => "I/O error: "@ + cause,
        }
    }

    /// The error as a message for the user: the family of the error, then
    /// the message of the error that is wrapped.
    pub fn to_string(&self) -> (text: String)
        ensures
            exists|cause: Seq<char>| text@ == self.text(cause),
    {
        match self {
            BfError::Parse(e) => {
                let inner = e.to_string();
                let text = String::from_str("Parse error: ").concat(inner.as_str());
                assert(text@ == self.text(Seq::empty()));
                text
            },
            BfError::Runtime(e) => {
                let inner = e.to_string();
                let ghost cause = choose|cause: Seq<char>| inner@ == e.text(cause);
                let text = String::from_str("Runtime error: ").concat(inner.as_str());
                assert(text@ == self.text(cause));
                text
            },
            BfError::Io(e) => {
                let cause = io_error_text(e);
                let text = String::from_str("I/O error: ").concat(cause.as_str());
                assert(text@ == self.text(cause@));
                text
            },
        }
    }
}

} // verus!
