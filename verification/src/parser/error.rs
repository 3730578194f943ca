use crate::text::append_decimal;
use crate::text::decimal_text;
use vstd::prelude::*;
use vstd::string::StringExecFns;

verus! {

/// Why a token sequence is no program.
#[derive(Debug, Clone, Copy, PartialEq, Eq, Structural)]
pub enum ParseError {
    /// A loop start `[` without a matching `]` after it.
    UnmatchedLoopStart { position: Option<usize> },
    /// A loop end `]` without a matching `[` before it.
    UnmatchedLoopEnd { position: Option<usize> },
}

/// Where an error was found, as the end of a message: nothing where the
/// position is not known.
pub open spec fn position_text(position: Option<usize>) -> Seq<char> {
    match position {
        Some(p) => " at position "@ + decimal_text(p as nat),
        None => Seq::empty(),
    }
}

/// The message of a parse error.
pub open spec fn parse_error_text(error: ParseError) -> Seq<char> {
    match error {
        ParseError::UnmatchedLoopStart { position } => "Unmatched loop start"@ + position_text(
            position,
        ),
        ParseError::UnmatchedLoopEnd { position } => "Unmatched loop end"@ + position_text(
            position,
        ),
    }
}

impl ParseError {
    /// The error as a message for the user.
    pub fn to_string(&self) -> (text: String)
        ensures
            text@ == parse_error_text(*self),
    {
        let (mut text, position) = match self {
            ParseError::UnmatchedLoopStart { position } => (
                String::from_str("Unmatched loop start"),
                *position,
            ),
            ParseError::UnmatchedLoopEnd { position } => (
                String::from_str("Unmatched loop end"),
                *position,
            ),
        };
        let ghost head = text@;
        match position {
            Some(p) => {
                text.append(" at position ");
                append_decimal(&mut text, p);
                assert(text@ =~= head + position_text(position));
            },
            None => {
                assert(text@ =~= head + position_text(position));
            },
        }
        text
    }
}

} // verus!
