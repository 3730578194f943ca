use crate::text::append_decimal;
use crate::text::decimal_text;
use vstd::prelude::*;
use vstd::string::StringExecFns;

verus! {

/// `std::io::Error`, carried through unread: the cause of a failed read or
/// write as the host reported it.
#[verifier::external_type_specification]
#[verifier::external_body]
pub struct ExIoError(std::io::Error);

/// Errors that end a run.
#[derive(Debug)]
pub enum InterpreterError {
    /// A move to the left would have taken the pointer before the first cell.
    PointerUnderflow { position: usize, attempted_move: usize },
    /// A move to the right would have taken the pointer past the last cell
    /// that a tape can hold.
    PointerOverflow { position: usize, attempted_move: usize },
    /// Reading from the input failed.
    InputError(std::io::Error),
    /// Writing to the output failed.
    OutputError(std::io::Error),
}

/// The text that `std::io::Error` displays, by its `to_string`. It depends
/// on the platform, so nothing is claimed of it.
#[verifier::external_body]
pub(crate) fn io_error_text(error: &std::io::Error) -> (text: String) {
    error.to_string()
}

/// The message of a failed move: `direction` is `"left"` or `"right"`.
pub open spec fn move_error_text(
    name: Seq<char>,
    direction: Seq<char>,
    position: usize,
    attempted_move: usize,
) -> Seq<char> {
    name + ": attempted to move "@ + direction + " "@ + decimal_text(attempted_move as nat)
        + " steps when pointer was at position "@ + decimal_text(position as nat)
}

impl InterpreterError {
    /// What the message of the error is, given the text of its cause where
    /// it has one.
    pub open spec fn text(self, cause: Seq<char>) -> Seq<char> {
        match self {
            InterpreterError::PointerUnderflow { position, attempted_move } => move_error_text(
                "Pointer underflow"@,
                "left"@,
                position,
                attempted_move,
            ),
            InterpreterError::PointerOverflow { position, attempted_move } => move_error_text(
                "Pointer overflow"@,
                "right"@,
                position,
                attempted_move,
            ),
            InterpreterError::InputError(_) => "Input error: "@ + cause,
            InterpreterError::OutputError(_) => "Output error: "@ + cause,
        }
    }

    /// The error as a message for the user. For a failed read or write the
    /// message ends with the text of its cause.
    pub fn to_string(&self) -> (text: String)
        ensures
            exists|cause: Seq<char>| text@ == self.text(cause),
    {
        match self {
            InterpreterError::PointerUnderflow { position, attempted_move } => {
                let mut text = String::from_str("Pointer underflow");
                append_move(&mut text, "left", *position, *attempted_move);
                assert(text@ == self.text(Seq::empty()));
                text
            },
            InterpreterError::PointerOverflow { position, attempted_move } => {
                let mut text = String::from_str("Pointer overflow");
                append_move(&mut text, "right", *position, *attempted_move);
                assert(text@ == self.text(Seq::empty()));
                text
            },
            InterpreterError::InputError(err) => {
                let cause = io_error_text(err);
                let text = String::from_str("Input error: ").concat(cause.as_str());
                assert(text@ == self.text(cause@));
                text
            },
            InterpreterError::OutputError(err) => {
                let cause = io_error_text(err);
                let text = String::from_str("Output error: ").concat(cause.as_str());
                assert(text@ == self.text(cause@));
                text
            },
        }
    }
}

/// Appends the rest of the message of a failed move to its name.
fn append_move(text: &mut String, direction: &str, position: usize, attempted_move: usize)
    ensures
        final(text)@ == move_error_text(old(text)@, direction@, position, attempted_move),
{
    text.append(": attempted to move ");
    text.append(direction);
    text.append(" ");
    append_decimal(text, attempted_move);
    text.append(" steps when pointer was at position ");
    append_decimal(text, position);
}

} // verus!
