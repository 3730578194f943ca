//! Execution: a resumable machine over a growable tape, and the meaning of
//! programs that it realizes.

mod error;
mod interpreter;
pub mod laws;
mod semantics;

pub(crate) use error::io_error_text;
pub use error::move_error_text;
pub use error::InterpreterError;
pub use interpreter::flatten;
pub use interpreter::Action;
pub use interpreter::Event;
pub use interpreter::Frame;
pub use interpreter::Interpreter;
pub use semantics::drive;
pub use semantics::effect;
pub use semantics::grown;
pub use semantics::magnitude;
pub use semantics::perform;
pub use semantics::react;
pub use semantics::run;
pub use semantics::wrap_cell;
pub use semantics::Config;
pub use semantics::Incoming;
pub use semantics::Outcome;
pub use semantics::World;
