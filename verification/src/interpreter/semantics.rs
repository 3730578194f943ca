use crate::interpreter::error::InterpreterError;
use crate::interpreter::interpreter::Action;
use crate::interpreter::interpreter::Event;
use crate::parser::Node;
use vstd::prelude::*;

verus! {

/// `cells`, with zero cells added behind so that it has at least `len` cells.
pub open spec fn grown(cells: Seq<u8>, len: int) -> Seq<u8> {
    if len > cells.len() {
        cells + Seq::new((len - cells.len()) as nat, |i: int| 0u8)
    } else {
        cells
    }
}

/// The cell value that `value + delta` is modulo 256.
pub open spec fn wrap_cell(value: u8, delta: i8) -> u8 {
    ((value + delta) % 256) as u8
}

/// The number of cells that a move by `delta` crosses.
pub open spec fn magnitude(delta: isize) -> int {
    if delta < 0 {
        -delta
    } else {
        delta as int
    }
}

/// What a move, a cell change or a clear does to the tape and the pointer.
///
/// A move to the left that would pass the first cell fails and changes
/// nothing. A move to the right adds zero cells as far as the pointer goes;
/// it fails where the tape would have more than `isize::MAX` cells, which
/// no tape can hold.
/// Other nodes change nothing here.
pub open spec fn effect(node: Node, cells: Seq<u8>, pointer: int) -> Result<
    (Seq<u8>, int),
    InterpreterError,
> {
    match node {
        Node::Move(delta) => if delta < 0 {
            if pointer + delta < 0 {
                Err(
                    InterpreterError::PointerUnderflow {
                        position: pointer as usize,
                        attempted_move: magnitude(delta) as usize,
                    },
                )
            } else {
                Ok((cells, pointer + delta))
            }
        } else {
            if pointer + delta >= isize::MAX {
                Err(
                    InterpreterError::PointerOverflow {
                        position: pointer as usize,
                        attempted_move: magnitude(delta) as usize,
                    },
                )
            } else {
                Ok((grown(cells, pointer + delta + 1), pointer + delta))
            }
        },
        Node::Add(delta) => Ok((cells.update(pointer, wrap_cell(cells[pointer], delta)), pointer)),
        Node::Clear => Ok((cells.update(pointer, 0u8), pointer)),
        _ => Ok((cells, pointer)),
    }
}

/// A machine between two steps: the operations still to be executed, the
/// tape and the pointer.
pub struct Config {
    pub code: Seq<Node>,
    pub cells: Seq<u8>,
    pub pointer: int,
}

impl Config {
    /// The pointer stands on a cell of the tape.
    pub open spec fn well_formed(self) -> bool {
        0 <= self.pointer < self.cells.len()
    }

    /// The value of the current cell.
    pub open spec fn cell(self) -> u8 {
        self.cells[self.pointer]
    }

    /// The machine behind its first operation.
    pub open spec fn advanced(self) -> Config {
        Config { code: self.code.skip(1), ..self }
    }
}

/// One step of the machine on the event that the host hands it.
///
/// The result is the machine after the step, and an action where the machine
/// needs the host or has come to an end. Without an action the first
/// operation was executed, or a loop was entered or left.
///
/// At an output the machine asks for the write and stays; it goes on once the
/// host reports the write. At an input it asks for the read and stays; it
/// goes on once the host hands it a byte, which it stores, or the end of the
/// input, which leaves the cell as it is. A failed read or write ends the
/// run. At other operations the event is not looked at.
pub open spec fn react(c: Config, event: Event) -> (Config, Option<Action>) {
    if c.code.len() == 0 {
        (c, Some(Action::Halt))
    } else {
        match c.code[0] {
            Node::Loop(body) => if c.cell() != 0 {
                (Config { code: body + c.code, ..c }, None)
            } else {
                (c.advanced(), None)
            },
            Node::Output => match event {
                Event::Written => (c.advanced(), None),
                Event::WriteFailed(cause) => (
                    c,
                    Some(Action::Fail(InterpreterError::OutputError(cause))),
                ),
                _ => (c, Some(Action::Write(c.cell()))),
            },
            Node::Input => match event {
                Event::Byte(byte) => (
                    Config { cells: c.cells.update(c.pointer, byte), ..c.advanced() },
                    None,
                ),
                Event::EndOfInput => (c.advanced(), None),
                Event::ReadFailed(cause) => (
                    c,
                    Some(Action::Fail(InterpreterError::InputError(cause))),
                ),
                _ => (c, Some(Action::Read)),
            },
            node => match effect(node, c.cells, c.pointer) {
                Ok((cells, pointer)) => (Config { code: c.code.skip(1), cells, pointer }, None),
                Err(e) => (c, Some(Action::Fail(e))),
            },
        }
    }
}

/// The machine's answer to one event: the step on the event, and then steps
/// without an event until the machine has an action for the host, or,
/// failing that, until `budget` further steps are done, when it yields.
pub open spec fn drive(c: Config, event: Event, budget: nat) -> (Config, Action)
    decreases budget,
{
    match react(c, event) {
        (after, Some(action)) => (after, action),
        (after, None) => if budget == 0 {
            (after, Action::Yield)
        } else {
            drive(after, Event::Idle, (budget - 1) as nat)
        },
    }
}

/// What the host has in store for one read: a byte, or a failure.
pub enum Incoming {
    Byte(u8),
    Failure(std::io::Error),
}

/// A machine together with its surroundings: the tape, the pointer, and a
/// host that is fixed in advance.
///
/// The host is what it will answer. `input` holds its answers to the reads
/// to come, one for each; behind them the input is exhausted. `sink` holds
/// its answers to the writes to come, an error where the write fails; behind
/// them every write succeeds. `output` is what has been written so far.
pub struct World {
    pub cells: Seq<u8>,
    pub pointer: int,
    pub input: Seq<Incoming>,
    pub sink: Seq<Option<std::io::Error>>,
    pub output: Seq<u8>,
}

impl World {
    /// The pointer stands on a cell of the tape.
    pub open spec fn well_formed(self) -> bool {
        0 <= self.pointer < self.cells.len()
    }

    /// The value of the current cell.
    pub open spec fn cell(self) -> u8 {
        self.cells[self.pointer]
    }

    /// What the host answers to the next write: an error, or none.
    pub open spec fn next_write(self) -> Option<std::io::Error> {
        if self.sink.len() > 0 {
            self.sink[0]
        } else {
            None
        }
    }

    /// The world after a write of `byte` that succeeded.
    pub open spec fn written(self, byte: u8) -> World {
        World {
            output: self.output.push(byte),
            sink: if self.sink.len() > 0 {
                self.sink.skip(1)
            } else {
                self.sink
            },
            ..self
        }
    }

    /// The world after a read that gave `byte`.
    pub open spec fn received(self, byte: u8) -> World {
        World { cells: self.cells.update(self.pointer, byte), input: self.input.skip(1), ..self }
    }
}

/// How a run with a given host ends, if it does within the steps allowed.
pub enum Outcome {
    /// Every operation was executed.
    Finished(World),
    /// The run was aborted with an error; what was done before remains.
    Failed(World, InterpreterError),
    /// The steps allowed did not suffice.
    OutOfFuel,
}

/// What executing one operation that is no loop does to the world.
///
/// An output appends the current cell to the output, or fails where the
/// host fails the write. An input stores the byte that the host has for it
/// in the current cell, leaves the cell as it is where the input is
/// exhausted, or fails where the host fails the read. A failure changes
/// nothing.
pub open spec fn perform(node: Node, w: World) -> Result<World, InterpreterError> {
    match node {
        Node::Output => match w.next_write() {
            Some(cause) => Err(InterpreterError::OutputError(cause)),
            None => Ok(w.written(w.cell())),
        },
        Node::Input => if w.input.len() > 0 {
            match w.input[0] {
                Incoming::Byte(byte) => Ok(w.received(byte)),
                Incoming::Failure(cause) => Err(InterpreterError::InputError(cause)),
            }
        } else {
            Ok(w)
        },
        other => match effect(other, w.cells, w.pointer) {
            Ok((cells, pointer)) => Ok(World { cells, pointer, ..w }),
            Err(e) => Err(e),
        },
    }
}

/// Runs `code` in world `w` for at most `fuel` steps.
///
/// A loop whose cell is not zero puts its body in front of itself; one whose
/// cell is zero is dropped. Each of these, and each other operation, is one
/// step.
pub open spec fn run(code: Seq<Node>, w: World, fuel: nat) -> Outcome
    decreases fuel,
{
    if code.len() == 0 {
        Outcome::Finished(w)
    } else if fuel == 0 {
        Outcome::OutOfFuel
    } else {
        match code[0] {
            Node::Loop(body) => if w.cell() != 0 {
                run(body + code, w, (fuel - 1) as nat)
            } else {
                run(code.skip(1), w, (fuel - 1) as nat)
            },
            node => match perform(node, w) {
                Ok(next) => run(code.skip(1), next, (fuel - 1) as nat),
                Err(e) => Outcome::Failed(w, e),
            },
        }
    }
}

} // verus!
