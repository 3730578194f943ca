use crate::interpreter::error::InterpreterError;
use crate::interpreter::semantics::drive;
use crate::interpreter::semantics::grown;
use crate::interpreter::semantics::react;
use crate::interpreter::semantics::Config;
use crate::parser::lemma_loop_view;
use crate::parser::nodes;
use crate::parser::BfOp;
use crate::parser::Node;
use crate::parser::OptimizedOp;
use vstd::prelude::*;

verus! {

/// What the host tells the machine when it hands control back.
#[derive(Debug)]
pub enum Event {
    /// Nothing happened: the machine is started, or goes on after a yield.
    Idle,
    /// The byte that the machine asked to write was written and flushed.
    Written,
    /// Writing the byte failed.
    WriteFailed(std::io::Error),
    /// The byte that the machine asked to read.
    Byte(u8),
    /// The input is exhausted.
    EndOfInput,
    /// Reading failed otherwise.
    ReadFailed(std::io::Error),
}

/// What the machine asks of the host when it hands control over.
#[derive(Debug)]
pub enum Action {
    /// The program has been executed to its end.
    Halt,
    /// Write this byte to the output and flush, then report `Written` or
    /// `WriteFailed`.
    Write(u8),
    /// Read one byte from the input, then report `Byte`, `EndOfInput` or
    /// `ReadFailed`.
    Read,
    /// The budget of steps is used up; hand control back with `Idle`.
    Yield,
    /// The run is aborted with this error.
    Fail(InterpreterError),
}

/// A sequence of operations under execution and the index of the operation
/// that comes next.
pub struct Frame<'a> {
    pub ops: &'a [BfOp],
    pub index: usize,
}

impl<'a> Frame<'a> {
    /// The operations of the frame that are still to be executed.
    pub open spec fn rest(self) -> Seq<Node> {
        nodes(self.ops@).skip(self.index as int)
    }
}

/// The operations that a stack of frames still has to execute: those of the
/// topmost frame, which is the last, first.
pub open spec fn flatten(frames: Seq<Frame>) -> Seq<Node>
    decreases frames.len(),
{
    if frames.len() == 0 {
        Seq::empty()
    } else {
        frames.last().rest() + flatten(frames.drop_last())
    }
}

/// The state of one run: the tape, the pointer, and what is left to execute.
pub struct Interpreter<'a> {
    memory: Vec<u8>,
    pointer: usize,
    frames: Vec<Frame<'a>>,
}

impl<'a> View for Interpreter<'a> {
    type V = Config;

    closed spec fn view(&self) -> Config {
        Config { code: flatten(self.frames@), cells: self.memory@, pointer: self.pointer as int }
    }
}

impl<'a> Interpreter<'a> {
    /// The pointer stands on a cell, and no frame is past its end.
    pub closed spec fn well_formed(&self) -> bool {
        &&& self.pointer < self.memory@.len()
        &&& forall|i: int|
            0 <= i < self.frames@.len() ==> (#[trigger] self.frames@[i]).index
                <= self.frames@[i].ops@.len()
    }

    /// The topmost frame has an operation left.
    closed spec fn top_pending(&self) -> bool {
        self.frames@.len() > 0 && self.frames@.last().index < self.frames@.last().ops@.len()
    }

    /// A machine with nothing to execute, a tape of 30,000 zero cells and
    /// the pointer on the first.
    pub fn new() -> (interpreter: Self)
        ensures
            interpreter.well_formed(),
            interpreter@.well_formed(),
            interpreter@.code == Seq::<Node>::empty(),
            interpreter@.cells == Seq::new(30_000, |i: int| 0u8),
            interpreter@.pointer == 0,
    {
        let memory: Vec<u8> = vec![0u8; 30_000];
        assert(memory@ =~= Seq::new(30_000, |i: int| 0u8));
        Interpreter { memory, pointer: 0, frames: Vec::new() }
    }

    /// The value of the current cell.
    pub fn current_cell(&self) -> (value: u8)
        requires
            self.well_formed(),
        ensures
            value == self@.cell(),
    {
        self.memory[self.pointer]
    }

    /// The index of the current cell.
    pub fn pointer(&self) -> (pointer: usize)
        ensures
            pointer == self@.pointer,
    {
        self.pointer
    }

    /// The tape.
    pub fn memory(&self) -> (cells: &[u8])
        ensures
            cells@ == self@.cells,
    {
        self.memory.as_slice()
    }

    /// Puts `ops` in front of what is left to execute, and runs the machine
    /// until it needs the host, comes to an end, or has made `budget` steps
    /// after the first.
    pub fn execute(&mut self, ops: &'a [BfOp], budget: usize) -> (action: Action)
        requires
            old(self).well_formed(),
        ensures
            final(self).well_formed(),
            final(self)@.well_formed(),
            (final(self)@, action) == drive(
                Config { code: nodes(ops@) + old(self)@.code, ..old(self)@ },
                Event::Idle,
                budget as nat,
            ),
    {
        self.frames.push(Frame { ops, index: 0 });
        proof {
            assert(self.frames@.drop_last() =~= old(self).frames@);
            assert(nodes(ops@).skip(0) =~= nodes(ops@));
        }
        self.resume(Event::Idle, budget)
    }

    /// Hands `event` to the machine and runs it until it needs the host,
    /// comes to an end, or has made `budget` steps after the first.
    pub fn resume(&mut self, event: Event, budget: usize) -> (action: Action)
        requires
            old(self).well_formed(),
        ensures
            final(self).well_formed(),
            final(self)@.well_formed(),
            (final(self)@, action) == drive(old(self)@, event, budget as nat),
    {
        let mut outcome = self.step(event);
        let mut left: usize = budget;
        while outcome.is_none() && left > 0
            invariant
                self.well_formed(),
                drive(old(self)@, event, budget as nat) == match outcome {
                    Some(action) => (self@, action),
                    None => if left == 0 {
                        (self@, Action::Yield)
                    } else {
                        drive(self@, Event::Idle, (left - 1) as nat)
                    },
                },
            decreases left,
        {
            outcome = self.step(Event::Idle);
            left -= 1;
        }
        match outcome {
            Some(action) => action,
            None => Action::Yield,
        }
    }

    /// Drops the frames on top that have nothing left to execute.
    fn settle(&mut self)
        requires
            old(self).well_formed(),
        ensures
            final(self).well_formed(),
            final(self)@ == old(self)@,
            final(self).frames@.len() > 0 ==> final(self).top_pending(),
            final(self).frames@.len() == 0 ==> final(self)@.code.len() == 0,
    {
        while self.frames.len() > 0 && self.frames[self.frames.len() - 1].index
            >= self.frames[self.frames.len() - 1].ops.len()
            invariant
                self.well_formed(),
                self@ == old(self)@,
            decreases self.frames@.len(),
        {
            let ghost before = self.frames@;
            self.frames.pop();
            proof {
                assert(self.frames@ =~= before.drop_last());
                assert(before.last().rest() =~= Seq::<Node>::empty());
                assert(before.last().rest() + flatten(before.drop_last()) =~= flatten(
                    before.drop_last(),
                ));
            }
        }
    }

    /// Moves the topmost frame to its next operation.
    fn advance(&mut self)
        requires
            old(self).well_formed(),
            old(self).top_pending(),
        ensures
            final(self).well_formed(),
            final(self).memory == old(self).memory,
            final(self).pointer == old(self).pointer,
            final(self)@.code == old(self)@.code.skip(1),
    {
        let ghost before = self.frames@;
        let top = self.frames.pop().unwrap();
        assert(top == before.last());
        assert(vstd::slice::spec_slice_len(top.ops) == top.ops@.len());
        let next = Frame { ops: top.ops, index: top.index + 1 };
        self.frames.push(next);
        proof {
            assert(self.frames@.drop_last() =~= before.drop_last());
            assert(next.rest() =~= before.last().rest().skip(1));
            assert((before.last().rest() + flatten(before.drop_last())).skip(1) =~= next.rest()
                + flatten(before.drop_last()));
        }
    }

    /// One step of the machine.
    fn step(&mut self, event: Event) -> (action: Option<Action>)
        requires
            old(self).well_formed(),
        ensures
            final(self).well_formed(),
            final(self)@.well_formed(),
            (final(self)@, action) == react(old(self)@, event),
    {
        self.settle();
        if self.frames.len() == 0 {
            return Some(Action::Halt);
        }
        let top = &self.frames[self.frames.len() - 1];
        let ops: &'a [BfOp] = top.ops;
        let index = top.index;
        let ghost code = self@.code;
        proof {
            assert(code[0] == ops@[index as int]@);
        }
        match &ops[index] {
            BfOp::PointerIncrement(offset) => {
                let offset = *offset;
                if offset < 0 {
                    let distance: usize = if offset == isize::MIN {
                        (isize::MAX as usize) + 1
                    } else {
                        (-offset) as usize
                    };
                    if self.pointer >= distance {
                        self.pointer -= distance;
                        self.advance();
                        None
                    } else {
                        Some(
                            Action::Fail(
                                InterpreterError::PointerUnderflow {
                                    position: self.pointer,
                                    attempted_move: distance,
                                },
                            ),
                        )
                    }
                } else {
                    let distance: usize = offset as usize;
                    if self.pointer >= isize::MAX as usize || distance >= isize::MAX as usize
                        - self.pointer {
                        Some(
                            Action::Fail(
                                InterpreterError::PointerOverflow {
                                    position: self.pointer,
                                    attempted_move: distance,
                                },
                            ),
                        )
                    } else {
                        let ghost before = self.memory@;
                        self.pointer += distance;
                        if self.pointer >= self.memory.len() {
                            self.memory.resize(self.pointer + 1, 0u8);
                        }
                        proof {
                            assert(self.memory@ =~= grown(before, self.pointer + 1));
                        }
                        self.advance();
                        None
                    }
                }
            },
            BfOp::Increment(count) => {
                let wide: i16 = self.memory[self.pointer] as i16 + *count as i16;
                let value: u8 = if wide < 0 {
                    (wide + 256) as u8
                } else if wide > 255 {
                    (wide - 256) as u8
                } else {
                    wide as u8
                };
                self.memory[self.pointer] = value;
                self.advance();
                None
            },
            BfOp::OutputByte => {
                match event {
                    Event::Written => {
                        self.advance();
                        None
                    },
                    Event::WriteFailed(cause) => Some(
                        Action::Fail(InterpreterError::OutputError(cause)),
                    ),
                    _ => Some(Action::Write(self.memory[self.pointer])),
                }
            },
            BfOp::InputByte => {
                match event {
                    Event::Byte(byte) => {
                        self.memory[self.pointer] = byte;
                        self.advance();
                        None
                    },
                    Event::EndOfInput => {
                        self.advance();
                        None
                    },
                    Event::ReadFailed(cause) => Some(
                        Action::Fail(InterpreterError::InputError(cause)),
                    ),
                    _ => Some(Action::Read),
                }
            },
            BfOp::Loop(body) => {
                proof {
                    lemma_loop_view(*body);
                }
                if self.memory[self.pointer] != 0 {
                    let ghost before = self.frames@;
                    self.frames.push(Frame { ops: body.as_slice(), index: 0 });
                    proof {
                        assert(self.frames@.drop_last() =~= before);
                        assert(nodes(body@).skip(0) =~= nodes(body@));
                    }
                } else {
                    self.advance();
                }
                None
            },
            BfOp::Optimized(OptimizedOp::ClearCell) => {
                self.memory[self.pointer] = 0;
                self.advance();
                None
            },
        }
    }
}

} // verus!
