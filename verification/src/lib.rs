//! A verified brainfuck toolchain: lexer, parser, peephole optimizer and a
//! resumable interpreter, each with a contract over a mathematical model.

pub mod debug;
pub mod error;
pub mod interpreter;
pub mod lexer;
pub mod optimizer;
pub mod parser;
pub mod text;
