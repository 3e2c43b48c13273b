//! A tiny C-like expression language: a tokenizer, a precedence-climbing
//! parser that emits stack-machine instructions, and the stack machine that
//! runs them.
//!
//! Every failure is a value: a number literal too large for `i64` and a
//! malformed statement are syntax errors with the position of the offending
//! token; stack underflow, division by zero, a result outside `i64` and a read
//! of a name (names have no storage) are runtime faults with the position of
//! the instruction.

pub mod lexer;
pub mod parser;
pub mod semantics;
pub mod token;
pub mod vm;
