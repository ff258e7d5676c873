//! An interpreter for a small tape-machine language: eight Brainfuck-style
//! operations plus indirect jumps, jump restores and a free-block allocator.
//!
//! The pipeline is `lexify` (text to symbols), `parse` (symbols to folded
//! instructions), `calculate_branches` (bracket table) and `Program`, whose
//! `step` runs one instruction at a time and hands output and input to the
//! caller.

pub mod lexer;
pub mod machine;
pub mod parser;
pub mod table;
pub mod text;
pub mod vm;

pub use lexer::{lexify, Token};
pub use machine::TAPE_LEN;
pub use parser::{calculate_branches, parse, Instruction};
pub use vm::{Program, Status};
