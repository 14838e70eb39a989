//! A minimal stack-based calculator: a lexer that turns a line of text into
//! tokens, and a stack-machine interpreter that executes them against a value
//! stack and a variable table.

pub mod error;
pub mod lexer;
pub mod token;
pub mod vm;
