//! A C-family source preprocessor: a line-folding reader, a macro table,
//! a token-level macro expander, directive execution with nested
//! conditionals, and recursive header inclusion over a caller-supplied
//! set of header files.
//!
//! The engine is byte-oriented: sources, macro bodies and output are
//! byte strings.

pub mod bytes;
pub mod errors;
pub mod expand;
pub mod laws;
pub mod lexer;
pub mod lineiter;
pub mod macrotable;
pub mod preprocessor;
