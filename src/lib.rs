//! The statement layer of a lossless concrete-syntax-tree parser for a
//! JavaScript-family language: the statement node model, the trivia that
//! keeps every source byte recoverable, and a recursive-descent statement
//! parser with automatic semicolon insertion and error recovery.
pub mod span;
pub mod expr;
pub mod token;
pub mod stmt;
pub mod parser;
