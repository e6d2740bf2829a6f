//! A small shell core: a lexer that turns a line into tokens, a parser that
//! builds a syntax tree from them, and an interpreter that runs the tree
//! against a registry of commands.
//!
//! - [`lexer`] and [`parser`] each define their language as mathematics and
//!   hold the program that is proved to compute it; [`lexer_laws`],
//!   [`parser_laws`] and [`line_laws`] state what follows for every line.
//! - [`env`] is the environment that commands run in.
//! - [`command`] says what a command and a factory of commands are, and
//!   [`io_adapters`] what a command reads from and writes to.
//! - [`interpreter`] resolves words, finds commands and runs pipelines.
//! - [`builtin`] and [`grep`] are commands that run inside the shell.
//! - [`external`] finds the program that a command name stands for.
//!
//! But for asking whether a path exists, nothing here touches the file
//! system, a process or the terminal: a program around the library does,
//! and hands it plain values.
pub mod builtin;
pub mod command;
pub mod env;
pub mod external;
pub mod grep;
pub mod interpreter;
pub mod io_adapters;
pub mod lexer;
pub mod lexer_laws;
pub mod line_laws;
pub mod parser;
pub mod parser_laws;
pub mod text;

pub use io_adapters::{MemReader, MemWriter};
