//! A library for reading `graph-log` lines: a tokenizer and a parser for the
//! line syntax, and the state that a graph display keeps of the graphs, nodes
//! and connections the log has mentioned.

pub mod text;
pub mod tokenize;
pub mod log;
pub mod keyed;
pub mod display;
