//! A backtracking regular-expression engine: parser, compiler and matcher, each proved
//! against a mathematical model of what it computes.
//!
//! A pattern is parsed into a syntax tree ([`parser`], after the grammar in [`grammar`]),
//! the tree is compiled into a program ([`compiler`]), and the program is run against an
//! input ([`vm`]). What a pattern means is defined on its tree in [`semantics`]; [`laws`]
//! holds what is proved of the three together.

pub mod ast;
pub mod classes;
pub mod compiler;
pub mod driver;
pub mod error;
pub mod grammar;
pub mod laws;
pub mod numbering;
pub mod parser;
pub mod passage;
pub mod semantics;
pub mod text;
pub mod vm;
