//! A small front end for an arithmetic expression language: a lexer, a
//! precedence-climbing parser, and tree walkers that render, check and
//! evaluate the parsed program, with diagnostics anchored to source spans.

pub mod ast;
pub mod diagnostics;
pub mod pipeline;
pub mod text;
