//! Serotonin: a toy stack-oriented language that rewrites its programs into Brainfuck.
//!
//! The library holds the verified parts of the compiler: source spans, the
//! constraint solver used to decide which rewrite rule applies, the stack-effect
//! algebra, the generated constant tables and the small lexing helpers.

pub mod span;
pub mod solver;
pub mod config;
pub mod diagnostics;
pub mod typ;
pub mod stdlib;
pub mod lexer;
pub mod report;
pub mod tokens;
pub mod compiler;
pub mod ut;
