//! The compiler from Serotonin to Brainfuck.
//!
//! A program is a set of modules, each a list of definitions. Compiling rewrites
//! the body of `main` with the definitions, until only Brainfuck code is left.
pub mod ast;
pub mod pattern;
pub mod gen;
pub mod source;
pub mod grammar;
pub mod parse;
pub mod semantic;
pub mod program;
pub mod text;
pub mod resolved;
pub mod progress;
