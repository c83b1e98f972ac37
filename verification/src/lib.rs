//! A type checker for a small language with linear, shared and ordinary values.

pub mod acceptance;
pub mod accounting;
pub mod ast;
pub mod complaints;
pub mod composing;
pub mod diagnostics;
pub mod error;
pub mod grammar;
pub mod lexical;
pub mod linearity;
pub mod names;
pub mod parser;
pub mod printing;
pub mod reading;
pub mod report;
pub mod scoping;
pub mod shifting;
pub mod text;
pub mod tokens;
pub mod typeck;
pub mod typing;
