//! Demangling of symbols in the Microsoft Visual C++ encoding.

pub mod codes;
pub mod flags;
pub mod grammar;
pub mod laws;
pub mod lexer;
pub mod nesting;
pub mod parser;
pub mod reading;
pub mod rendering;
pub mod state;
pub mod succeeding;
pub mod tables;
