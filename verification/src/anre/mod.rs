//! The ANRE notation: lexer, macro expander, parser and printer.

pub mod token;
pub mod scan;
pub mod lexer;
pub mod printer;
pub mod macro_expander;
pub mod names;
pub mod grammar;
pub mod parser;
