//! The traditional regular expression notation: lexer and parser.

pub mod token;
pub mod lexer;
pub mod parser;
pub mod scan;
pub mod grammar;
