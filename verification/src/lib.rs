//! ANRE: a regular expression engine that accepts two syntaxes, the
//! "ANRE" notation (readable, function-call style) and the traditional
//! regular expression notation.
//!
//! The pipeline is: text -> tokens (lexer) -> AST (parser) -> route
//! (compiler) -> matching (process), wrapped by the `regex` module API.

pub mod position;
pub mod location;


pub mod text;
pub mod charposition;
pub mod utf8reader;
pub mod error;
pub mod ast;
pub mod anre;
pub mod reader;
pub mod charclass;
pub mod traditional;
pub mod transition;
pub mod route;
pub mod process;
pub mod compiler;
pub mod compiled;
pub mod agreement;
pub mod laws;

pub mod semantics;
pub mod regex;
