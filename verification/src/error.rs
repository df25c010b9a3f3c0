use vstd::prelude::*;

use crate::position::{Position, Range};

verus! {

/// The errors of lexing, parsing and compiling a pattern.
#[derive(Debug, PartialEq, Clone)]
pub enum AnreError {
    /// A general error without a location.
    Message(String),
    /// The text ended where more was expected.
    UnexpectedEndOfDocument(String),
    /// An error at one character.
    MessageWithPosition(String, Position),
    /// An error over a range of characters.
    MessageWithRange(String, Range),
}

/// An error, its message as characters.
pub enum ErrorView {
    Message(Seq<char>),
    UnexpectedEndOfDocument(Seq<char>),
    MessageWithPosition(Seq<char>, Position),
    MessageWithRange(Seq<char>, Range),
}

/// The error with its message as characters.
pub open spec fn error_view(e: AnreError) -> ErrorView {
    match e {
        AnreError::Message(m) => ErrorView::Message(m@),
        AnreError::UnexpectedEndOfDocument(m) => ErrorView::UnexpectedEndOfDocument(m@),
        AnreError::MessageWithPosition(m, p) => ErrorView::MessageWithPosition(m@, p),
        AnreError::MessageWithRange(m, r) => ErrorView::MessageWithRange(m@, r),
    }
}

} // verus!
