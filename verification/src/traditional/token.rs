use vstd::prelude::*;

use crate::position::Range;

verus! {

/// The counts that a `{...}` repetition allows.
#[derive(Debug, PartialEq, Eq, Clone, Copy, Structural)]
pub enum Repetition {
    /// `{m}`
    Repeat(usize),
    /// `{m,}`
    RepeatFrom(usize),
    /// `{m,n}`
    RepeatRange(usize, usize),
}

/// The tokens of the traditional notation.
#[derive(Debug, PartialEq, Clone)]
pub enum Token {
    /// A literal character, escaped or not.
    Char(char),
    /// `a-z` in a character set.
    CharRange(char, char),
    /// `\w`, `\W`, `\d`, `\D`, `\s` or `\S`, by its letter.
    PresetCharSet(char),
    /// `[`
    CharSetStart,
    /// `[^`
    CharSetStartNegative,
    /// `]`
    CharSetEnd,
    /// `(`
    GroupStart,
    /// `)`
    GroupEnd,
    /// `(?:`
    NonCaptureGroupStart,
    /// `(?<name>`
    NamedCaptureGroupStart(String),
    /// `(?=`
    LookAheadGroupStart,
    /// `(?!`
    LookAheadNegativeGroupStart,
    /// `(?<=`
    LookBehindGroupStart,
    /// `(?<!`
    LookBehindNegativeGroupStart,
    /// `?`
    Optional,
    /// `??`
    LazyOptional,
    /// `+`
    OneOrMore,
    /// `+?`
    LazyOneOrMore,
    /// `*`
    ZeroOrMore,
    /// `*?`
    LazyZeroOrMore,
    /// `{...}`, lazy when a `?` follows.
    Repetition(Repetition, bool),
    /// `^`
    LineBoundaryAssertionStart,
    /// `$`
    LineBoundaryAssertionEnd,
    /// `\b` (false) or `\B` (true).
    WordBoundaryAssertion(bool),
    /// `.`
    Dot,
    /// `|`
    LogicOr,
    /// `\1`, `\2`, ...
    BackReferenceNumber(usize),
    /// `\k<name>`
    BackReferenceName(String),
}

/// A token together with the range of source characters it came from.
#[derive(Debug, PartialEq, Clone)]
pub struct TokenWithRange {
    pub token: Token,
    pub range: Range,
}

impl TokenWithRange {
    pub fn new(token: Token, range: Range) -> (r: TokenWithRange)
        ensures
            r.token == token,
            r.range == range,
    {
        TokenWithRange { token, range }
    }
}

/// A copy of a token.
pub fn clone_token(t: &Token) -> (r: Token)
    ensures
        r == *t,
{
    match t {
        Token::Char(c) => Token::Char(*c),
        Token::CharRange(a, b) => Token::CharRange(*a, *b),
        Token::PresetCharSet(c) => Token::PresetCharSet(*c),
        Token::CharSetStart => Token::CharSetStart,
        Token::CharSetStartNegative => Token::CharSetStartNegative,
        Token::CharSetEnd => Token::CharSetEnd,
        Token::GroupStart => Token::GroupStart,
        Token::GroupEnd => Token::GroupEnd,
        Token::NonCaptureGroupStart => Token::NonCaptureGroupStart,
        Token::NamedCaptureGroupStart(s) => Token::NamedCaptureGroupStart(s.clone()),
        Token::LookAheadGroupStart => Token::LookAheadGroupStart,
        Token::LookAheadNegativeGroupStart => Token::LookAheadNegativeGroupStart,
        Token::LookBehindGroupStart => Token::LookBehindGroupStart,
        Token::LookBehindNegativeGroupStart => Token::LookBehindNegativeGroupStart,
        Token::Optional => Token::Optional,
        Token::LazyOptional => Token::LazyOptional,
        Token::OneOrMore => Token::OneOrMore,
        Token::LazyOneOrMore => Token::LazyOneOrMore,
        Token::ZeroOrMore => Token::ZeroOrMore,
        Token::LazyZeroOrMore => Token::LazyZeroOrMore,
        Token::Repetition(r, l) => Token::Repetition(*r, *l),
        Token::LineBoundaryAssertionStart => Token::LineBoundaryAssertionStart,
        Token::LineBoundaryAssertionEnd => Token::LineBoundaryAssertionEnd,
        Token::WordBoundaryAssertion(b) => Token::WordBoundaryAssertion(*b),
        Token::Dot => Token::Dot,
        Token::LogicOr => Token::LogicOr,
        Token::BackReferenceNumber(n) => Token::BackReferenceNumber(*n),
        Token::BackReferenceName(s) => Token::BackReferenceName(s.clone()),
    }
}

} // verus!
