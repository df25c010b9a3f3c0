use vstd::prelude::*;

use crate::position::Range;

verus! {

/// The tokens of the ANRE notation.
#[derive(Debug, PartialEq, Clone)]
pub enum Token {
    /// `||`
    LogicOr,
    /// `!`
    Not,
    /// `..`
    Range,
    /// `.`
    Dot,
    /// `#`
    Hash,
    /// `^`
    Caret,
    /// `[`
    BracketOpen,
    /// `]`
    BracketClose,
    /// `(`
    ParenthesisOpen,
    /// `)`
    ParenthesisClose,
    /// `?`
    Optional,
    /// `??`
    LazyOptional,
    /// `+`
    OneOrMore,
    /// `+?`
    LazyOneOrMore,
    /// `*`
    ZeroOrMore,
    /// `*?`
    LazyZeroOrMore,
    /// `{`
    BraceOpen,
    /// `}`
    BraceClose,
    /// A decimal number, `_` may separate digits.
    Number(usize),
    /// A character literal, `'a'`.
    Char(char),
    /// A string literal, `"abc"`.
    String(String),
    /// A name.
    Identifier(String),
    /// One of the reserved words `define` and `as`.
    Keyword(String),
}

/// A token together with the range of source characters it came from.
#[derive(Debug, PartialEq, Clone)]
pub struct TokenWithRange {
    pub token: Token,
    pub range: Range,
}

impl TokenWithRange {
    pub fn new(token: Token, range: Range) -> (r: TokenWithRange)
        ensures
            r.token == token,
            r.range == range,
    {
        TokenWithRange { token, range }
    }
}

} // verus!

verus! {

use crate::charclass::{is_digit, is_hex_digit, number_value, hex_value, is_ident_start, is_ident_char, is_scalar_value};
use crate::reader::{range_in, position_in};
use crate::error::AnreError;

/// Characters that end a name or a number in the ANRE notation.
pub open spec fn is_terminator(c: char) -> bool {
    c == ' ' || c == '\t' || c == '\r' || c == '\n' || c == ',' || c == '|' || c == '!' || c
        == '[' || c == ']' || c == '(' || c == ')' || c == '/' || c == '\'' || c == '"' || c
        == '.' || c == '#' || c == '^' || c == '?' || c == '+' || c == '*' || c == '{' || c
        == '}'
}

/// The reserved words.
pub open spec fn is_keyword(s: Seq<char>) -> bool {
    s == seq!['d', 'e', 'f', 'i', 'n', 'e'] || s == seq!['a', 's']
}

/// The character that a backslash followed by `c` stands for, when `c` is
/// not `u`.
pub open spec fn simple_escape(c: char) -> Option<char> {
    if c == '\\' {
        Some('\\')
    } else if c == '\'' {
        Some('\'')
    } else if c == '"' {
        Some('"')
    } else if c == 't' {
        Some('\t')
    } else if c == 'r' {
        Some('\r')
    } else if c == 'n' {
        Some('\n')
    } else if c == '0' {
        Some('\0')
    } else {
        None
    }
}

/// The index of the first character at or after `k` that is not a
/// hexadecimal digit (or the length of the text).
pub open spec fn hex_run_end(text: Seq<char>, k: int) -> int
    decreases text.len() - k,
{
    if 0 <= k < text.len() && is_hex_digit(text[k]) {
        hex_run_end(text, k + 1)
    } else {
        k
    }
}

/// A Unicode escape `\u{h..h}` that starts at index `i`: one to six
/// hexadecimal digits that name a Unicode scalar value. Gives the
/// character and the index after the closing brace.
pub open spec fn unicode_escape_at(text: Seq<char>, i: int) -> Option<(char, int)> {
    let start = i + 3;
    let end = hex_run_end(text, start);
    if 0 <= i && i + 2 < text.len() && text[i + 1] == 'u' && text[i + 2] == '{' && end
        < text.len() && text[end] == '}' && 1 <= end - start <= 6 && is_scalar_value(
        hex_value(text.subrange(start, end)),
    ) {
        Some((hex_value(text.subrange(start, end)) as char, end + 1))
    } else {
        None
    }
}

/// An escape sequence that starts with the backslash at index `i`: gives
/// the character it stands for and the index after it.
pub open spec fn escape_at(text: Seq<char>, i: int) -> Option<(char, int)> {
    if 0 <= i && i + 1 < text.len() && text[i] == '\\' {
        if text[i + 1] == 'u' {
            unicode_escape_at(text, i)
        } else {
            match simple_escape(text[i + 1]) {
                Some(c) => Some((c, i + 2)),
                None => None,
            }
        }
    } else {
        None
    }
}

/// The character that the content `text[x..y)` of a character literal
/// stands for.
pub open spec fn char_content(text: Seq<char>, x: int, y: int) -> Option<char> {
    if 0 <= x && y == x + 1 && y <= text.len() && text[x] != '\\' && text[x] != '\'' {
        Some(text[x])
    } else if 0 <= x < text.len() && text[x] == '\\' {
        match escape_at(text, x) {
            Some((c, k)) => if k == y {
                Some(c)
            } else {
                None
            },
            None => None,
        }
    } else {
        None
    }
}

/// The content `text[x..y)` of a string literal stands for the characters
/// `s`: ordinary characters stand for themselves and escape sequences for
/// the character they name.
pub open spec fn decodes(text: Seq<char>, x: int, y: int, s: Seq<char>) -> bool
    decreases y - x,
{
    if x >= y {
        x == y && s.len() == 0
    } else if 0 <= x < text.len() && text[x] == '\\' {
        match escape_at(text, x) {
            Some((c, k)) => x < k <= y && s.len() > 0 && s[0] == c && decodes(
                text,
                k,
                y,
                s.drop_first(),
            ),
            None => false,
        }
    } else {
        0 <= x < text.len() && text[x] != '"' && s.len() > 0 && s[0] == text[x] && decodes(
            text,
            x + 1,
            y,
            s.drop_first(),
        )
    }
}

/// The token `token` is what the characters `text[a..=b]` stand for.
pub open spec fn token_source(token: Token, text: Seq<char>, a: int, b: int) -> bool {
    let src = text.subrange(a, b + 1);
    match token {
        Token::LogicOr => src == seq!['|', '|'],
        Token::Not => src == seq!['!'],
        Token::Range => src == seq!['.', '.'],
        Token::Dot => src == seq!['.'],
        Token::Hash => src == seq!['#'],
        Token::Caret => src == seq!['^'],
        Token::BracketOpen => src == seq!['['],
        Token::BracketClose => src == seq![']'],
        Token::ParenthesisOpen => src == seq!['('],
        Token::ParenthesisClose => src == seq![')'],
        Token::Optional => src == seq!['?'],
        Token::LazyOptional => src == seq!['?', '?'],
        Token::OneOrMore => src == seq!['+'],
        Token::LazyOneOrMore => src == seq!['+', '?'],
        Token::ZeroOrMore => src == seq!['*'],
        Token::LazyZeroOrMore => src == seq!['*', '?'],
        Token::BraceOpen => src == seq!['{'],
        Token::BraceClose => src == seq!['}'],
        Token::Number(n) => {
            &&& is_digit(src[0])
            &&& forall|k: int| 0 <= k < src.len() ==> is_digit(#[trigger] src[k]) || src[k] == '_'
            &&& n == number_value(src)
        },
        Token::Identifier(s) => {
            &&& s@ == src
            &&& is_ident_start(src[0])
            &&& forall|k: int| 0 <= k < src.len() ==> is_ident_char(#[trigger] src[k])
            &&& !is_keyword(src)
        },
        Token::Keyword(s) => s@ == src && is_keyword(src),
        Token::Char(c) => {
            &&& src.len() >= 3
            &&& text[a] == '\''
            &&& text[b] == '\''
            &&& char_content(text, a + 1, b) == Some(c)
        },
        Token::String(s) => {
            &&& src.len() >= 2
            &&& text[a] == '"'
            &&& text[b] == '"'
            &&& decodes(text, a + 1, b, s@)
        },
    }
}

/// Every token comes from the characters of its range, the ranges lie in
/// the text and follow each other without overlapping.
pub open spec fn tokens_from_text(tokens: Seq<TokenWithRange>, text: Seq<char>) -> bool {
    &&& forall|i: int|
        0 <= i < tokens.len() ==> range_in(text, #[trigger] tokens[i].range) && token_source(
            tokens[i].token,
            text,
            tokens[i].range.start.index as int,
            tokens[i].range.end_inclusive.index as int,
        )
    &&& forall|i: int, j: int|
        0 <= i < j < tokens.len() ==> (#[trigger] tokens[i]).range.end_inclusive.index
            < (#[trigger] tokens[j]).range.start.index
}

/// The locations that an error names lie in the text.
pub open spec fn error_in(e: AnreError, text: Seq<char>) -> bool {
    match e {
        AnreError::MessageWithPosition(_, p) => position_in(text, p),
        AnreError::MessageWithRange(_, r) => range_in(text, r),
        _ => true,
    }
}

} // verus!

verus! {

/// A copy of a token.
pub fn clone_token(t: &Token) -> (r: Token)
    ensures
        r == *t,
{
    match t {
        Token::LogicOr => Token::LogicOr,
        Token::Not => Token::Not,
        Token::Range => Token::Range,
        Token::Dot => Token::Dot,
        Token::Hash => Token::Hash,
        Token::Caret => Token::Caret,
        Token::BracketOpen => Token::BracketOpen,
        Token::BracketClose => Token::BracketClose,
        Token::ParenthesisOpen => Token::ParenthesisOpen,
        Token::ParenthesisClose => Token::ParenthesisClose,
        Token::Optional => Token::Optional,
        Token::LazyOptional => Token::LazyOptional,
        Token::OneOrMore => Token::OneOrMore,
        Token::LazyOneOrMore => Token::LazyOneOrMore,
        Token::ZeroOrMore => Token::ZeroOrMore,
        Token::LazyZeroOrMore => Token::LazyZeroOrMore,
        Token::BraceOpen => Token::BraceOpen,
        Token::BraceClose => Token::BraceClose,
        Token::Number(n) => Token::Number(*n),
        Token::Char(c) => Token::Char(*c),
        Token::String(s) => Token::String(s.clone()),
        Token::Identifier(s) => Token::Identifier(s.clone()),
        Token::Keyword(s) => Token::Keyword(s.clone()),
    }
}

/// A copy of a token with its range.
pub fn clone_token_with_range(t: &TokenWithRange) -> (r: TokenWithRange)
    ensures
        r == *t,
{
    TokenWithRange { token: clone_token(&t.token), range: t.range }
}

/// The token is the keyword `define`.
pub open spec fn is_define(t: Token) -> bool {
    t matches Token::Keyword(s) && s@ == seq!['d', 'e', 'f', 'i', 'n', 'e']
}

} // verus!
