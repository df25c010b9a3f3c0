use vstd::prelude::*;

use crate::anre::token::{escape_at, hex_run_end, is_keyword, is_terminator, Token, TokenWithRange};
use crate::charclass::{is_digit, is_ident_char, is_ident_start, number_value};
use crate::reader::{pos_at, range_at};
use crate::error::ErrorView;

verus! {

// What the lexer of the ANRE notation reads from a text: at each index,
// a token or a stretch that it skips (blanks, commas and comments), and
// the index after it. A `None` means that the text is refused there.

/// The next character is `c`.
pub open spec fn next_is(text: Seq<char>, i: int, c: char) -> bool {
    0 <= i + 1 < text.len() && text[i + 1] == c
}

/// The index of the first line feed at or after `k` (or the length of the
/// text): where a line comment ends.
pub open spec fn line_end(text: Seq<char>, k: int) -> int
    decreases text.len() - k,
{
    if 0 <= k < text.len() && text[k] != '\n' {
        line_end(text, k + 1)
    } else {
        k
    }
}

/// The index after the `*/` that closes a block comment, read from `k`
/// with `depth` comments open; block comments nest.
pub open spec fn block_end(text: Seq<char>, k: int, depth: nat) -> Option<int>
    decreases text.len() - k,
{
    if !(0 <= k < text.len()) {
        None
    } else if text[k] == '/' && next_is(text, k, '*') {
        block_end(text, k + 2, depth + 1)
    } else if text[k] == '*' && next_is(text, k, '/') {
        if depth <= 1 {
            Some(k + 2)
        } else {
            block_end(text, k + 2, (depth - 1) as nat)
        }
    } else {
        block_end(text, k + 1, depth)
    }
}

/// The index of the first character at or after `k` that is neither a
/// digit nor `_` (or the length of the text).
pub open spec fn number_run_end(text: Seq<char>, k: int) -> int
    decreases text.len() - k,
{
    if 0 <= k < text.len() && (is_digit(text[k]) || text[k] == '_') {
        number_run_end(text, k + 1)
    } else {
        k
    }
}

/// The index of the first character at or after `k` that cannot continue
/// a name (or the length of the text).
pub open spec fn ident_run_end(text: Seq<char>, k: int) -> int
    decreases text.len() - k,
{
    if 0 <= k < text.len() && is_ident_char(text[k]) {
        ident_run_end(text, k + 1)
    } else {
        k
    }
}

/// A string whose characters are `s`.
pub open spec fn string_of(s: Seq<char>) -> String {
    choose|t: String| t@ == s
}

/// `string_of` gives back the characters it was given.
pub proof fn lemma_string_of(t: String)
    ensures
        string_of(t@)@ == t@,
{
    assert(exists|u: String| #![trigger u.view()] u.view() == t.view()) by {
        assert(t.view() == t.view());
    }
}

/// `o` holds a token equal to `t` and the index `j` after it.
pub open spec fn read_as(o: Option<(Token, int)>, t: Token, j: int) -> bool {
    match o {
        Some((a, k)) => token_eq(a, t) && k == j,
        None => false,
    }
}

/// The number that starts at index `i`: digits and `_`, ended by the end
/// of the text or a character that ends a token, with a value that fits
/// in a `usize`.
pub open spec fn number_at(text: Seq<char>, i: int) -> Option<(Token, int)> {
    let e = number_run_end(text, i);
    if (e == text.len() || is_terminator(text[e])) && number_value(text.subrange(i, e)) <= usize::MAX {
        Some((Token::Number(number_value(text.subrange(i, e)) as usize), e))
    } else {
        None
    }
}

/// The name that starts at index `i`, ended by the end of the text or a
/// character that ends a token: a keyword or an identifier.
pub open spec fn ident_at(text: Seq<char>, i: int) -> Option<(Token, int)> {
    let e = ident_run_end(text, i);
    let name = text.subrange(i, e);
    if e == text.len() || is_terminator(text[e]) {
        if is_keyword(name) {
            Some((Token::Keyword(string_of(name)), e))
        } else {
            Some((Token::Identifier(string_of(name)), e))
        }
    } else {
        None
    }
}

/// The content of a string literal from index `k` on, after the
/// characters `acc`: the characters and the index after the closing `"`.
pub open spec fn string_rest(text: Seq<char>, k: int, acc: Seq<char>) -> Option<(Seq<char>, int)>
    decreases text.len() - k,
{
    if !(0 <= k < text.len()) {
        None
    } else if text[k] == '\\' {
        match escape_at(text, k) {
            Some((c, k2)) => if k < k2 {
                string_rest(text, k2, acc.push(c))
            } else {
                None
            },
            None => None,
        }
    } else if text[k] == '"' {
        Some((acc, k + 1))
    } else {
        string_rest(text, k + 1, acc.push(text[k]))
    }
}

/// The character literal that starts with `'` at index `i`.
pub open spec fn char_at(text: Seq<char>, i: int) -> Option<(Token, int)> {
    let k = i + 1;
    if !(0 <= k < text.len()) {
        None
    } else if text[k] == '\\' {
        match escape_at(text, k) {
            Some((c, k2)) => if 0 <= k2 < text.len() && text[k2] == '\'' {
                Some((Token::Char(c), k2 + 1))
            } else {
                None
            },
            None => None,
        }
    } else if text[k] == '\'' {
        None
    } else if next_is(text, k, '\'') {
        let c = text[k];
        Some((Token::Char(c), k + 2))
    } else {
        None
    }
}

/// What the lexer reads at index `i`: a token (`Some`) or a stretch to skip
/// (`None`), and the index after it.
pub open spec fn step_at(text: Seq<char>, i: int) -> Option<(Option<Token>, int)> {
    if !(0 <= i < text.len()) {
        None
    } else {
        let c = text[i];
        if c == ' ' || c == '\t' || c == '\n' || c == ',' {
            Some((None, i + 1))
        } else if c == '\r' && next_is(text, i, '\n') {
            Some((None, i + 2))
        } else if c == '|' && next_is(text, i, '|') {
            Some((Some(Token::LogicOr), i + 2))
        } else if c == '!' {
            Some((Some(Token::Not), i + 1))
        } else if c == '.' && next_is(text, i, '.') {
            Some((Some(Token::Range), i + 2))
        } else if c == '.' {
            Some((Some(Token::Dot), i + 1))
        } else if c == '#' {
            Some((Some(Token::Hash), i + 1))
        } else if c == '^' {
            Some((Some(Token::Caret), i + 1))
        } else if c == '[' {
            Some((Some(Token::BracketOpen), i + 1))
        } else if c == ']' {
            Some((Some(Token::BracketClose), i + 1))
        } else if c == '(' {
            Some((Some(Token::ParenthesisOpen), i + 1))
        } else if c == ')' {
            Some((Some(Token::ParenthesisClose), i + 1))
        } else if c == '?' && next_is(text, i, '?') {
            Some((Some(Token::LazyOptional), i + 2))
        } else if c == '?' {
            Some((Some(Token::Optional), i + 1))
        } else if c == '+' && next_is(text, i, '?') {
            Some((Some(Token::LazyOneOrMore), i + 2))
        } else if c == '+' {
            Some((Some(Token::OneOrMore), i + 1))
        } else if c == '*' && next_is(text, i, '?') {
            Some((Some(Token::LazyZeroOrMore), i + 2))
        } else if c == '*' {
            Some((Some(Token::ZeroOrMore), i + 1))
        } else if c == '{' {
            Some((Some(Token::BraceOpen), i + 1))
        } else if c == '}' {
            Some((Some(Token::BraceClose), i + 1))
        } else if is_digit(c) {
            match number_at(text, i) {
                Some((t, k)) => Some((Some(t), k)),
                None => None,
            }
        } else if c == '"' {
            match string_rest(text, i + 1, seq![]) {
                Some((s, k)) => Some((Some(Token::String(string_of(s))), k)),
                None => None,
            }
        } else if c == '\'' {
            match char_at(text, i) {
                Some((t, k)) => Some((Some(t), k)),
                None => None,
            }
        } else if c == '/' && next_is(text, i, '/') {
            Some((None, line_end(text, i + 2)))
        } else if c == '/' && next_is(text, i, '*') {
            match block_end(text, i + 2, 1) {
                Some(k) => Some((None, k)),
                None => None,
            }
        } else if is_ident_start(c) {
            match ident_at(text, i) {
                Some((t, k)) => Some((Some(t), k)),
                None => None,
            }
        } else {
            None
        }
    }
}

/// The same token, names and strings compared by their characters.
pub open spec fn token_eq(a: Token, b: Token) -> bool {
    match (a, b) {
        (Token::Identifier(x), Token::Identifier(y)) => x@ == y@,
        (Token::Keyword(x), Token::Keyword(y)) => x@ == y@,
        (Token::String(x), Token::String(y)) => x@ == y@,
        _ => a == b,
    }
}

/// The same tokens over the same ranges, names and strings compared by
/// their characters.
pub open spec fn tokens_agree(a: Seq<TokenWithRange>, b: Seq<TokenWithRange>) -> bool {
    &&& a.len() == b.len()
    &&& forall|k: int|
        0 <= k < a.len() ==> token_eq((#[trigger] a[k]).token, b[k].token) && a[k].range
            == b[k].range
}

/// The tokens of the text from index `i` on, or `None` where it is
/// refused.
pub open spec fn lex_from(text: Seq<char>, i: int) -> Option<Seq<TokenWithRange>>
    decreases text.len() - i,
{
    if !(0 <= i < text.len()) {
        Some(seq![])
    } else {
        match step_at(text, i) {
            Some((t, j)) => if i < j <= text.len() {
                match lex_from(text, j) {
                    Some(rest) => match t {
                        Some(tok) => Some(
                            seq![TokenWithRange { token: tok, range: range_at(text, i, j - 1) }]
                                + rest,
                        ),
                        None => Some(rest),
                    },
                    None => None,
                }
            } else {
                None
            },
            None => None,
        }
    }
}

/// The tokens `sp` before the tokens that `o` holds.
pub open spec fn prepend_tokens(sp: Seq<TokenWithRange>, o: Option<Seq<TokenWithRange>>) -> Option<
    Seq<TokenWithRange>,
> {
    match o {
        Some(rest) => Some(sp + rest),
        None => None,
    }
}

// Which error the lexer reports where it refuses a text: the first place
// where reading fails, with its message and location.

/// The error of a Unicode escape `\u{...}` whose backslash is at index `i`.
pub open spec fn unicode_error(text: Seq<char>, i: int) -> ErrorView {
    let s0 = i + 3;
    let e = hex_run_end(text, s0);
    if e - s0 > 6 {
        ErrorView::MessageWithRange(
            "Unicode code point exceeds six digits."@,
            range_at(text, i + 2, s0 + 6),
        )
    } else if e >= text.len() {
        ErrorView::UnexpectedEndOfDocument("Incomplete unicode escape sequence."@)
    } else if text[e] != '}' {
        ErrorView::MessageWithPosition(
            "Invalid character '"@ + seq![text[e]] + "' in Unicode escape sequence."@,
            pos_at(text, e),
        )
    } else if e == s0 {
        ErrorView::MessageWithRange(
            "Unicode escape sequence has an empty code point."@,
            range_at(text, i + 2, e),
        )
    } else {
        ErrorView::MessageWithRange("Invalid Unicode code point."@, range_at(text, i + 2, e))
    }
}

/// The error of an escape sequence whose backslash is at index `y`; an
/// unsupported escape letter is reported at the letter, or over the range
/// from `start` to it when `start` is given.
pub open spec fn escape_error(text: Seq<char>, y: int, start: Option<int>) -> ErrorView {
    if y + 1 >= text.len() {
        ErrorView::UnexpectedEndOfDocument("Incomplete escape sequence."@)
    } else if text[y + 1] == 'u' {
        if y + 2 < text.len() && text[y + 2] == '{' {
            unicode_error(text, y)
        } else {
            ErrorView::MessageWithPosition(
                "Missing opening brace for Unicode escape sequence."@,
                pos_at(text, y + 1),
            )
        }
    } else {
        let m = "Unsupported escape char '"@ + seq![text[y + 1]] + "'."@;
        match start {
            Some(a) => ErrorView::MessageWithRange(m, range_at(text, a, y + 1)),
            None => ErrorView::MessageWithPosition(m, pos_at(text, y + 1)),
        }
    }
}

/// The error of a string literal read from index `k` on.
pub open spec fn string_error(text: Seq<char>, k: int) -> ErrorView
    decreases text.len() - k,
{
    if !(0 <= k < text.len()) {
        ErrorView::UnexpectedEndOfDocument("Incomplete string literal."@)
    } else if text[k] == '\\' {
        match escape_at(text, k) {
            Some((c, k2)) => if k < k2 {
                string_error(text, k2)
            } else {
                escape_error(text, k, None)
            },
            None => escape_error(text, k, None),
        }
    } else if text[k] == '"' {
        ErrorView::Message(seq![])
    } else {
        string_error(text, k + 1)
    }
}

/// The error of a character literal whose opening quote is at index `a`,
/// where the closing quote should stand at index `q`.
pub open spec fn closing_quote_error(text: Seq<char>, q: int) -> ErrorView {
    if q >= text.len() {
        ErrorView::UnexpectedEndOfDocument("Incomplete character literal."@)
    } else {
        ErrorView::MessageWithPosition(
            "Expected a closing quote for a character literal."@,
            pos_at(text, q),
        )
    }
}

/// The error of a character literal whose opening quote is at index `a`.
pub open spec fn char_error(text: Seq<char>, a: int) -> ErrorView {
    let k = a + 1;
    if !(0 <= k < text.len()) {
        ErrorView::UnexpectedEndOfDocument("Incomplete character literal."@)
    } else if text[k] == '\\' {
        match escape_at(text, k) {
            Some((c, k2)) => closing_quote_error(text, k2),
            None => escape_error(text, k, Some(a)),
        }
    } else if text[k] == '\'' {
        ErrorView::MessageWithRange("Empty character literal."@, range_at(text, a, k))
    } else {
        closing_quote_error(text, k + 1)
    }
}

/// The error of a block comment read from index `k` with `depth` comments
/// open.
pub open spec fn block_error(text: Seq<char>, k: int, depth: nat) -> ErrorView
    decreases text.len() - k,
{
    if !(0 <= k < text.len()) {
        if depth > 1 {
            ErrorView::UnexpectedEndOfDocument("Incomplete nested block comment."@)
        } else {
            ErrorView::UnexpectedEndOfDocument("Incomplete block comment."@)
        }
    } else if text[k] == '/' && next_is(text, k, '*') {
        block_error(text, k + 2, depth + 1)
    } else if text[k] == '*' && next_is(text, k, '/') {
        if depth <= 1 {
            ErrorView::Message(seq![])
        } else {
            block_error(text, k + 2, (depth - 1) as nat)
        }
    } else {
        block_error(text, k + 1, depth)
    }
}

/// The error of a number that starts at index `i`.
pub open spec fn number_error(text: Seq<char>, i: int) -> ErrorView {
    let e = number_run_end(text, i);
    if e < text.len() && !is_terminator(text[e]) {
        ErrorView::MessageWithPosition(
            "Invalid digit '"@ + seq![text[e]] + "' for decimal number."@,
            pos_at(text, e),
        )
    } else {
        ErrorView::MessageWithRange(
            "Cannot convert the number to an integer."@,
            range_at(text, i, e - 1),
        )
    }
}

/// The error of a name that starts at index `i`.
pub open spec fn ident_error(text: Seq<char>, i: int) -> ErrorView {
    let e = ident_run_end(text, i);
    ErrorView::MessageWithPosition(
        "Invalid character '"@ + seq![text[e]] + "' in identifier."@,
        pos_at(text, e),
    )
}

/// The error of what starts at index `i`, where the lexer refuses it.
pub open spec fn step_error(text: Seq<char>, i: int) -> ErrorView {
    let c = text[i];
    if is_digit(c) {
        number_error(text, i)
    } else if c == '"' {
        string_error(text, i + 1)
    } else if c == '\'' {
        char_error(text, i)
    } else if c == '/' && next_is(text, i, '*') {
        block_error(text, i + 2, 1)
    } else if is_ident_start(c) {
        ident_error(text, i)
    } else {
        ErrorView::MessageWithPosition(
            "Unexpected character '"@ + seq![c] + "'."@,
            pos_at(text, i),
        )
    }
}

/// The error of the first place from index `i` on where the lexer refuses
/// the text.
pub open spec fn lex_error(text: Seq<char>, i: int) -> ErrorView
    decreases text.len() - i,
{
    if !(0 <= i < text.len()) {
        ErrorView::Message(seq![])
    } else {
        match step_at(text, i) {
            Some((_, j)) => if i < j <= text.len() {
                lex_error(text, j)
            } else {
                ErrorView::Message(seq![])
            },
            None => step_error(text, i),
        }
    }
}

} // verus!
