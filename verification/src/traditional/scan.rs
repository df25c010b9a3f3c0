use vstd::prelude::*;

use crate::anre::token::{hex_run_end, unicode_escape_at};
use crate::charclass::{is_digit, is_hex_digit, number_value};
use crate::position::Range;
use crate::reader::{pos_at, range_at};
use crate::error::ErrorView;
use crate::anre::scan::unicode_error;
use crate::traditional::token::{Repetition, Token, TokenWithRange};

verus! {

// What the lexer of the traditional notation reads from a text: the token
// that starts at each index, and the index after it. A `None` means that
// the text is refused there.

/// A character that may stand in the name of a capture group: an ASCII
/// letter or digit, `_`, or a character from U+00A0 on.
pub open spec fn name_char(c: char) -> bool {
    ||| '0' <= c <= '9'
    ||| 'a' <= c <= 'z'
    ||| 'A' <= c <= 'Z'
    ||| c == '_'
    ||| '\u{a0}' <= c <= '\u{d7ff}'
    ||| '\u{e000}' <= c <= '\u{10ffff}'
}

/// A character that has a meaning of its own and stands for itself when
/// escaped.
pub open spec fn meta_char(c: char) -> bool {
    ||| c == '(' || c == ')' || c == '{' || c == '}' || c == '[' || c == ']'
    ||| c == '+' || c == '*' || c == '?' || c == '.' || c == '|' || c == '^'
    ||| c == '$' || c == '\\'
}

/// The index of the first character at or after `k` that is not a decimal
/// digit (or the length of the text).
pub open spec fn digit_run_end(text: Seq<char>, k: int) -> int
    decreases text.len() - k,
{
    if 0 <= k < text.len() && is_digit(text[k]) {
        digit_run_end(text, k + 1)
    } else {
        k
    }
}

/// The decimal number that starts at `i`, if its value fits in a `usize`:
/// the value and the index after its last digit.
pub open spec fn number_at(text: Seq<char>, i: int) -> Option<(usize, int)> {
    let end = digit_run_end(text, i);
    if 0 <= i && end > i && number_value(text.subrange(i, end)) <= usize::MAX {
        Some((number_value(text.subrange(i, end)) as usize, end))
    } else {
        None
    }
}

/// The index of the first character at or after `k` that cannot stand in
/// a name (or the length of the text).
pub open spec fn name_run_end(text: Seq<char>, k: int) -> int
    decreases text.len() - k,
{
    if 0 <= k < text.len() && name_char(text[k]) {
        name_run_end(text, k + 1)
    } else {
        k
    }
}

/// The name `<name>` that starts with `<` at index `i`: a name that is not
/// empty, and the index after the closing `>`.
pub open spec fn group_name_at(text: Seq<char>, i: int) -> Option<(Seq<char>, int)> {
    let end = name_run_end(text, i + 1);
    if 0 <= i < text.len() && text[i] == '<' && i + 1 < end < text.len() && text[end] == '>' {
        Some((text.subrange(i + 1, end), end + 1))
    } else {
        None
    }
}

/// A string whose characters are `s`.
pub open spec fn string_of(s: Seq<char>) -> String {
    choose|t: String| t@ == s
}

/// The same token, names compared by their characters.
pub open spec fn token_eq(a: Token, b: Token) -> bool {
    match (a, b) {
        (Token::NamedCaptureGroupStart(x), Token::NamedCaptureGroupStart(y)) => x@ == y@,
        (Token::BackReferenceName(x), Token::BackReferenceName(y)) => x@ == y@,
        _ => a == b,
    }
}

/// The same tokens over the same ranges, names compared by their
/// characters.
pub open spec fn tokens_agree(a: Seq<TokenWithRange>, b: Seq<TokenWithRange>) -> bool {
    &&& a.len() == b.len()
    &&& forall|k: int|
        0 <= k < a.len() ==> token_eq((#[trigger] a[k]).token, b[k].token) && a[k].range
            == b[k].range
}

/// The repetition `{m}`, `{m,}` or `{m,n}`, lazy when a `?` follows, that
/// starts with `{` at index `i`.
pub open spec fn repetition_at(text: Seq<char>, i: int) -> Option<(Token, int)> {
    match number_at(text, i + 1) {
        None => None,
        Some((m, j)) => {
            let body = if j < text.len() && text[j] == ',' {
                if j + 1 < text.len() && text[j + 1] == '}' {
                    Some((Repetition::RepeatFrom(m), j + 2))
                } else {
                    match number_at(text, j + 1) {
                        Some((n, k)) => if k < text.len() && text[k] == '}' {
                            Some((Repetition::RepeatRange(m, n), k + 1))
                        } else {
                            None
                        },
                        None => None,
                    }
                }
            } else if j < text.len() && text[j] == '}' {
                Some((Repetition::Repeat(m), j + 1))
            } else {
                None
            };
            match body {
                Some((rep, k)) => if 0 <= k < text.len() && text[k] == '?' {
                    Some((Token::Repetition(rep, true), k + 1))
                } else {
                    Some((Token::Repetition(rep, false), k))
                },
                None => None,
            }
        },
    }
}

/// The escape sequence that starts with `\` at index `i`, outside a
/// character set.
pub open spec fn escape_token_at(text: Seq<char>, i: int) -> Option<(Token, int)> {
    if !(0 <= i && i + 1 < text.len()) {
        None
    } else {
        let c = text[i + 1];
        if c == 't' {
            Some((Token::Char('\t'), i + 2))
        } else if c == 'n' {
            Some((Token::Char('\n'), i + 2))
        } else if c == 'r' {
            Some((Token::Char('\r'), i + 2))
        } else if c == 'u' {
            match unicode_escape_at(text, i) {
                Some((u, k)) => Some((Token::Char(u), k)),
                None => None,
            }
        } else if meta_char(c) {
            Some((Token::Char(c), i + 2))
        } else if c == 'w' || c == 'W' || c == 'd' || c == 'D' || c == 's' || c == 'S' {
            Some((Token::PresetCharSet(c), i + 2))
        } else if c == 'b' || c == 'B' {
            Some((Token::WordBoundaryAssertion(c == 'B'), i + 2))
        } else if '1' <= c <= '9' {
            match number_at(text, i + 1) {
                Some((n, k)) => Some((Token::BackReferenceNumber(n), k)),
                None => None,
            }
        } else if c == 'k' {
            match group_name_at(text, i + 2) {
                Some((name, k)) => Some((Token::BackReferenceName(string_of(name)), k)),
                None => None,
            }
        } else {
            None
        }
    }
}

/// The escape sequence that starts with `\` at index `i`, inside a
/// character set.
pub open spec fn charset_escape_at(text: Seq<char>, i: int) -> Option<(Token, int)> {
    if !(0 <= i && i + 1 < text.len()) {
        None
    } else {
        let c = text[i + 1];
        if c == 't' {
            Some((Token::Char('\t'), i + 2))
        } else if c == 'n' {
            Some((Token::Char('\n'), i + 2))
        } else if c == 'r' {
            Some((Token::Char('\r'), i + 2))
        } else if c == 'u' {
            match unicode_escape_at(text, i) {
                Some((u, k)) => Some((Token::Char(u), k)),
                None => None,
            }
        } else if meta_char(c) {
            Some((Token::Char(c), i + 2))
        } else if c == 'w' || c == 'd' || c == 's' {
            Some((Token::PresetCharSet(c), i + 2))
        } else {
            None
        }
    }
}

/// The start of a special group, `(?:`, `(?=`, `(?!`, `(?<=`, `(?<!` or
/// `(?<name>`, at index `i`.
pub open spec fn group_start_at(text: Seq<char>, i: int) -> Option<(Token, int)> {
    if !(0 <= i && i + 2 < text.len()) {
        None
    } else {
        let kind = text[i + 2];
        if kind == ':' {
            Some((Token::NonCaptureGroupStart, i + 3))
        } else if kind == '=' {
            Some((Token::LookAheadGroupStart, i + 3))
        } else if kind == '!' {
            Some((Token::LookAheadNegativeGroupStart, i + 3))
        } else if kind == '<' {
            if i + 3 < text.len() && text[i + 3] == '=' {
                Some((Token::LookBehindGroupStart, i + 4))
            } else if i + 3 < text.len() && text[i + 3] == '!' {
                Some((Token::LookBehindNegativeGroupStart, i + 4))
            } else {
                match group_name_at(text, i + 2) {
                    Some((name, k)) => Some((Token::NamedCaptureGroupStart(string_of(name)), k)),
                    None => None,
                }
            }
        } else {
            None
        }
    }
}

/// The next character is `c`.
pub open spec fn next_is(text: Seq<char>, i: int, c: char) -> bool {
    0 <= i + 1 < text.len() && text[i + 1] == c
}

/// The token that starts at index `i`, outside a character set.
pub open spec fn token_at(text: Seq<char>, i: int) -> Option<(Token, int)> {
    if !(0 <= i < text.len()) {
        None
    } else {
        let c = text[i];
        if c == '{' {
            repetition_at(text, i)
        } else if c == '(' && next_is(text, i, '?') {
            group_start_at(text, i)
        } else if c == '(' {
            Some((Token::GroupStart, i + 1))
        } else if c == ')' {
            Some((Token::GroupEnd, i + 1))
        } else if c == '?' && next_is(text, i, '?') {
            Some((Token::LazyOptional, i + 2))
        } else if c == '?' {
            Some((Token::Optional, i + 1))
        } else if c == '+' && next_is(text, i, '?') {
            Some((Token::LazyOneOrMore, i + 2))
        } else if c == '+' {
            Some((Token::OneOrMore, i + 1))
        } else if c == '*' && next_is(text, i, '?') {
            Some((Token::LazyZeroOrMore, i + 2))
        } else if c == '*' {
            Some((Token::ZeroOrMore, i + 1))
        } else if c == '^' {
            Some((Token::LineBoundaryAssertionStart, i + 1))
        } else if c == '$' {
            Some((Token::LineBoundaryAssertionEnd, i + 1))
        } else if c == '.' {
            Some((Token::Dot, i + 1))
        } else if c == '|' {
            Some((Token::LogicOr, i + 1))
        } else if c == '\\' {
            escape_token_at(text, i)
        } else {
            Some((Token::Char(c), i + 1))
        }
    }
}

/// The token read from index `a` up to index `b`.
pub open spec fn token_over(text: Seq<char>, t: Token, a: int, b: int) -> TokenWithRange {
    TokenWithRange { token: t, range: range_at(text, a, b - 1) }
}

/// The elements of a character set from index `j` up to its closing `]`:
/// their tokens and the index of the `]`.
pub open spec fn charset_elements(text: Seq<char>, j: int) -> Option<(Seq<TokenWithRange>, int)>
    decreases text.len() - j,
{
    if !(0 <= j < text.len()) {
        None
    } else if text[j] == ']' {
        Some((seq![], j))
    } else {
        let step = if text[j] == '\\' {
            charset_escape_at(text, j)
        } else {
            Some((Token::Char(text[j]), j + 1))
        };
        match step {
            Some((t, k)) => if j < k {
                match charset_elements(text, k) {
                    Some((rest, e)) => Some((seq![token_over(text, t, j, k)] + rest, e)),
                    None => None,
                }
            } else {
                None
            },
            None => None,
        }
    }
}

/// The tokens `els` before the tokens that `o` holds.
pub open spec fn prepend_elements(
    els: Seq<TokenWithRange>,
    o: Option<(Seq<TokenWithRange>, int)>,
) -> Option<(Seq<TokenWithRange>, int)> {
    match o {
        Some((rest, e)) => Some((els + rest, e)),
        None => None,
    }
}

/// The tokens `sp` before the tokens that `o` holds.
pub open spec fn prepend_tokens(sp: Seq<TokenWithRange>, o: Option<Seq<TokenWithRange>>) -> Option<
    Seq<TokenWithRange>,
> {
    match o {
        Some(rest) => Some(sp + rest),
        None => None,
    }
}

/// `x`, `-`, `y` at `idx - 1`, `idx`, `idx + 1` become the range `x-y`;
/// the scan goes from `idx` towards the start of the set.
pub open spec fn merge_ranges_from(ts: Seq<TokenWithRange>, idx: int) -> Option<Seq<TokenWithRange>>
    decreases idx,
{
    if idx <= 1 || idx + 2 >= ts.len() {
        Some(ts)
    } else if ts[idx].token == Token::Char('-') {
        match (ts[idx - 1].token, ts[idx + 1].token) {
            (Token::Char(x), Token::Char(y)) => {
                let merged = TokenWithRange {
                    token: Token::CharRange(x, y),
                    range: Range {
                        start: ts[idx - 1].range.start,
                        end_inclusive: ts[idx + 1].range.end_inclusive,
                    },
                };
                merge_ranges_from(
                    ts.subrange(0, idx - 1).push(merged) + ts.subrange(idx + 2, ts.len() as int),
                    idx - 2,
                )
            },
            _ => None,
        }
    } else {
        merge_ranges_from(ts, idx - 1)
    }
}

/// The tokens of a character set with its ranges joined: a set of at most
/// two elements has none.
pub open spec fn merge_ranges(ts: Seq<TokenWithRange>) -> Option<Seq<TokenWithRange>> {
    if ts.len() <= 4 {
        Some(ts)
    } else {
        merge_ranges_from(ts, ts.len() - 3)
    }
}

/// The character set that starts with `[` at index `i`: its tokens and the
/// index after its `]`.
pub open spec fn charset_at(text: Seq<char>, i: int) -> Option<(Seq<TokenWithRange>, int)> {
    let negative = next_is(text, i, '^');
    let j = if negative {
        i + 2
    } else {
        i + 1
    };
    let first = if negative {
        Token::CharSetStartNegative
    } else {
        Token::CharSetStart
    };
    match charset_elements(text, j) {
        Some((els, e)) => match merge_ranges(
            seq![token_over(text, first, i, j)] + els + seq![token_over(text, Token::CharSetEnd, e, e + 1)],
        ) {
            Some(ts) => Some((ts, e + 1)),
            None => None,
        },
        None => None,
    }
}

/// The tokens of the text from index `i` on, or `None` where it is
/// refused.
pub open spec fn lex_from(text: Seq<char>, i: int) -> Option<Seq<TokenWithRange>>
    decreases text.len() - i,
{
    if !(0 <= i < text.len()) {
        Some(seq![])
    } else if text[i] == '[' {
        match charset_at(text, i) {
            Some((ts, j)) => if i < j <= text.len() {
                match lex_from(text, j) {
                    Some(rest) => Some(ts + rest),
                    None => None,
                }
            } else {
                None
            },
            None => None,
        }
    } else {
        match token_at(text, i) {
            Some((t, j)) => if i < j <= text.len() {
                match lex_from(text, j) {
                    Some(rest) => Some(seq![token_over(text, t, i, j)] + rest),
                    None => None,
                }
            } else {
                None
            },
            None => None,
        }
    }
}


/// A run of digits from `s0` that ends at `e` is the digit run there.
pub proof fn lemma_digit_run_end(text: Seq<char>, s0: int, e: int)
    requires
        0 <= s0 <= e <= text.len(),
        forall|k: int| s0 <= k < e ==> is_digit(#[trigger] text[k]),
        e == text.len() || !is_digit(text[e]),
    ensures
        digit_run_end(text, s0) == e,
    decreases e - s0,
{
    if s0 < e {
        lemma_digit_run_end(text, s0 + 1, e);
    }
}

/// A run of name characters from `s0` that ends at `e` is the name run
/// there.
pub proof fn lemma_name_run_end(text: Seq<char>, s0: int, e: int)
    requires
        0 <= s0 <= e <= text.len(),
        forall|k: int| s0 <= k < e ==> name_char(#[trigger] text[k]),
        e == text.len() || !name_char(text[e]),
    ensures
        name_run_end(text, s0) == e,
    decreases e - s0,
{
    if s0 < e {
        lemma_name_run_end(text, s0 + 1, e);
    }
}

/// A run of hexadecimal digits from `s0` that ends at `e` is the hex run
/// there.
pub proof fn lemma_hex_run_end_is(text: Seq<char>, s0: int, e: int)
    requires
        0 <= s0 <= e <= text.len(),
        forall|k: int| s0 <= k < e ==> is_hex_digit(#[trigger] text[k]),
        e == text.len() || !is_hex_digit(text[e]),
    ensures
        hex_run_end(text, s0) == e,
    decreases e - s0,
{
    if s0 < e {
        lemma_hex_run_end_is(text, s0 + 1, e);
    }
}

/// A hex run from `s0` reaches at least as far as hex digits go.
pub proof fn lemma_hex_run_at_least(text: Seq<char>, s0: int, e: int)
    requires
        0 <= s0 <= e <= text.len(),
        forall|k: int| s0 <= k < e ==> is_hex_digit(#[trigger] text[k]),
    ensures
        hex_run_end(text, s0) >= e,
    decreases e - s0,
{
    if s0 < e {
        lemma_hex_run_at_least(text, s0 + 1, e);
    } else {
        lemma_hex_run_not_before(text, s0);
    }
}

/// A hex run never ends before it starts.
pub proof fn lemma_hex_run_not_before(text: Seq<char>, k: int)
    ensures
        hex_run_end(text, k) >= k,
    decreases text.len() - k,
{
    if 0 <= k < text.len() && is_hex_digit(text[k]) {
        lemma_hex_run_not_before(text, k + 1);
    }
}

// Which error the lexer reports where it refuses a text: the first place
// where reading fails, with its message and location. Where reading does
// not fail, the error is of no account (an empty message).

pub open spec fn no_error() -> ErrorView {
    ErrorView::Message(seq![])
}

/// The character `expected`, described as `what`, must stand at index `k`.
pub open spec fn expected_char_error(text: Seq<char>, k: int, what: Seq<char>) -> ErrorView {
    let m = "Expected character "@ + what + "."@;
    if 0 <= k < text.len() {
        ErrorView::MessageWithPosition(m, pos_at(text, k))
    } else {
        ErrorView::UnexpectedEndOfDocument(m)
    }
}

/// The error of a decimal number read from index `i`.
pub open spec fn number_error(text: Seq<char>, i: int) -> ErrorView {
    let e = digit_run_end(text, i);
    if !(0 <= i < text.len()) {
        ErrorView::UnexpectedEndOfDocument("Expected a number."@)
    } else if e == i {
        ErrorView::MessageWithPosition("Expected a number."@, pos_at(text, i))
    } else {
        ErrorView::MessageWithRange(
            "Cannot convert \""@ + text.subrange(i, e) + "\" to an integer."@,
            range_at(text, i, e - 1),
        )
    }
}

/// The error of a group name `<name>` whose `<` is at index `i`.
pub open spec fn group_name_error(text: Seq<char>, i: int) -> ErrorView {
    let e = name_run_end(text, i + 1);
    if e >= text.len() {
        ErrorView::UnexpectedEndOfDocument("Incomplete capture group name."@)
    } else if text[e] != '>' {
        ErrorView::MessageWithPosition(
            "Invalid character '"@ + seq![text[e]] + "' in capture group name."@,
            pos_at(text, e),
        )
    } else {
        ErrorView::MessageWithRange("Expected a capture group name."@, range_at(text, i, e))
    }
}

/// The error of an escape sequence outside a character set whose
/// backslash is at index `i`.
pub open spec fn escape_error(text: Seq<char>, i: int) -> ErrorView {
    if !(0 <= i && i + 1 < text.len()) {
        ErrorView::UnexpectedEndOfDocument("Incomplete escape sequence."@)
    } else {
        let c = text[i + 1];
        if c == 'u' {
            if i + 2 < text.len() && text[i + 2] == '{' {
                unicode_error(text, i)
            } else {
                ErrorView::MessageWithPosition(
                    "Missing opening brace for Unicode escape sequence."@,
                    pos_at(text, i + 1),
                )
            }
        } else if '1' <= c <= '9' {
            number_error(text, i + 1)
        } else if c == '0' {
            ErrorView::MessageWithRange("Cannot back-reference group 0."@, range_at(text, i, i + 1))
        } else if c == 'k' {
            if i + 2 < text.len() && text[i + 2] == '<' {
                group_name_error(text, i + 2)
            } else {
                ErrorView::MessageWithRange(
                    "Missing opening angle bracket for group name."@,
                    range_at(text, i, if i + 2 < text.len() { i + 2 } else { i + 1 }),
                )
            }
        } else {
            ErrorView::MessageWithRange(
                "Unsupported escape char '"@ + seq![c] + "'."@,
                range_at(text, i, i + 1),
            )
        }
    }
}

/// The error of an escape sequence inside a character set whose backslash
/// is at index `i`.
pub open spec fn charset_escape_error(text: Seq<char>, i: int) -> ErrorView {
    if !(0 <= i && i + 1 < text.len()) {
        ErrorView::UnexpectedEndOfDocument("Incomplete escape sequence."@)
    } else {
        let c = text[i + 1];
        if c == 'u' {
            if i + 2 < text.len() && text[i + 2] == '{' {
                unicode_error(text, i)
            } else {
                ErrorView::MessageWithRange(
                    "Missing opening brace for Unicode escape sequence."@,
                    range_at(text, i, i + 1),
                )
            }
        } else {
            let m = if c == 'W' || c == 'D' || c == 'S' {
                "Negative character class '"@ + seq![c] + "' is not supported in a character set."@
            } else if c == 'b' || c == 'B' {
                "Word boundary assertions are not supported in a character set."@
            } else if ('0' <= c <= '9') || c == 'k' {
                "Backreferences are not supported in a character set."@
            } else {
                "Unsupported escape char '"@ + seq![c] + "' in charset."@
            };
            ErrorView::MessageWithRange(m, range_at(text, i, i + 1))
        }
    }
}

/// The error of the elements of a character set read from index `j`.
pub open spec fn charset_elements_error(text: Seq<char>, j: int) -> ErrorView
    decreases text.len() - j,
{
    if !(0 <= j < text.len()) {
        ErrorView::UnexpectedEndOfDocument("Incomplete character set."@)
    } else if text[j] == ']' {
        no_error()
    } else if text[j] == '\\' {
        match charset_escape_at(text, j) {
            Some((t, k)) => if j < k {
                charset_elements_error(text, k)
            } else {
                no_error()
            },
            None => charset_escape_error(text, j),
        }
    } else {
        charset_elements_error(text, j + 1)
    }
}

/// The error of joining the ranges of a character set, scanning from
/// `idx` towards its start.
pub open spec fn merge_error_from(ts: Seq<TokenWithRange>, idx: int) -> ErrorView
    decreases idx,
{
    if idx <= 1 || idx + 2 >= ts.len() {
        no_error()
    } else if ts[idx].token == Token::Char('-') {
        if !(ts[idx - 1].token is Char) {
            ErrorView::MessageWithRange(
                "Expected a character for a range, for example \"A-Z\"."@,
                ts[idx - 1].range,
            )
        } else if !(ts[idx + 1].token is Char) {
            ErrorView::MessageWithRange(
                "Expected a character for a range, for example \"a-z\"."@,
                ts[idx + 1].range,
            )
        } else {
            let merged = TokenWithRange {
                token: Token::CharRange(ts[idx - 1].token->Char_0, ts[idx + 1].token->Char_0),
                range: Range {
                    start: ts[idx - 1].range.start,
                    end_inclusive: ts[idx + 1].range.end_inclusive,
                },
            };
            merge_error_from(
                ts.subrange(0, idx - 1).push(merged) + ts.subrange(idx + 2, ts.len() as int),
                idx - 2,
            )
        }
    } else {
        merge_error_from(ts, idx - 1)
    }
}

/// The error of joining the ranges of a character set.
pub open spec fn merge_error(ts: Seq<TokenWithRange>) -> ErrorView {
    if ts.len() <= 4 {
        no_error()
    } else {
        merge_error_from(ts, ts.len() - 3)
    }
}

/// The error of the character set whose `[` is at index `i`.
pub open spec fn charset_error(text: Seq<char>, i: int) -> ErrorView {
    let negative = next_is(text, i, '^');
    let j = if negative {
        i + 2
    } else {
        i + 1
    };
    let first = if negative {
        Token::CharSetStartNegative
    } else {
        Token::CharSetStart
    };
    match charset_elements(text, j) {
        Some((els, e)) => merge_error(
            seq![token_over(text, first, i, j)] + els + seq![token_over(text, Token::CharSetEnd, e, e + 1)],
        ),
        None => charset_elements_error(text, j),
    }
}

/// The error of a repetition whose `{` is at index `i`.
pub open spec fn repetition_error(text: Seq<char>, i: int) -> ErrorView {
    match number_at(text, i + 1) {
        None => number_error(text, i + 1),
        Some((m, j)) => if j < text.len() && text[j] == ',' {
            if j + 1 < text.len() && text[j + 1] == '}' {
                no_error()
            } else {
                match number_at(text, j + 1) {
                    None => number_error(text, j + 1),
                    Some((n, k)) => expected_char_error(text, k, "closing brace"@),
                }
            }
        } else {
            expected_char_error(text, j, "closing brace"@)
        }
    }
}

/// The error of a group start `(?` at index `i`.
pub open spec fn group_start_error(text: Seq<char>, i: int) -> ErrorView {
    if !(i + 2 < text.len()) {
        ErrorView::UnexpectedEndOfDocument("Incomplete group."@)
    } else {
        let kind = text[i + 2];
        if !(kind == ':' || kind == '<' || kind == '=' || kind == '!') {
            ErrorView::MessageWithRange("Invalid group syntax."@, range_at(text, i, i + 2))
        } else {
            group_name_error(text, i + 2)
        }
    }
}

/// The error of the token that starts at index `i`.
pub open spec fn token_error(text: Seq<char>, i: int) -> ErrorView {
    let c = text[i];
    if c == '{' {
        repetition_error(text, i)
    } else if c == '(' && next_is(text, i, '?') {
        group_start_error(text, i)
    } else {
        escape_error(text, i)
    }
}

/// The error of the first place from index `i` on where the lexer refuses
/// the text.
pub open spec fn lex_error(text: Seq<char>, i: int) -> ErrorView
    decreases text.len() - i,
{
    if !(0 <= i < text.len()) {
        no_error()
    } else if text[i] == '[' {
        match charset_at(text, i) {
            Some((ts, j)) => if i < j <= text.len() {
                lex_error(text, j)
            } else {
                no_error()
            },
            None => charset_error(text, i),
        }
    } else {
        match token_at(text, i) {
            Some((t, j)) => if i < j <= text.len() {
                lex_error(text, j)
            } else {
                no_error()
            },
            None => token_error(text, i),
        }
    }
}

} // verus!
