use vstd::prelude::*;

use crate::anre::token::{error_in, hex_run_end, unicode_escape_at};
use crate::charclass::{char_from_u32, char_hex_digit_value, char_is_hex_digit};
use crate::error::AnreError;
use crate::position::{Position, Range};
use crate::reader::{pos_at, position_in, range_at, range_in, CharReader};
use crate::text::{message_with_char, push_char, string_from_str};
use crate::error::error_view;
use crate::anre::scan::unicode_error;
use crate::traditional::scan::{
    charset_elements_error, charset_error, charset_escape_error, escape_error, expected_char_error,
    group_name_error, group_start_error, lex_error, merge_error, merge_error_from, number_error,
    repetition_error, token_error,
};
use crate::traditional::token::{Repetition, Token, TokenWithRange};
use crate::charclass::{is_digit, is_hex_digit, number_value, hex_value};
use crate::traditional::scan::{
    charset_at, charset_elements, charset_escape_at, digit_run_end, escape_token_at,
    group_name_at, group_start_at, lemma_digit_run_end, lemma_hex_run_at_least,
    lemma_hex_run_end_is, lemma_name_run_end, lex_from, merge_ranges, merge_ranges_from,
    meta_char, name_char, name_run_end, next_is, number_at, repetition_at, string_of, token_at,
    token_eq, token_over, tokens_agree, prepend_elements, prepend_tokens,
};

verus! {

/// Every token's range lies in the text, and each token comes after the
/// one before it.
pub open spec fn spans_in(tokens: Seq<TokenWithRange>, text: Seq<char>) -> bool {
    &&& forall|i: int| 0 <= i < tokens.len() ==> range_in(text, #[trigger] tokens[i].range)
    &&& forall|i: int, j: int|
        0 <= i < j < tokens.len() ==> (#[trigger] tokens[i]).range.end_inclusive.index
            < (#[trigger] tokens[j]).range.start.index
}

/// Every token's range lies within the characters `lo..hi`.
spec fn spans_within(tokens: Seq<TokenWithRange>, lo: int, hi: int) -> bool {
    forall|i: int|
        0 <= i < tokens.len() ==> lo <= (#[trigger] tokens[i]).range.start.index
            && tokens[i].range.end_inclusive.index < hi
}

proof fn lemma_range_at_in(text: Seq<char>, a: int, b: int)
    requires
        0 <= a <= b < text.len(),
        text.len() <= usize::MAX,
    ensures
        range_in(text, range_at(text, a, b)),
        range_at(text, a, b).start.index == a,
        range_at(text, a, b).end_inclusive.index == b,
{
}

/// Splits a pattern in the traditional notation into tokens.
pub fn lex_from_str(s: &str) -> (r: Result<Vec<TokenWithRange>, AnreError>)
    ensures
        r matches Err(e) ==> error_view(e) == lex_error(s@, 0),
        match r {
            Ok(tokens) => spans_in(tokens@, s@),
            Err(e) => error_in(e, s@),
        },
        match lex_from(s@, 0) {
            Some(ts) => r matches Ok(v) && tokens_agree(v@, ts),
            None => r is Err,
        },
{
    let mut lexer = Lexer { reader: CharReader::from_str(s) };
    lexer.lex()
}

struct Lexer {
    reader: CharReader,
}

/// `b` is `a` after reading forward in the same text.
spec fn read_on(a: Lexer, b: Lexer) -> bool {
    &&& b.reader.wf()
    &&& b.reader.text() == a.reader.text()
    &&& a.reader.index() <= b.reader.index()
}

/// The token `t` covers the characters read between `a` and `b`.
spec fn covers(t: TokenWithRange, a: Lexer, b: Lexer) -> bool {
    &&& a.reader.index() < b.reader.index()
    &&& t.range == range_at(a.reader.text(), a.reader.index(), b.reader.index() - 1)
}

impl Lexer {
    fn consume_char_and_assert(&mut self, expected: char, description: &str) -> (r: Result<
        (),
        AnreError,
    >)
        requires
            old(self).reader.wf(),
        ensures
            r matches Err(e) ==> error_view(e) == expected_char_error(
                old(self).reader.text(),
                old(self).reader.index(),
                description@,
            ),
            read_on(*old(self), *final(self)),
            r is Ok ==> final(self).reader.index() == old(self).reader.index() + 1,
            r matches Err(e) ==> error_in(e, final(self).reader.text()),
            r is Ok <==> next_is(old(self).reader.text(), old(self).reader.index() - 1, expected),
    {
        match self.reader.next_char() {
            Some(c) => {
                if c == expected {
                    Ok(())
                } else {
                    let mut m = string_from_str("Expected character ");
                    crate::text::push_str(&mut m, description);
                    crate::text::push_str(&mut m, ".");
                    Err(AnreError::MessageWithPosition(m, self.reader.last_position()))
                }
            },
            None => {
                let mut m = string_from_str("Expected character ");
                crate::text::push_str(&mut m, description);
                crate::text::push_str(&mut m, ".");
                Err(AnreError::UnexpectedEndOfDocument(m))
            },
        }
    }

    /// One token of one character.
    fn single(&mut self, token: Token) -> (t: TokenWithRange)
        requires
            old(self).reader.wf(),
            old(self).reader.index() < old(self).reader.text().len(),
        ensures
            read_on(*old(self), *final(self)),
            final(self).reader.index() == old(self).reader.index() + 1,
            covers(t, *old(self), *final(self)),
            t.token == token,
    {
        self.reader.next_char();
        let p = self.reader.last_position();
        TokenWithRange::new(token, Range::from_single_position(&p))
    }

    /// One token of two characters.
    fn double(&mut self, token: Token) -> (t: TokenWithRange)
        requires
            old(self).reader.wf(),
            old(self).reader.index() + 1 < old(self).reader.text().len(),
        ensures
            read_on(*old(self), *final(self)),
            final(self).reader.index() == old(self).reader.index() + 2,
            covers(t, *old(self), *final(self)),
            t.token == token,
    {
        let start = self.reader.peek_position(0);
        self.reader.next_char();
        self.reader.next_char();
        let end = self.reader.last_position();
        TokenWithRange::new(token, Range::new(&start, &end))
    }
}

/// A token read from `a` up to `b` can follow tokens that lie before `a`.
proof fn lemma_push_span(tokens: Seq<TokenWithRange>, t: TokenWithRange, text: Seq<char>, a: int, b: int)
    requires
        spans_in(tokens, text),
        spans_within(tokens, 0, a),
        0 <= a < b <= text.len(),
        text.len() <= usize::MAX,
        t.range == range_at(text, a, b - 1),
    ensures
        spans_in(tokens.push(t), text),
        spans_within(tokens.push(t), 0, b),
{
    lemma_range_at_in(text, a, b - 1);
    let u = tokens.push(t);
    assert forall|i: int, j: int| 0 <= i < j < u.len() implies (#[trigger] u[i]).range.end_inclusive.index
        < (#[trigger] u[j]).range.start.index by {
        if j == u.len() - 1 {
            assert(u[i] == tokens[i]);
        } else {
            assert(u[i] == tokens[i] && u[j] == tokens[j]);
        }
    }
    assert forall|i: int| 0 <= i < u.len() implies range_in(text, #[trigger] u[i].range) by {
        if i < tokens.len() {
            assert(u[i] == tokens[i]);
        }
    }
}

/// Tokens read from `a` up to `b` can follow tokens that lie before `a`.
proof fn lemma_append_spans(
    tokens: Seq<TokenWithRange>,
    more: Seq<TokenWithRange>,
    text: Seq<char>,
    a: int,
    b: int,
)
    requires
        spans_in(tokens, text),
        spans_within(tokens, 0, a),
        spans_in(more, text),
        spans_within(more, a, b),
        a <= b,
    ensures
        spans_in(tokens + more, text),
        spans_within(tokens + more, 0, b),
{
    let u = tokens + more;
    assert forall|i: int, j: int| 0 <= i < j < u.len() implies (#[trigger] u[i]).range.end_inclusive.index
        < (#[trigger] u[j]).range.start.index by {
        if j < tokens.len() {
            assert(u[i] == tokens[i] && u[j] == tokens[j]);
        } else if i < tokens.len() {
            assert(u[i] == tokens[i] && u[j] == more[j - tokens.len()]);
        } else {
            assert(u[i] == more[i - tokens.len()] && u[j] == more[j - tokens.len()]);
        }
    }
    assert forall|i: int| 0 <= i < u.len() implies range_in(text, #[trigger] u[i].range) by {
        if i < tokens.len() {
            assert(u[i] == tokens[i]);
        } else {
            assert(u[i] == more[i - tokens.len()]);
        }
    }
    assert forall|i: int| 0 <= i < u.len() implies 0 <= (#[trigger] u[i]).range.start.index
        && u[i].range.end_inclusive.index < b by {
        if i < tokens.len() {
            assert(u[i] == tokens[i]);
        } else {
            assert(u[i] == more[i - tokens.len()]);
        }
    }
}

/// Replacing three neighbouring tokens by one token spanning them keeps the
/// spans in order.
proof fn lemma_merge_three(tokens: Seq<TokenWithRange>, k: int, m: TokenWithRange, text: Seq<char>, lo: int, hi: int)
    requires
        spans_in(tokens, text),
        spans_within(tokens, lo, hi),
        0 <= k,
        k + 2 < tokens.len(),
        m.range.start == tokens[k].range.start,
        m.range.end_inclusive == tokens[k + 2].range.end_inclusive,
    ensures
        spans_in(tokens.subrange(0, k).push(m) + tokens.subrange(k + 3, tokens.len() as int), text),
        spans_within(tokens.subrange(0, k).push(m) + tokens.subrange(k + 3, tokens.len() as int), lo, hi),
{
    let u = tokens.subrange(0, k).push(m) + tokens.subrange(k + 3, tokens.len() as int);
    assert(tokens[k].range.end_inclusive.index < tokens[k + 2].range.start.index);
    assert forall|i: int| 0 <= i < u.len() implies #[trigger] u[i] == (if i < k {
        tokens[i]
    } else if i == k {
        m
    } else {
        tokens[i + 2]
    }) by {}
    assert forall|i: int, j: int| 0 <= i < j < u.len() implies (#[trigger] u[i]).range.end_inclusive.index
        < (#[trigger] u[j]).range.start.index by {
        if i < k && j == k {
            assert(tokens[i].range.end_inclusive.index < tokens[k].range.start.index);
        } else if i == k && j > k {
            assert(tokens[k + 2].range.end_inclusive.index < tokens[j + 2].range.start.index);
        } else if i < k && j > k {
            assert(tokens[i].range.end_inclusive.index < tokens[j + 2].range.start.index);
        } else if i > k {
            assert(tokens[i + 2].range.end_inclusive.index < tokens[j + 2].range.start.index);
        } else {
            assert(tokens[i].range.end_inclusive.index < tokens[j].range.start.index);
        }
    }
    assert forall|i: int| 0 <= i < u.len() implies range_in(text, #[trigger] u[i].range) by {
        if i == k {
            assert(range_in(text, tokens[k].range));
            assert(range_in(text, tokens[k + 2].range));
        } else if i > k {
            assert(range_in(text, tokens[i + 2].range));
        } else {
            assert(range_in(text, tokens[i].range));
        }
    }
    assert forall|i: int| 0 <= i < u.len() implies lo <= (#[trigger] u[i]).range.start.index
        && u[i].range.end_inclusive.index < hi by {
        if i == k {
            assert(lo <= tokens[k].range.start.index);
            assert(tokens[k + 2].range.end_inclusive.index < hi);
        } else if i > k {
            assert(lo <= tokens[i + 2].range.start.index);
        } else {
            assert(lo <= tokens[i].range.start.index);
        }
    }
}

/// A character that may stand in the name of a capture group.
fn is_name_char(c: char) -> (r: bool)
    ensures
        r == name_char(c),
{
    ('0' <= c && c <= '9') || ('a' <= c && c <= 'z') || ('A' <= c && c <= 'Z') || c == '_' || (
    '\u{a0}' <= c && c <= '\u{d7ff}') || ('\u{e000}' <= c && c <= '\u{10ffff}')
}

/// Powers of sixteen.
spec fn pow16(n: nat) -> nat
    decreases n,
{
    if n == 0 {
        1
    } else {
        16 * pow16((n - 1) as nat)
    }
}

impl Lexer {
    /// A decimal number.
    fn lex_number_decimal(&mut self) -> (r: Result<usize, AnreError>)
        requires
            old(self).reader.wf(),
        ensures
            r matches Err(e) ==> error_view(e) == number_error(old(self).reader.text(), old(self).reader.index()),
            read_on(*old(self), *final(self)),
            r is Ok ==> old(self).reader.index() < final(self).reader.index(),
            r matches Err(e) ==> error_in(e, final(self).reader.text()),
            match number_at(old(self).reader.text(), old(self).reader.index()) {
                Some((v, j)) => r == Ok::<usize, AnreError>(v) && final(self).reader.index() == j,
                None => r is Err,
            },
    {
        let ghost text = self.reader.text();
        if self.reader.peek_char(0).is_none() {
            proof {
                lemma_digit_run_end(text, self.reader.index(), self.reader.index());
            }
            return Err(AnreError::UnexpectedEndOfDocument(string_from_str("Expected a number.")));
        }
        let start = self.reader.peek_position(0);
        let ghost i0 = self.reader.index();
        let mut digits = String::new();
        let mut value: usize = 0;
        let mut overflow = false;
        let mut count: usize = 0;
        loop
            invariant
                self.reader.wf(),
                self.reader.text() == old(self).reader.text(),
                text == self.reader.text(),
                i0 == old(self).reader.index(),
                0 <= i0 < self.reader.text().len(),
                self.reader.index() == i0 + count,
                forall|k: int| i0 <= k < self.reader.index() ==> is_digit(#[trigger] text[k]),
                !overflow ==> value == number_value(text.subrange(i0, self.reader.index())),
                overflow ==> number_value(text.subrange(i0, self.reader.index())) > usize::MAX,
                digits@ == text.subrange(i0, self.reader.index()),
            ensures
                self.reader.index() == text.len() || !is_digit(text[self.reader.index()]),
            decreases self.reader.text().len() - self.reader.index(),
        {
            let c = match self.reader.peek_char(0) {
                Some(c) => c,
                None => {
                    break;
                },
            };
            if !('0' <= c && c <= '9') {
                break;
            }
            let ghost k = self.reader.index();
            proof {
                assert(text.subrange(i0, k + 1).drop_last() =~= text.subrange(i0, k));
                assert(text.subrange(i0, k + 1).last() == c);
            }
            push_char(&mut digits, c);
            let d = (c as u32 - '0' as u32) as usize;
            match value.checked_mul(10) {
                Some(v) => match v.checked_add(d) {
                    Some(w) => {
                        if !overflow {
                            value = w;
                        }
                    },
                    None => {
                        overflow = true;
                    },
                },
                None => {
                    overflow = true;
                },
            }
            self.reader.next_char();
            count = count + 1;
        }
        proof {
            lemma_digit_run_end(text, i0, self.reader.index());
        }
        if count == 0 {
            return Err(AnreError::MessageWithPosition(string_from_str("Expected a number."), start));
        }
        if overflow {
            let end = self.reader.last_position();
            proof {
                lemma_range_at_in(self.reader.text(), i0, self.reader.index() - 1);
            }
            let mut m = string_from_str("Cannot convert \"");
            crate::text::push_str(&mut m, digits.as_str());
            crate::text::push_str(&mut m, "\" to an integer.");
            return Err(AnreError::MessageWithRange(m, Range::new(&start, &end)));
        }
        Ok(value)
    }

    /// `<name>`
    fn lex_capture_group_name(&mut self) -> (r: Result<String, AnreError>)
        requires
            old(self).reader.wf(),
            old(self).reader.index() < old(self).reader.text().len(),
            old(self).reader.text()[old(self).reader.index()] == '<',
        ensures
            r matches Err(e) ==> error_view(e) == group_name_error(old(self).reader.text(), old(self).reader.index()),
            read_on(*old(self), *final(self)),
            r is Ok ==> old(self).reader.index() < final(self).reader.index(),
            r matches Err(e) ==> error_in(e, final(self).reader.text()),
            match group_name_at(old(self).reader.text(), old(self).reader.index()) {
                Some((name, j)) => r matches Ok(s) && s@ == name && final(self).reader.index() == j,
                None => r is Err,
            },
    {
        let ghost text = self.reader.text();
        let start = self.reader.peek_position(0);
        let ghost i0 = self.reader.index();
        self.reader.next_char();
        let mut name = String::new();
        let mut empty = true;
        loop
            invariant
                self.reader.wf(),
                self.reader.text() == old(self).reader.text(),
                text == self.reader.text(),
                i0 == old(self).reader.index(),
                i0 < self.reader.index(),
                0 <= i0 < text.len(),
                forall|k: int| i0 + 1 <= k < self.reader.index() ==> name_char(#[trigger] text[k]),
                name@ == text.subrange(i0 + 1, self.reader.index()),
                empty == (self.reader.index() == i0 + 1),
            ensures
                self.reader.index() < text.len() && text[self.reader.index()] == '>',
            decreases self.reader.text().len() - self.reader.index(),
        {
            let c = match self.reader.peek_char(0) {
                Some(c) => c,
                None => {
                    proof {
                        lemma_name_run_end(text, i0 + 1, self.reader.index());
                    }
                    return Err(
                        AnreError::UnexpectedEndOfDocument(
                            string_from_str("Incomplete capture group name."),
                        ),
                    );
                },
            };
            if c == '>' {
                break;
            }
            if !is_name_char(c) {
                proof {
                    lemma_name_run_end(text, i0 + 1, self.reader.index());
                }
                return Err(
                    AnreError::MessageWithPosition(
                        message_with_char("Invalid character '", c, "' in capture group name."),
                        self.reader.peek_position(0),
                    ),
                );
            }
            let ghost k = self.reader.index();
            push_char(&mut name, c);
            empty = false;
            self.reader.next_char();
            proof {
                assert(name@ =~= text.subrange(i0 + 1, k + 1));
            }
        }
        proof {
            lemma_name_run_end(text, i0 + 1, self.reader.index());
        }
        match self.consume_char_and_assert('>', "closing angle bracket") {
            Ok(()) => {},
            Err(e) => {
                return Err(e);
            },
        }
        if empty {
            let end = self.reader.last_position();
            proof {
                lemma_range_at_in(self.reader.text(), i0, self.reader.index() - 1);
            }
            return Err(
                AnreError::MessageWithRange(
                    string_from_str("Expected a capture group name."),
                    Range::new(&start, &end),
                ),
            );
        }
        Ok(name)
    }

    /// `{hhhhhh}` after `\u`: the character of a hexadecimal code point.
    fn unescape_unicode(&mut self) -> (r: Result<char, AnreError>)
        requires
            old(self).reader.wf(),
            2 <= old(self).reader.index() < old(self).reader.text().len(),
            old(self).reader.text()[old(self).reader.index() - 2] == '\\',
            old(self).reader.text()[old(self).reader.index() - 1] == 'u',
            old(self).reader.text()[old(self).reader.index()] == '{',
        ensures
            r matches Err(e) ==> error_view(e) == unicode_error(old(self).reader.text(), old(self).reader.index() - 2),
            read_on(*old(self), *final(self)),
            r is Ok ==> old(self).reader.index() < final(self).reader.index(),
            r matches Err(e) ==> error_in(e, final(self).reader.text()),
            match unicode_escape_at(old(self).reader.text(), old(self).reader.index() - 2) {
                Some((c, j)) => r == Ok::<char, AnreError>(c) && final(self).reader.index() == j,
                None => r is Err,
            },
    {
        let ghost text = self.reader.text();
        let start = self.reader.peek_position(0);
        let ghost i0 = self.reader.index();
        self.reader.next_char();
        let ghost s0 = i0 + 1;
        let mut value: u32 = 0;
        let mut count: usize = 0;
        proof {
            reveal_with_fuel(pow16, 8);
        }
        loop
            invariant_except_break
                count <= 6,
            invariant
                self.reader.wf(),
                self.reader.text() == old(self).reader.text(),
                text == self.reader.text(),
                i0 == old(self).reader.index(),
                s0 == i0 + 1,
                2 <= i0 < text.len(),
                self.reader.index() == s0 + count,
                count <= 7,
                value < pow16(count as nat),
                pow16(6) == 0x1000000,
                forall|k: int| s0 <= k < self.reader.index() ==> is_hex_digit(#[trigger] text[k]),
                value == hex_value(text.subrange(s0, self.reader.index())),
            ensures
                count > 6 || (self.reader.index() < text.len() && text[self.reader.index()] == '}'),
            decreases self.reader.text().len() - self.reader.index(),
        {
            let c = match self.reader.peek_char(0) {
                Some(c) => c,
                None => {
                    proof {
                        lemma_hex_run_end_is(text, s0, self.reader.index());
                    }
                    return Err(
                        AnreError::UnexpectedEndOfDocument(
                            string_from_str("Incomplete unicode escape sequence."),
                        ),
                    );
                },
            };
            if c == '}' {
                break;
            }
            if !char_is_hex_digit(c) {
                proof {
                    lemma_hex_run_end_is(text, s0, self.reader.index());
                }
                return Err(
                    AnreError::MessageWithPosition(
                        message_with_char("Invalid character '", c, "' in Unicode escape sequence."),
                        self.reader.peek_position(0),
                    ),
                );
            }
            let ghost k = self.reader.index();
            proof {
                assert(pow16((count + 1) as nat) == 16 * pow16(count as nat));
                assert(pow16(count as nat) <= 0x1000000) by {
                    reveal_with_fuel(pow16, 8);
                }
                assert(text.subrange(s0, k + 1).drop_last() =~= text.subrange(s0, k));
                assert(text.subrange(s0, k + 1).last() == c);
            }
            value = value * 16 + char_hex_digit_value(c);
            count = count + 1;
            self.reader.next_char();
            if count > 6 {
                break;
            }
        }
        if count > 6 {
            let end = self.reader.last_position();
            proof {
                lemma_range_at_in(self.reader.text(), i0, self.reader.index() - 1);
                lemma_hex_run_at_least(text, s0, self.reader.index());
            }
            return Err(
                AnreError::MessageWithRange(
                    string_from_str("Unicode code point exceeds six digits."),
                    Range::new(&start, &end),
                ),
            );
        }
        proof {
            lemma_hex_run_end_is(text, s0, self.reader.index());
        }
        match self.consume_char_and_assert('}', "closing brace for unicode escape sequence") {
            Ok(()) => {},
            Err(e) => {
                return Err(e);
            },
        }
        let end = self.reader.last_position();
        proof {
            lemma_range_at_in(self.reader.text(), i0, self.reader.index() - 1);
        }
        let range = Range::new(&start, &end);
        if count == 0 {
            return Err(
                AnreError::MessageWithRange(
                    string_from_str("Unicode escape sequence has an empty code point."),
                    range,
                ),
            );
        }
        match char_from_u32(value) {
            Some(c) => Ok(c),
            None => Err(AnreError::MessageWithRange(string_from_str("Invalid Unicode code point."), range)),
        }
    }
}

impl Lexer {
    /// An escape sequence outside a character set: `\t`, `\u{...}`, `\w`,
    /// `\b`, `\1`, `\k<name>`, an escaped meta character.
    fn lex_escape_sequence(&mut self) -> (r: Result<TokenWithRange, AnreError>)
        requires
            old(self).reader.wf(),
            old(self).reader.index() < old(self).reader.text().len(),
            old(self).reader.text()[old(self).reader.index()] == '\\',
        ensures
            r matches Err(e) ==> error_view(e) == escape_error(old(self).reader.text(), old(self).reader.index()),
            read_on(*old(self), *final(self)),
            r matches Ok(t) ==> covers(t, *old(self), *final(self)),
            r matches Err(e) ==> error_in(e, final(self).reader.text()),
            match escape_token_at(old(self).reader.text(), old(self).reader.index()) {
                Some((t, j)) => r matches Ok(tw) && token_eq(tw.token, t) && final(self).reader.index() == j,
                None => r is Err,
            },
    {
        let ghost text = self.reader.text();
        let start = self.reader.peek_position(0);
        let ghost i0 = self.reader.index();
        self.reader.next_char();
        let c = match self.reader.peek_char(0) {
            Some(c) => c,
            None => {
                return Err(
                    AnreError::UnexpectedEndOfDocument(string_from_str("Incomplete escape sequence.")),
                );
            },
        };
        let token = if c == 't' {
            self.reader.next_char();
            Token::Char('\t')
        } else if c == 'n' {
            self.reader.next_char();
            Token::Char('\n')
        } else if c == 'r' {
            self.reader.next_char();
            Token::Char('\r')
        } else if c == 'u' {
            self.reader.next_char();
            if self.reader.peek_char_and_equals(0, '{') {
                match self.unescape_unicode() {
                    Ok(u) => Token::Char(u),
                    Err(e) => {
                        return Err(e);
                    },
                }
            } else {
                return Err(
                    AnreError::MessageWithPosition(
                        string_from_str("Missing opening brace for Unicode escape sequence."),
                        self.reader.last_position(),
                    ),
                );
            }
        } else if is_meta_char(c) {
            self.reader.next_char();
            Token::Char(c)
        } else if c == 'w' || c == 'W' || c == 'd' || c == 'D' || c == 's' || c == 'S' {
            self.reader.next_char();
            Token::PresetCharSet(c)
        } else if c == 'b' || c == 'B' {
            self.reader.next_char();
            Token::WordBoundaryAssertion(c == 'B')
        } else if '1' <= c && c <= '9' {
            match self.lex_number_decimal() {
                Ok(n) => Token::BackReferenceNumber(n),
                Err(e) => {
                    return Err(e);
                },
            }
        } else if c == '0' {
            let end = self.reader.peek_position(0);
            proof {
                lemma_range_at_in(self.reader.text(), i0, self.reader.index());
            }
            return Err(
                AnreError::MessageWithRange(
                    string_from_str("Cannot back-reference group 0."),
                    Range::new(&start, &end),
                ),
            );
        } else if c == 'k' {
            self.reader.next_char();
            if self.reader.peek_char_and_equals(0, '<') {
                match self.lex_capture_group_name() {
                    Ok(name) => {
                        proof {
                            assert(exists|t: String| t@ == name@);
                        }
                        Token::BackReferenceName(name)
                    },
                    Err(e) => {
                        return Err(e);
                    },
                }
            } else {
                // The range reaches the character after `\k`, or the `k`
                // itself at the end of the text.
                let end = if self.reader.peek_char(0).is_some() {
                    self.reader.peek_position(0)
                } else {
                    self.reader.last_position()
                };
                proof {
                    if self.reader.index() < self.reader.text().len() {
                        lemma_range_at_in(self.reader.text(), i0, self.reader.index());
                    } else {
                        lemma_range_at_in(self.reader.text(), i0, self.reader.index() - 1);
                    }
                }
                return Err(
                    AnreError::MessageWithRange(
                        string_from_str("Missing opening angle bracket for group name."),
                        Range::new(&start, &end),
                    ),
                );
            }
        } else {
            let end = self.reader.peek_position(0);
            proof {
                lemma_range_at_in(self.reader.text(), i0, self.reader.index());
            }
            return Err(
                AnreError::MessageWithRange(
                    message_with_char("Unsupported escape char '", c, "'."),
                    Range::new(&start, &end),
                ),
            );
        };
        let end = self.reader.last_position();
        Ok(TokenWithRange::new(token, Range::new(&start, &end)))
    }

    /// An escape sequence inside a character set.
    fn lex_escape_sequence_within_charset(&mut self) -> (r: Result<TokenWithRange, AnreError>)
        requires
            old(self).reader.wf(),
            old(self).reader.index() < old(self).reader.text().len(),
            old(self).reader.text()[old(self).reader.index()] == '\\',
        ensures
            r matches Err(e) ==> error_view(e) == charset_escape_error(old(self).reader.text(), old(self).reader.index()),
            read_on(*old(self), *final(self)),
            r matches Ok(t) ==> covers(t, *old(self), *final(self)),
            r matches Err(e) ==> error_in(e, final(self).reader.text()),
            match charset_escape_at(old(self).reader.text(), old(self).reader.index()) {
                Some((t, j)) => r matches Ok(tw) && tw.token == t && final(self).reader.index() == j,
                None => r is Err,
            },
    {
        let ghost text = self.reader.text();
        let start = self.reader.peek_position(0);
        let ghost i0 = self.reader.index();
        self.reader.next_char();
        let c = match self.reader.peek_char(0) {
            Some(c) => c,
            None => {
                return Err(
                    AnreError::UnexpectedEndOfDocument(string_from_str("Incomplete escape sequence.")),
                );
            },
        };
        let token = if c == 't' {
            self.reader.next_char();
            Token::Char('\t')
        } else if c == 'n' {
            self.reader.next_char();
            Token::Char('\n')
        } else if c == 'r' {
            self.reader.next_char();
            Token::Char('\r')
        } else if c == 'u' {
            self.reader.next_char();
            if self.reader.peek_char_and_equals(0, '{') {
                match self.unescape_unicode() {
                    Ok(u) => Token::Char(u),
                    Err(e) => {
                        return Err(e);
                    },
                }
            } else {
                let end = self.reader.last_position();
                proof {
                    lemma_range_at_in(self.reader.text(), i0, self.reader.index() - 1);
                }
                return Err(
                    AnreError::MessageWithRange(
                        string_from_str("Missing opening brace for Unicode escape sequence."),
                        Range::new(&start, &end),
                    ),
                );
            }
        } else if is_meta_char(c) {
            self.reader.next_char();
            Token::Char(c)
        } else if c == 'w' || c == 'd' || c == 's' {
            self.reader.next_char();
            Token::PresetCharSet(c)
        } else {
            let end = self.reader.peek_position(0);
            proof {
                lemma_range_at_in(self.reader.text(), i0, self.reader.index());
            }
            let message = if c == 'W' || c == 'D' || c == 'S' {
                message_with_char(
                    "Negative character class '",
                    c,
                    "' is not supported in a character set.",
                )
            } else if c == 'b' || c == 'B' {
                string_from_str("Word boundary assertions are not supported in a character set.")
            } else if ('0' <= c && c <= '9') || c == 'k' {
                string_from_str("Backreferences are not supported in a character set.")
            } else {
                message_with_char("Unsupported escape char '", c, "' in charset.")
            };
            return Err(AnreError::MessageWithRange(message, Range::new(&start, &end)));
        };
        let end = self.reader.last_position();
        Ok(TokenWithRange::new(token, Range::new(&start, &end)))
    }

    /// `{m}`, `{m,}` or `{m,n}`, lazy when a `?` follows.
    fn lex_repetition(&mut self) -> (r: Result<TokenWithRange, AnreError>)
        requires
            old(self).reader.wf(),
            old(self).reader.index() < old(self).reader.text().len(),
            old(self).reader.text()[old(self).reader.index()] == '{',
        ensures
            r matches Err(e) ==> error_view(e) == repetition_error(old(self).reader.text(), old(self).reader.index()),
            read_on(*old(self), *final(self)),
            r matches Ok(t) ==> covers(t, *old(self), *final(self)),
            r matches Err(e) ==> error_in(e, final(self).reader.text()),
            match repetition_at(old(self).reader.text(), old(self).reader.index()) {
                Some((t, j)) => r matches Ok(tw) && tw.token == t && final(self).reader.index() == j,
                None => r is Err,
            },
    {
        let start = self.reader.peek_position(0);
        self.reader.next_char();
        let from = match self.lex_number_decimal() {
            Ok(n) => n,
            Err(e) => {
                return Err(e);
            },
        };
        let repetition = if self.reader.peek_char_and_equals(0, ',') {
            self.reader.next_char();
            if self.reader.peek_char_and_equals(0, '}') {
                self.reader.next_char();
                Repetition::RepeatFrom(from)
            } else {
                let to = match self.lex_number_decimal() {
                    Ok(n) => n,
                    Err(e) => {
                        return Err(e);
                    },
                };
                match self.consume_char_and_assert('}', "closing brace") {
                    Ok(()) => {},
                    Err(e) => {
                        return Err(e);
                    },
                }
                Repetition::RepeatRange(from, to)
            }
        } else {
            match self.consume_char_and_assert('}', "closing brace") {
                Ok(()) => {},
                Err(e) => {
                    return Err(e);
                },
            }
            Repetition::Repeat(from)
        };
        let lazy = if self.reader.peek_char_and_equals(0, '?') {
            self.reader.next_char();
            true
        } else {
            false
        };
        let end = self.reader.last_position();
        Ok(TokenWithRange::new(Token::Repetition(repetition, lazy), Range::new(&start, &end)))
    }
}

/// The characters that have a meaning of their own and stand for
/// themselves when escaped.
fn is_meta_char(c: char) -> (r: bool)
    ensures
        r == meta_char(c),
{
    c == '(' || c == ')' || c == '{' || c == '}' || c == '[' || c == ']' || c == '+' || c == '*'
        || c == '?' || c == '.' || c == '|' || c == '^' || c == '$' || c == '\\'
}

/// Joins `x`, `-`, `y` into the range token `x-y`, scanning from the end
/// of a character set towards its start.
fn merge_char_ranges(tokens: &mut Vec<TokenWithRange>, Ghost(text): Ghost<Seq<char>>, Ghost(lo): Ghost<int>, Ghost(hi): Ghost<int>) -> (r: Result<(), AnreError>)
    requires
        spans_in(old(tokens)@, text),
        spans_within(old(tokens)@, lo, hi),
    ensures
        r matches Err(e) ==> error_view(e) == merge_error(old(tokens)@),
        spans_in(final(tokens)@, text),
        spans_within(final(tokens)@, lo, hi),
        r matches Err(e) ==> error_in(e, text),
        match merge_ranges(old(tokens)@) {
            Some(ts) => r is Ok && final(tokens)@ == ts,
            None => r is Err,
        },
{
    if tokens.len() <= 4 {
        return Ok(());
    }
    let ghost orig = tokens@;
    let mut idx = tokens.len() - 3;
    while idx > 1
        invariant
            spans_in(tokens@, text),
            spans_within(tokens@, lo, hi),
            idx + 2 < tokens.len(),
            merge_ranges(orig) == merge_ranges_from(tokens@, idx as int),
            merge_error(orig) == merge_error_from(tokens@, idx as int),
            orig == old(tokens)@,
        decreases idx,
    {
        let is_dash = match &tokens[idx].token {
            Token::Char(c) => *c == '-',
            _ => false,
        };
        if is_dash {
            let range_start = tokens[idx - 1].range;
            let range_end = tokens[idx + 1].range;
            proof {
                assert(range_in(text, tokens@[idx - 1].range));
                assert(range_in(text, tokens@[idx + 1].range));
            }
            let char_start = match &tokens[idx - 1].token {
                Token::Char(c) => *c,
                _ => {
                    proof {
                        assert(!(tokens@[idx - 1].token is Char));
                        assert(merge_ranges_from(tokens@, idx as int) is None);
                    }
                    return Err(
                        AnreError::MessageWithRange(
                            string_from_str("Expected a character for a range, for example \"A-Z\"."),
                            range_start,
                        ),
                    );
                },
            };
            let char_end = match &tokens[idx + 1].token {
                Token::Char(c) => *c,
                _ => {
                    proof {
                        assert(!(tokens@[idx + 1].token is Char));
                        assert(merge_ranges_from(tokens@, idx as int) is None);
                    }
                    return Err(
                        AnreError::MessageWithRange(
                            string_from_str("Expected a character for a range, for example \"a-z\"."),
                            range_end,
                        ),
                    );
                },
            };
            let merged = TokenWithRange::new(
                Token::CharRange(char_start, char_end),
                Range::merge(&range_start, &range_end),
            );
            let ghost before = tokens@;
            let pos = idx - 1;
            tokens.remove(pos);
            tokens.remove(pos);
            tokens.remove(pos);
            tokens.insert(pos, merged);
            proof {
                lemma_merge_three(before, pos as int, merged, text, lo, hi);
                assert(tokens@ =~= before.subrange(0, pos as int).push(merged) + before.subrange(
                    pos + 3,
                    before.len() as int,
                ));
            }
            idx = idx - 2;
        } else {
            idx = idx - 1;
        }
    }
    Ok(())
}

impl Lexer {
    /// `[...]` or `[^...]`: its start token, its elements and its end token.
    fn lex_charset(&mut self) -> (r: Result<Vec<TokenWithRange>, AnreError>)
        requires
            old(self).reader.wf(),
            old(self).reader.index() < old(self).reader.text().len(),
            old(self).reader.text()[old(self).reader.index()] == '[',
        ensures
            r matches Err(e) ==> error_view(e) == charset_error(old(self).reader.text(), old(self).reader.index()),
            read_on(*old(self), *final(self)),
            r matches Ok(ts) ==> spans_in(ts@, final(self).reader.text()) && spans_within(
                ts@,
                old(self).reader.index(),
                final(self).reader.index(),
            ) && old(self).reader.index() < final(self).reader.index(),
            r matches Err(e) ==> error_in(e, final(self).reader.text()),
            match charset_at(old(self).reader.text(), old(self).reader.index()) {
                Some((ts, j)) => r matches Ok(v) && v@ == ts && final(self).reader.index() == j,
                None => r is Err,
            },
    {
        let ghost text = self.reader.text();
        let ghost i0 = self.reader.index();
        let mut tokens: Vec<TokenWithRange> = Vec::new();
        let start = self.reader.peek_position(0);
        self.reader.next_char();
        let first = if self.reader.peek_char_and_equals(0, '^') {
            self.reader.next_char();
            let end = self.reader.last_position();
            TokenWithRange::new(Token::CharSetStartNegative, Range::new(&start, &end))
        } else {
            let end = self.reader.last_position();
            TokenWithRange::new(Token::CharSetStart, Range::new(&start, &end))
        };
        let ghost j0 = self.reader.index();
        proof {
            lemma_push_span(tokens@, first, text, i0, self.reader.index());
            assert(j0 == if next_is(text, i0, '^') { i0 + 2 } else { i0 + 1 });
        }
        tokens.push(first);
        let ghost mut els: Seq<TokenWithRange> = seq![];
        proof {
            assert(prepend_elements(els, charset_elements(text, j0)) == charset_elements(text, j0)) by {
                match charset_elements(text, j0) {
                    Some((rest, e)) => {
                        assert(els + rest =~= rest);
                    },
                    None => {},
                }
            }
        }
        loop
            invariant
                self.reader.wf(),
                self.reader.text() == text,
                text == old(self).reader.text(),
                i0 == old(self).reader.index(),
                i0 < j0 <= self.reader.index(),
                spans_in(tokens@, text),
                spans_within(tokens@, i0, self.reader.index()),
                tokens@ == seq![first] + els,
                charset_elements(text, j0) == prepend_elements(els, charset_elements(text, self.reader.index())),
                charset_elements_error(text, j0) == charset_elements_error(text, self.reader.index() as int),
                j0 == if next_is(text, i0, '^') { i0 + 2 } else { i0 + 1 },
                first == token_over(text, if next_is(text, i0, '^') { Token::CharSetStartNegative } else { Token::CharSetStart }, i0, j0),
            ensures
                self.reader.index() < text.len(),
                text[self.reader.index()] == ']',
            decreases text.len() - self.reader.index(),
        {
            let c = match self.reader.peek_char(0) {
                Some(c) => c,
                None => {
                    proof {
                        assert(charset_elements(text, self.reader.index()) is None);
                    }
                    return Err(
                        AnreError::UnexpectedEndOfDocument(string_from_str("Incomplete character set.")),
                    );
                },
            };
            if c == ']' {
                break;
            }
            let ghost a = self.reader.index();
            let t = if c == '\\' {
                match self.lex_escape_sequence_within_charset() {
                    Ok(t) => t,
                    Err(e) => {
                        proof {
                            assert(charset_elements(text, a) is None);
                        }
                        return Err(e);
                    },
                }
            } else {
                self.single(Token::Char(c))
            };
            let ghost b = self.reader.index();
            proof {
                lemma_push_span(tokens@, t, text, a, self.reader.index());
                assert(spans_within(tokens@.push(t), i0, self.reader.index()));
                assert(t == token_over(text, t.token, a, b));
                match charset_elements(text, b) {
                    Some((rest, e)) => {
                        assert(charset_elements(text, a) == Some((seq![t] + rest, e)));
                        assert(els + (seq![t] + rest) =~= els.push(t) + rest);
                    },
                    None => {
                        assert(charset_elements(text, a) is None);
                    },
                }
                assert(tokens@.push(t) =~= seq![first] + els.push(t));
                els = els.push(t);
            }
            tokens.push(t);
        }
        let ghost a = self.reader.index();
        let last = self.single(Token::CharSetEnd);
        proof {
            lemma_push_span(tokens@, last, text, a, self.reader.index());
            assert(spans_within(tokens@.push(last), i0, self.reader.index()));
            assert(els + seq![] =~= els);
            assert(last == token_over(text, Token::CharSetEnd, a, a + 1));
        }
        tokens.push(last);
        proof {
            assert(first == token_over(text, first.token, i0, j0));
            assert(tokens@ =~= seq![first] + els + seq![last]);
        }
        match merge_char_ranges(&mut tokens, Ghost(text), Ghost(i0), Ghost(self.reader.index() as int)) {
            Ok(()) => {},
            Err(e) => {
                return Err(e);
            },
        }
        Ok(tokens)
    }

    /// One token outside a character set.
    fn lex_token(&mut self) -> (r: Result<TokenWithRange, AnreError>)
        requires
            old(self).reader.wf(),
            old(self).reader.index() < old(self).reader.text().len(),
        ensures
            r matches Err(e) ==> error_view(e) == token_error(old(self).reader.text(), old(self).reader.index()),
            read_on(*old(self), *final(self)),
            r matches Ok(t) ==> covers(t, *old(self), *final(self)),
            r matches Err(e) ==> error_in(e, final(self).reader.text()),
            match token_at(old(self).reader.text(), old(self).reader.index()) {
                Some((t, j)) => r matches Ok(tw) && token_eq(tw.token, t) && final(self).reader.index() == j,
                None => r is Err,
            },
    {
        let c = match self.reader.peek_char(0) {
            Some(c) => c,
            None => {
                return Err(AnreError::UnexpectedEndOfDocument(string_from_str("Expected a token.")));
            },
        };
        if c == '{' {
            self.lex_repetition()
        } else if c == '(' && self.reader.peek_char_and_equals(1, '?') {
            self.lex_group_start()
        } else if c == '(' {
            Ok(self.single(Token::GroupStart))
        } else if c == ')' {
            Ok(self.single(Token::GroupEnd))
        } else if c == '?' && self.reader.peek_char_and_equals(1, '?') {
            Ok(self.double(Token::LazyOptional))
        } else if c == '?' {
            Ok(self.single(Token::Optional))
        } else if c == '+' && self.reader.peek_char_and_equals(1, '?') {
            Ok(self.double(Token::LazyOneOrMore))
        } else if c == '+' {
            Ok(self.single(Token::OneOrMore))
        } else if c == '*' && self.reader.peek_char_and_equals(1, '?') {
            Ok(self.double(Token::LazyZeroOrMore))
        } else if c == '*' {
            Ok(self.single(Token::ZeroOrMore))
        } else if c == '^' {
            Ok(self.single(Token::LineBoundaryAssertionStart))
        } else if c == '$' {
            Ok(self.single(Token::LineBoundaryAssertionEnd))
        } else if c == '.' {
            Ok(self.single(Token::Dot))
        } else if c == '|' {
            Ok(self.single(Token::LogicOr))
        } else if c == '\\' {
            self.lex_escape_sequence()
        } else {
            Ok(self.single(Token::Char(c)))
        }
    }

    fn lex(&mut self) -> (r: Result<Vec<TokenWithRange>, AnreError>)
        requires
            old(self).reader.wf(),
            old(self).reader.index() == 0,
        ensures
            r matches Err(e) ==> error_view(e) == lex_error(old(self).reader.text(), 0),
            match r {
                Ok(tokens) => spans_in(tokens@, old(self).reader.text()),
                Err(e) => error_in(e, old(self).reader.text()),
            },
            match lex_from(old(self).reader.text(), 0) {
                Some(ts) => r matches Ok(v) && tokens_agree(v@, ts),
                None => r is Err,
            },
    {
        let ghost text = self.reader.text();
        let mut tokens: Vec<TokenWithRange> = Vec::new();
        let ghost mut sp: Seq<TokenWithRange> = seq![];
        proof {
            match lex_from(text, 0) {
                Some(rest) => {
                    assert(sp + rest =~= rest);
                },
                None => {},
            }
        }
        loop
            invariant
                self.reader.wf(),
                self.reader.text() == text,
                text == old(self).reader.text(),
                spans_in(tokens@, text),
                spans_within(tokens@, 0, self.reader.index()),
                lex_from(text, 0) == prepend_tokens(sp, lex_from(text, self.reader.index())),
                tokens_agree(tokens@, sp),
                lex_error(text, 0) == lex_error(text, self.reader.index() as int),
            ensures
                self.reader.index() >= text.len(),
                lex_from(text, 0) == Some(sp),
            decreases text.len() - self.reader.index(),
        {
            let c = match self.reader.peek_char(0) {
                Some(c) => c,
                None => {
                    proof {
                        assert(sp + seq![] =~= sp);
                    }
                    break;
                },
            };
            let ghost a = self.reader.index();
            if c == '[' {
                let mut more = match self.lex_charset() {
                    Ok(ts) => ts,
                    Err(e) => {
                        return Err(e);
                    },
                };
                let ghost b = self.reader.index();
                proof {
                    lemma_append_spans(tokens@, more@, text, a, self.reader.index() as int);
                    let ts = more@;
                    match lex_from(text, b) {
                        Some(rest) => {
                            assert(sp + (ts + rest) =~= (sp + ts) + rest);
                        },
                        None => {},
                    }
                    let u = tokens@ + more@;
                    let v = sp + ts;
                    assert forall|k: int| 0 <= k < u.len() implies token_eq((#[trigger] u[k]).token, v[k].token)
                        && u[k].range == v[k].range by {
                        if k < tokens@.len() {
                            assert(u[k] == tokens@[k] && v[k] == sp[k]);
                        } else {
                            assert(u[k] == ts[k - tokens@.len()] && v[k] == ts[k - sp.len()]);
                        }
                    }
                    sp = sp + ts;
                }
                tokens.append(&mut more);
            } else {
                let t = match self.lex_token() {
                    Ok(t) => t,
                    Err(e) => {
                        return Err(e);
                    },
                };
                let ghost b = self.reader.index();
                proof {
                    lemma_push_span(tokens@, t, text, a, self.reader.index() as int);
                    let st = token_at(text, a)->Some_0.0;
                    let tok = token_over(text, st, a, b);
                    match lex_from(text, b) {
                        Some(rest) => {
                            assert(sp + (seq![tok] + rest) =~= sp.push(tok) + rest);
                        },
                        None => {},
                    }
                    let u = tokens@.push(t);
                    let v = sp.push(tok);
                    assert forall|k: int| 0 <= k < u.len() implies token_eq((#[trigger] u[k]).token, v[k].token)
                        && u[k].range == v[k].range by {
                        if k < tokens@.len() {
                            assert(u[k] == tokens@[k] && v[k] == sp[k]);
                        }
                    }
                    sp = sp.push(tok);
                }
                tokens.push(t);
            }
        }
        Ok(tokens)
    }

    /// `(?:`, `(?<name>`, `(?=`, `(?!`, `(?<=` or `(?<!`.
    fn lex_group_start(&mut self) -> (r: Result<TokenWithRange, AnreError>)
        requires
            old(self).reader.wf(),
            old(self).reader.index() + 1 < old(self).reader.text().len(),
            old(self).reader.text()[old(self).reader.index()] == '(',
            old(self).reader.text()[old(self).reader.index() + 1] == '?',
        ensures
            r matches Err(e) ==> error_view(e) == group_start_error(old(self).reader.text(), old(self).reader.index()),
            read_on(*old(self), *final(self)),
            r matches Ok(t) ==> covers(t, *old(self), *final(self)),
            r matches Err(e) ==> error_in(e, final(self).reader.text()),
            match group_start_at(old(self).reader.text(), old(self).reader.index()) {
                Some((t, j)) => r matches Ok(tw) && token_eq(tw.token, t) && final(self).reader.index() == j,
                None => r is Err,
            },
    {
        let start = self.reader.peek_position(0);
        let ghost i0 = self.reader.index();
        let kind = match self.reader.peek_char(2) {
            Some(k) => k,
            None => {
                return Err(AnreError::UnexpectedEndOfDocument(string_from_str("Incomplete group.")));
            },
        };
        if !(kind == ':' || kind == '<' || kind == '=' || kind == '!') {
            let end = self.reader.peek_position(2);
            proof {
                lemma_range_at_in(self.reader.text(), i0, i0 + 2);
            }
            return Err(
                AnreError::MessageWithRange(
                    string_from_str("Invalid group syntax."),
                    Range::new(&start, &end),
                ),
            );
        }
        self.reader.next_char();
        self.reader.next_char();
        let token = if kind == ':' {
            self.reader.next_char();
            Token::NonCaptureGroupStart
        } else if kind == '=' {
            self.reader.next_char();
            Token::LookAheadGroupStart
        } else if kind == '!' {
            self.reader.next_char();
            Token::LookAheadNegativeGroupStart
        } else if self.reader.peek_char_and_equals(1, '=') {
            self.reader.next_char();
            self.reader.next_char();
            Token::LookBehindGroupStart
        } else if self.reader.peek_char_and_equals(1, '!') {
            self.reader.next_char();
            self.reader.next_char();
            Token::LookBehindNegativeGroupStart
        } else {
            match self.lex_capture_group_name() {
                Ok(name) => {
                    proof {
                        assert(exists|t: String| t@ == name@);
                    }
                    Token::NamedCaptureGroupStart(name)
                },
                Err(e) => {
                    return Err(e);
                },
            }
        };
        let end = self.reader.last_position();
        Ok(TokenWithRange::new(token, Range::new(&start, &end)))
    }
}

} // verus!
