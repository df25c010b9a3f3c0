use vstd::prelude::*;

use crate::anre::token::{
    char_content, decodes, error_in, escape_at, hex_run_end, is_keyword, is_terminator,
    simple_escape, token_source, tokens_from_text, unicode_escape_at, Token, TokenWithRange,
};
use crate::charclass::{
    char_digit_value, char_from_u32, char_hex_digit_value, char_is_digit, char_is_hex_digit,
    char_is_ident_char, char_is_ident_start, digit_value, hex_digit_value, hex_value, is_digit,
    is_hex_digit, is_ident_char, is_ident_start, is_scalar_value, number_value,
};
use crate::anre::scan::{
    block_end, char_at, ident_at, lemma_string_of, ident_run_end, line_end, number_at, number_run_end, read_as, string_rest, step_at, lex_from, prepend_tokens, tokens_agree,
    token_eq, unicode_error, escape_error, string_error, char_error, closing_quote_error,
    block_error, number_error, ident_error, step_error, lex_error,
};
use crate::error::{error_view, AnreError};
use crate::position::{Position, Range};
use crate::reader::{pos_at, position_in, range_at, range_in, CharReader};
use crate::text::{message_with_char, push_char, string_from_chars, string_from_str};

verus! {

/// Splits an ANRE pattern into tokens. Blanks, commas and comments
/// separate tokens and produce none.
pub fn lex_from_str(s: &str) -> (r: Result<Vec<TokenWithRange>, AnreError>)
    ensures
        match r {
            Ok(tokens) => tokens_from_text(tokens@, s@),
            Err(e) => error_in(e, s@),
        },
        match r {
            Ok(tokens) => lex_from(s@, 0) is Some && tokens_agree(tokens@, lex_from(s@, 0)->0),
            Err(_) => lex_from(s@, 0) is None,
        },
        r matches Err(e) ==> error_view(e) == lex_error(s@, 0),
{
    let mut lexer = Lexer { reader: CharReader::from_str(s) };
    lexer.lex()
}

struct Lexer {
    reader: CharReader,
}

proof fn lemma_subrange_one(text: Seq<char>, i: int)
    requires
        0 <= i < text.len(),
    ensures
        text.subrange(i, i + 1) == seq![text[i]],
{
    assert(text.subrange(i, i + 1) =~= seq![text[i]]);
}

proof fn lemma_subrange_drop_last(text: Seq<char>, a: int, b: int)
    requires
        0 <= a < b <= text.len(),
    ensures
        text.subrange(a, b).drop_last() == text.subrange(a, b - 1),
        text.subrange(a, b).last() == text[b - 1],
        text.subrange(a, b) == text.subrange(a, b - 1).push(text[b - 1]),
{
    assert(text.subrange(a, b).drop_last() =~= text.subrange(a, b - 1));
    assert(text.subrange(a, b) =~= text.subrange(a, b - 1).push(text[b - 1]));
}

proof fn lemma_subrange_two(text: Seq<char>, i: int)
    requires
        0 <= i && i + 1 < text.len(),
    ensures
        text.subrange(i, i + 2) == seq![text[i], text[i + 1]],
{
    assert(text.subrange(i, i + 2) =~= seq![text[i], text[i + 1]]);
}

fn is_terminator_char(c: char) -> (r: bool)
    ensures
        r == is_terminator(c),
{
    c == ' ' || c == '\t' || c == '\r' || c == '\n' || c == ',' || c == '|' || c == '!' || c
        == '[' || c == ']' || c == '(' || c == ')' || c == '/' || c == '\'' || c == '"' || c
        == '.' || c == '#' || c == '^' || c == '?' || c == '+' || c == '*' || c == '{' || c
        == '}'
}

fn is_keyword_chars(v: &Vec<char>) -> (r: bool)
    ensures
        r == is_keyword(v@),
{
    let r = (v.len() == 6 && v[0] == 'd' && v[1] == 'e' && v[2] == 'f' && v[3] == 'i' && v[4]
        == 'n' && v[5] == 'e') || (v.len() == 2 && v[0] == 'a' && v[1] == 's');
    proof {
        if v.len() == 6 {
            assert(v@ == seq!['d', 'e', 'f', 'i', 'n', 'e'] <==> (v@[0] == 'd' && v@[1] == 'e'
                && v@[2] == 'f' && v@[3] == 'i' && v@[4] == 'n' && v@[5] == 'e')) by {
                if v@[0] == 'd' && v@[1] == 'e' && v@[2] == 'f' && v@[3] == 'i' && v@[4] == 'n'
                    && v@[5] == 'e' {
                    assert(v@ =~= seq!['d', 'e', 'f', 'i', 'n', 'e']);
                }
            }
        }
        if v.len() == 2 {
            assert(v@ == seq!['a', 's'] <==> (v@[0] == 'a' && v@[1] == 's')) by {
                if v@[0] == 'a' && v@[1] == 's' {
                    assert(v@ =~= seq!['a', 's']);
                }
            }
        }
    }
    r
}

impl Lexer {
    spec fn text(&self) -> Seq<char> {
        self.reader.text()
    }

    spec fn index(&self) -> int {
        self.reader.index()
    }

    /// Reads one punctuation token of `length` characters.
    fn lex_punctuation(&mut self, token: Token, length: usize) -> (t: TokenWithRange)
        requires
            old(self).reader.wf(),
            length == 1 || length == 2,
            old(self).index() + length <= old(self).text().len(),
            token_source(
                token,
                old(self).text(),
                old(self).index(),
                old(self).index() + length - 1,
            ),
        ensures
            final(self).reader.wf(),
            final(self).text() == old(self).text(),
            final(self).index() == old(self).index() + length,
            t.token == token,
            t.range == range_at(old(self).text(), old(self).index(), final(self).index() - 1),
            range_in(final(self).text(), t.range),
    {
        let start = self.reader.peek_position(0);
        self.reader.next_char();
        if length == 2 {
            self.reader.next_char();
        }
        let end = self.reader.last_position();
        TokenWithRange::new(token, Range::new(&start, &end))
    }

    fn lex_identifier(&mut self) -> (r: Result<TokenWithRange, AnreError>)
        requires
            old(self).reader.wf(),
            old(self).index() < old(self).text().len(),
            is_ident_start(old(self).text()[old(self).index()]),
        ensures
            final(self).reader.wf(),
            final(self).text() == old(self).text(),
            match r {
                Ok(t) => {
                    &&& final(self).index() > old(self).index()
                    &&& t.range == range_at(
                        old(self).text(),
                        old(self).index(),
                        final(self).index() - 1,
                    )
                    &&& range_in(old(self).text(), t.range)
                    &&& token_source(
                        t.token,
                        old(self).text(),
                        old(self).index(),
                        final(self).index() - 1,
                    )
                },
                Err(e) => error_in(e, old(self).text()),
            },
            match r {
                Ok(t) => read_as(
                    ident_at(old(self).text(), old(self).index()),
                    t.token,
                    final(self).index(),
                ),
                Err(_) => ident_at(old(self).text(), old(self).index()) is None,
            },
            r matches Err(e) ==> error_view(e) == ident_error(old(self).text(), old(self).index()),
    {
        let ghost text = self.text();
        let ghost i0 = self.index();
        let start = self.reader.peek_position(0);
        let mut buffer: Vec<char> = Vec::new();
        loop
            invariant
                self.reader.wf(),
                self.text() == text,
                text == old(self).text(),
                i0 < self.index() <= text.len() || (i0 == self.index() && buffer.len() == 0),
                buffer@ == text.subrange(i0, self.index()),
                i0 < text.len(),
                0 <= i0,
                i0 == old(self).index(),
                is_ident_start(text[i0]),
                forall|k: int| 0 <= k < buffer.len() ==> is_ident_char(#[trigger] buffer@[k]),
            ensures
                i0 < self.index() <= text.len(),
                buffer@ == text.subrange(i0, self.index()),
                forall|k: int| 0 <= k < buffer.len() ==> is_ident_char(#[trigger] buffer@[k]),
                self.index() == text.len() || is_terminator(text[self.index()]),
            decreases text.len() - self.index(),
        {
            match self.reader.peek_char(0) {
                Some(c) => {
                    if char_is_ident_char(c) {
                        buffer.push(c);
                        self.reader.next_char();
                        assert(buffer@ =~= text.subrange(i0, self.index()));
                    } else if is_terminator_char(c) {
                        break;
                    } else {
                        proof {
                            assert forall|k: int| i0 <= k < self.index() implies is_ident_char(
                                #[trigger] text[k],
                            ) by {
                                assert(text[k] == buffer@[k - i0]);
                            }
                            lemma_ident_run_end(text, i0, self.index());
                        }
                        let p = self.reader.peek_position(0);
                        return Err(
                            AnreError::MessageWithPosition(
                                message_with_char("Invalid character '", c, "' in identifier."),
                                p,
                            ),
                        );
                    }
                },
                None => {
                    break;
                },
            }
        }
        let end = self.reader.last_position();
        let range = Range::new(&start, &end);
        let keyword = is_keyword_chars(&buffer);
        let name = string_from_chars(buffer.as_slice());
        assert(text.subrange(i0, self.index() - 1 + 1) == buffer@);
        proof {
            assert forall|k: int| i0 <= k < self.index() implies is_ident_char(
                #[trigger] text[k],
            ) by {
                assert(text[k] == buffer@[k - i0]);
            }
            lemma_ident_run_end(text, i0, self.index());
            lemma_string_of(name);
        }
        let token = if keyword {
            Token::Keyword(name)
        } else {
            Token::Identifier(name)
        };
        Ok(TokenWithRange::new(token, range))
    }

    fn lex_number_decimal(&mut self) -> (r: Result<TokenWithRange, AnreError>)
        requires
            old(self).reader.wf(),
            old(self).index() < old(self).text().len(),
            is_digit(old(self).text()[old(self).index()]),
        ensures
            final(self).reader.wf(),
            final(self).text() == old(self).text(),
            match r {
                Ok(t) => {
                    &&& final(self).index() > old(self).index()
                    &&& t.range == range_at(
                        old(self).text(),
                        old(self).index(),
                        final(self).index() - 1,
                    )
                    &&& range_in(old(self).text(), t.range)
                    &&& token_source(
                        t.token,
                        old(self).text(),
                        old(self).index(),
                        final(self).index() - 1,
                    )
                },
                Err(e) => error_in(e, old(self).text()),
            },
            match r {
                Ok(t) => number_at(old(self).text(), old(self).index()) == Some(
                    (t.token, final(self).index()),
                ),
                Err(_) => number_at(old(self).text(), old(self).index()) is None,
            },
            r matches Err(e) ==> error_view(e) == number_error(old(self).text(), old(self).index()),
    {
        let ghost text = self.text();
        let ghost i0 = self.index();
        let start = self.reader.peek_position(0);
        let mut value: usize = 0;
        let mut overflow = false;
        loop
            invariant
                self.reader.wf(),
                self.text() == text,
                text == old(self).text(),
                i0 <= self.index() <= text.len(),
                i0 < text.len(),
                0 <= i0,
                i0 == old(self).index(),
                is_digit(text[i0]),
                forall|k: int|
                    i0 <= k < self.index() ==> is_digit(#[trigger] text[k]) || text[k] == '_',
                !overflow ==> value == number_value(text.subrange(i0, self.index())),
                overflow ==> number_value(text.subrange(i0, self.index())) > usize::MAX,
            ensures
                i0 < self.index() <= text.len(),
                forall|k: int|
                    i0 <= k < self.index() ==> is_digit(#[trigger] text[k]) || text[k] == '_',
                !overflow ==> value == number_value(text.subrange(i0, self.index())),
                overflow ==> number_value(text.subrange(i0, self.index())) > usize::MAX,
                self.index() == text.len() || is_terminator(text[self.index()]),
            decreases text.len() - self.index(),
        {
            let ghost i = self.index();
            match self.reader.peek_char(0) {
                Some(c) => {
                    if char_is_digit(c) {
                        let d = char_digit_value(c);
                        self.reader.next_char();
                        proof { lemma_subrange_drop_last(text, i0, i + 1); }
                        if !overflow {
                            if value <= (usize::MAX - d as usize) / 10 {
                                value = value * 10 + d as usize;
                            } else {
                                overflow = true;
                            }
                        }
                    } else if c == '_' {
                        self.reader.next_char();
                        proof { lemma_subrange_drop_last(text, i0, i + 1); }
                    } else if is_terminator_char(c) {
                        break;
                    } else {
                        proof { lemma_number_run_end(text, i0, self.index()); }
                        let p = self.reader.peek_position(0);
                        return Err(
                            AnreError::MessageWithPosition(
                                message_with_char("Invalid digit '", c, "' for decimal number."),
                                p,
                            ),
                        );
                    }
                },
                None => {
                    break;
                },
            }
        }
        let end = self.reader.last_position();
        let range = Range::new(&start, &end);
        assert(text.subrange(i0, self.index() - 1 + 1) == text.subrange(i0, self.index()));
        proof { lemma_number_run_end(text, i0, self.index()); }
        if overflow {
            return Err(
                AnreError::MessageWithRange(
                    string_from_str("Cannot convert the number to an integer."),
                    range,
                ),
            );
        }
        Ok(TokenWithRange::new(Token::Number(value), range))
    }

    fn lex(&mut self) -> (r: Result<Vec<TokenWithRange>, AnreError>)
        requires
            old(self).reader.wf(),
            old(self).index() == 0,
        ensures
            match r {
                Ok(tokens) => tokens_from_text(tokens@, old(self).text()),
                Err(e) => error_in(e, old(self).text()),
            },
            match r {
                Ok(tokens) => lex_from(old(self).text(), 0) is Some && tokens_agree(
                    tokens@,
                    lex_from(old(self).text(), 0)->0,
                ),
                Err(_) => lex_from(old(self).text(), 0) is None,
            },
            r matches Err(e) ==> error_view(e) == lex_error(old(self).text(), 0),
    {
        let ghost text = self.text();
        let mut tokens: Vec<TokenWithRange> = Vec::new();
        let ghost mut sp: Seq<TokenWithRange> = seq![];
        proof {
            lemma_prepend_none(text, self.index());
        }
        loop
            invariant
                self.reader.wf(),
                self.text() == text,
                text == old(self).text(),
                self.index() <= text.len(),
                tokens_from_text(tokens@, text),
                forall|k: int|
                    0 <= k < tokens.len() ==> (#[trigger] tokens@[k]).range.end_inclusive.index
                        < self.index(),
                tokens_agree(tokens@, sp),
                lex_from(text, 0) == prepend_tokens(sp, lex_from(text, self.index() as int)),
                lex_error(text, 0) == lex_error(text, self.index() as int),
            ensures
                self.index() == text.len(),
                tokens_from_text(tokens@, text),
                tokens_agree(tokens@, sp),
                lex_from(text, 0) == prepend_tokens(sp, lex_from(text, self.index() as int)),
            decreases text.len() - self.index(),
        {
            let ghost i = self.index();
            let c = match self.reader.peek_char(0) {
                Some(c) => c,
                None => {
                    break;
                },
            };
            proof {
                lemma_subrange_one(text, i);
                if i + 1 < text.len() {
                    lemma_subrange_two(text, i);
                }
            }
            let mut produced: Option<TokenWithRange> = None;
            if c == ' ' || c == '\t' || c == '\n' || c == ',' {
                self.reader.next_char();
            } else if c == '\r' && self.reader.peek_char_and_equals(1, '\n') {
                self.reader.next_char();
                self.reader.next_char();
            } else if c == '|' && self.reader.peek_char_and_equals(1, '|') {
                produced = Some(self.lex_punctuation(Token::LogicOr, 2));
            } else if c == '!' {
                produced = Some(self.lex_punctuation(Token::Not, 1));
            } else if c == '.' && self.reader.peek_char_and_equals(1, '.') {
                produced = Some(self.lex_punctuation(Token::Range, 2));
            } else if c == '.' {
                produced = Some(self.lex_punctuation(Token::Dot, 1));
            } else if c == '#' {
                produced = Some(self.lex_punctuation(Token::Hash, 1));
            } else if c == '^' {
                produced = Some(self.lex_punctuation(Token::Caret, 1));
            } else if c == '[' {
                produced = Some(self.lex_punctuation(Token::BracketOpen, 1));
            } else if c == ']' {
                produced = Some(self.lex_punctuation(Token::BracketClose, 1));
            } else if c == '(' {
                produced = Some(self.lex_punctuation(Token::ParenthesisOpen, 1));
            } else if c == ')' {
                produced = Some(self.lex_punctuation(Token::ParenthesisClose, 1));
            } else if c == '?' && self.reader.peek_char_and_equals(1, '?') {
                produced = Some(self.lex_punctuation(Token::LazyOptional, 2));
            } else if c == '?' {
                produced = Some(self.lex_punctuation(Token::Optional, 1));
            } else if c == '+' && self.reader.peek_char_and_equals(1, '?') {
                produced = Some(self.lex_punctuation(Token::LazyOneOrMore, 2));
            } else if c == '+' {
                produced = Some(self.lex_punctuation(Token::OneOrMore, 1));
            } else if c == '*' && self.reader.peek_char_and_equals(1, '?') {
                produced = Some(self.lex_punctuation(Token::LazyZeroOrMore, 2));
            } else if c == '*' {
                produced = Some(self.lex_punctuation(Token::ZeroOrMore, 1));
            } else if c == '{' {
                produced = Some(self.lex_punctuation(Token::BraceOpen, 1));
            } else if c == '}' {
                produced = Some(self.lex_punctuation(Token::BraceClose, 1));
            } else if char_is_digit(c) {
                match self.lex_number_decimal() {
                    Ok(t) => { produced = Some(t); },
                    Err(e) => { return Err(e); },
                }
            } else if c == '"' {
                match self.lex_string() {
                    Ok(t) => { produced = Some(t); },
                    Err(e) => { return Err(e); },
                }
            } else if c == '\'' {
                match self.lex_char() {
                    Ok(t) => { produced = Some(t); },
                    Err(e) => { return Err(e); },
                }
            } else if c == '/' && self.reader.peek_char_and_equals(1, '/') {
                self.lex_line_comment();
            } else if c == '/' && self.reader.peek_char_and_equals(1, '*') {
                match self.lex_block_comment() {
                    Ok(()) => {},
                    Err(e) => { return Err(e); },
                }
            } else if char_is_ident_start(c) {
                match self.lex_identifier() {
                    Ok(t) => { produced = Some(t); },
                    Err(e) => { return Err(e); },
                }
            } else {
                let p = self.reader.peek_position(0);
                return Err(
                    AnreError::MessageWithPosition(
                        message_with_char("Unexpected character '", c, "'."),
                        p,
                    ),
                );
            }
            let ghost j = self.index();
            assert(step_gives(text, i, produced_token(produced), j));
            proof {
                lemma_lex_step(text, i, j);
            }
            match produced {
                Some(t) => {
                    let ghost old_tokens = tokens@;
                    let ghost old_sp = sp;
                    let ghost x = TokenWithRange { token: step_token(text, i)->0, range: t.range };
                    tokens.push(t);
                    assert forall|k: int| 0 <= k < old_tokens.len() implies (#[trigger] tokens@[k]).range.end_inclusive.index < tokens@[old_tokens.len() as int].range.start.index by {
                        assert(tokens@[k] == old_tokens[k]);
                    }
                    proof {
                        sp = sp.push(x);
                        lemma_prepend_push(old_sp, x, lex_from(text, j));
                        assert forall|k: int| 0 <= k < tokens.len() implies token_eq(
                            (#[trigger] tokens@[k]).token,
                            sp[k].token,
                        ) && tokens@[k].range == sp[k].range by {
                            if k < old_tokens.len() {
                                assert(tokens@[k] == old_tokens[k]);
                                assert(sp[k] == old_sp[k]);
                            }
                        }
                    }
                },
                None => {},
            }
        }
        proof {
            assert(sp + Seq::<TokenWithRange>::empty() =~= sp);
        }
        Ok(tokens)
    }

    fn lex_line_comment(&mut self)
        requires
            old(self).reader.wf(),
            old(self).index() + 1 < old(self).text().len(),
        ensures
            final(self).reader.wf(),
            final(self).text() == old(self).text(),
            final(self).index() > old(self).index(),
            final(self).index() == line_end(old(self).text(), old(self).index() + 2),
    {
        let ghost text = self.text();
        let ghost i0 = self.index();
        self.reader.next_char();
        self.reader.next_char();
        loop
            invariant
                self.reader.wf(),
                self.text() == text,
                text == old(self).text(),
                self.index() <= text.len(),
                i0 == old(self).index(),
                self.index() >= i0 + 2,
                forall|k: int| i0 + 2 <= k < self.index() ==> #[trigger] text[k] != '\n',
            ensures
                self.index() <= text.len(),
                self.index() >= i0 + 2,
                forall|k: int| i0 + 2 <= k < self.index() ==> #[trigger] text[k] != '\n',
                self.index() == text.len() || text[self.index()] == '\n',
            decreases text.len() - self.index(),
        {
            match self.reader.peek_char(0) {
                Some(c) => {
                    if c == '\n' {
                        break;
                    }
                    self.reader.next_char();
                },
                None => {
                    break;
                },
            }
        }
        proof { lemma_line_end(text, i0 + 2, self.index()); }
    }

    fn lex_block_comment(&mut self) -> (r: Result<(), AnreError>)
        requires
            old(self).reader.wf(),
            old(self).index() + 1 < old(self).text().len(),
        ensures
            final(self).reader.wf(),
            final(self).text() == old(self).text(),
            r is Ok ==> final(self).index() > old(self).index(),
            r matches Err(e) ==> error_in(e, old(self).text()),
            r is Ok ==> block_end(old(self).text(), old(self).index() + 2, 1) == Some(
                final(self).index(),
            ),
            r is Err ==> block_end(old(self).text(), old(self).index() + 2, 1) is None,
            r matches Err(e) ==> error_view(e) == block_error(old(self).text(), old(self).index() + 2, 1),
    {
        let ghost text = self.text();
        let ghost i0 = self.index();
        self.reader.next_char();
        self.reader.next_char();
        let mut depth: usize = 1;
        loop
            invariant_except_break
                1 <= depth,
                block_end(text, i0 + 2, 1) == block_end(text, self.index(), depth as nat),
                block_error(text, i0 + 2, 1) == block_error(text, self.index(), depth as nat),
            invariant
                self.reader.wf(),
                self.text() == text,
                text == old(self).text(),
                i0 + 2 <= self.index() <= text.len(),
                i0 == old(self).index(),
                depth <= self.index(),
            ensures
                block_end(text, i0 + 2, 1) == Some(self.index() as int),
            decreases text.len() - self.index(),
        {
            match self.reader.next_char() {
                Some(c) => {
                    if c == '/' && self.reader.peek_char_and_equals(0, '*') {
                        self.reader.next_char();
                        depth = depth + 1;
                    } else if c == '*' && self.reader.peek_char_and_equals(0, '/') {
                        self.reader.next_char();
                        if depth <= 1 {
                            break;
                        }
                        depth = depth - 1;
                    }
                },
                None => {
                    let message = if depth > 1 {
                        string_from_str("Incomplete nested block comment.")
                    } else {
                        string_from_str("Incomplete block comment.")
                    };
                    return Err(AnreError::UnexpectedEndOfDocument(message));
                },
            }
        }
        Ok(())
    }

    fn lex_char(&mut self) -> (r: Result<TokenWithRange, AnreError>)
        requires
            old(self).reader.wf(),
            old(self).index() < old(self).text().len(),
            old(self).text()[old(self).index()] == '\'',
        ensures
            final(self).reader.wf(),
            final(self).text() == old(self).text(),
            match r {
                Ok(t) => {
                    &&& final(self).index() > old(self).index()
                    &&& t.range == range_at(
                        old(self).text(),
                        old(self).index(),
                        final(self).index() - 1,
                    )
                    &&& range_in(old(self).text(), t.range)
                    &&& token_source(
                        t.token,
                        old(self).text(),
                        old(self).index(),
                        final(self).index() - 1,
                    )
                },
                Err(e) => error_in(e, old(self).text()),
            },
            match r {
                Ok(t) => char_at(old(self).text(), old(self).index()) == Some(
                    (t.token, final(self).index()),
                ),
                Err(_) => char_at(old(self).text(), old(self).index()) is None,
            },
            r matches Err(e) ==> error_view(e) == char_error(old(self).text(), old(self).index()),
    {
        let ghost text = self.text();
        let ghost a = self.index();
        let start = self.reader.peek_position(0);
        self.reader.next_char();
        let character = match self.reader.next_char() {
            Some(current_char) => {
                if current_char == '\\' {
                    match self.reader.next_char() {
                        Some(escape_type) => {
                            if escape_type == 'u' {
                                if self.reader.peek_char_and_equals(0, '{') {
                                    match self.unescape_unicode_code_point() {
                                        Ok(c) => c,
                                        Err(e) => { return Err(e); },
                                    }
                                } else {
                                    let p = self.reader.last_position();
                                    return Err(
                                        AnreError::MessageWithPosition(
                                            string_from_str(
                                                "Missing opening brace for Unicode escape sequence.",
                                            ),
                                            p,
                                        ),
                                    );
                                }
                            } else {
                                match unescape_simple(escape_type) {
                                    Some(c) => c,
                                    None => {
                                        let p = self.reader.last_position();
                                        return Err(
                                            AnreError::MessageWithRange(
                                                message_with_char(
                                                    "Unsupported escape char '",
                                                    escape_type,
                                                    "'.",
                                                ),
                                                Range::new(&start, &p),
                                            ),
                                        );
                                    },
                                }
                            }
                        },
                        None => {
                            return Err(
                                AnreError::UnexpectedEndOfDocument(
                                    string_from_str("Incomplete escape sequence."),
                                ),
                            );
                        },
                    }
                } else if current_char == '\'' {
                    let p = self.reader.last_position();
                    return Err(
                        AnreError::MessageWithRange(
                            string_from_str("Empty character literal."),
                            Range::new(&start, &p),
                        ),
                    );
                } else {
                    current_char
                }
            },
            None => {
                return Err(
                    AnreError::UnexpectedEndOfDocument(
                        string_from_str("Incomplete character literal."),
                    ),
                );
            },
        };
        let ghost b = self.index();
        assert(char_content(text, a + 1, b) == Some(character));
        match self.reader.next_char() {
            Some(c) => {
                if c != '\'' {
                    let p = self.reader.last_position();
                    return Err(
                        AnreError::MessageWithPosition(
                            string_from_str("Expected a closing quote for a character literal."),
                            p,
                        ),
                    );
                }
            },
            None => {
                return Err(
                    AnreError::UnexpectedEndOfDocument(
                        string_from_str("Incomplete character literal."),
                    ),
                );
            },
        }
        let end = self.reader.last_position();
        Ok(TokenWithRange::new(Token::Char(character), Range::new(&start, &end)))
    }

    /// Reads `{h..h}` after `\u`, and gives the character it names.
    fn unescape_unicode_code_point(&mut self) -> (r: Result<char, AnreError>)
        requires
            old(self).reader.wf(),
            2 <= old(self).index() < old(self).text().len(),
            old(self).text()[old(self).index() - 2] == '\\',
            old(self).text()[old(self).index() - 1] == 'u',
            old(self).text()[old(self).index()] == '{',
        ensures
            final(self).reader.wf(),
            final(self).text() == old(self).text(),
            match r {
                Ok(c) => unicode_escape_at(old(self).text(), old(self).index() - 2) == Some(
                    (c, final(self).index()),
                ),
                Err(e) => error_in(e, old(self).text()),
            },
            r is Err ==> unicode_escape_at(old(self).text(), old(self).index() - 2) is None,
            r matches Err(e) ==> error_view(e) == unicode_error(old(self).text(), old(self).index() - 2),
    {
        let ghost text = self.text();
        let ghost i = self.index() - 2;
        let start = self.reader.peek_position(0);
        self.reader.next_char();
        let ghost s0 = self.index();
        let mut count: usize = 0;
        let mut value: u32 = 0;
        loop
            invariant_except_break
                count <= 6,
                count <= 0 ==> value < 0x1,
                count <= 1 ==> value < 0x10,
                count <= 2 ==> value < 0x100,
                count <= 3 ==> value < 0x1000,
                count <= 4 ==> value < 0x1_0000,
                count <= 5 ==> value < 0x10_0000,
                value < 0x100_0000,
            invariant
                self.reader.wf(),
                self.text() == text,
                text == old(self).text(),
                s0 == i + 3,
                i == old(self).index() - 2,
                0 <= i,
                self.index() == s0 + count,
                self.index() <= text.len(),
                forall|k: int| s0 <= k < self.index() ==> is_hex_digit(#[trigger] text[k]),
                value == hex_value(text.subrange(s0, self.index())),
            ensures
                self.index() == s0 + count,
                self.index() <= text.len(),
                count <= 7,
                forall|k: int| s0 <= k < self.index() ==> is_hex_digit(#[trigger] text[k]),
                value == hex_value(text.subrange(s0, self.index())),
                count > 6 || (self.index() < text.len() && text[self.index()] == '}'),
            decreases text.len() - self.index(),
        {
            match self.reader.peek_char(0) {
                Some(c) => {
                    if c == '}' {
                        break;
                    } else if char_is_hex_digit(c) {
                        let ghost k = self.index();
                        let d = char_hex_digit_value(c);
                        proof { lemma_subrange_drop_last(text, s0, k + 1); }
                        value = value * 16 + d;
                        count = count + 1;
                        self.reader.next_char();
                    } else {
                        proof { lemma_hex_run_end(text, s0, self.index()); }
                        let p = self.reader.peek_position(0);
                        return Err(
                            AnreError::MessageWithPosition(
                                message_with_char(
                                    "Invalid character '",
                                    c,
                                    "' in Unicode escape sequence.",
                                ),
                                p,
                            ),
                        );
                    }
                },
                None => {
                    proof { lemma_hex_run_end(text, s0, self.index()); }
                    return Err(
                        AnreError::UnexpectedEndOfDocument(
                            string_from_str("Incomplete unicode escape sequence."),
                        ),
                    );
                },
            }
            if count > 6 {
                break;
            }
        }
        if count > 6 {
            proof { lemma_hex_run_beyond(text, s0, self.index()); }
            let p = self.reader.last_position();
            return Err(
                AnreError::MessageWithRange(
                    string_from_str("Unicode code point exceeds six digits."),
                    Range::new(&start, &p),
                ),
            );
        }
        proof {
            lemma_hex_run_end(text, s0, self.index());
        }
        let ghost e = self.index();
        self.reader.next_char();
        let end = self.reader.last_position();
        let range = Range::new(&start, &end);
        if count == 0 {
            return Err(
                AnreError::MessageWithRange(
                    string_from_str("Unicode escape sequence has an empty code point."),
                    range,
                ),
            );
        }
        match char_from_u32(value) {
            Some(c) => Ok(c),
            None => Err(
                AnreError::MessageWithRange(string_from_str("Invalid Unicode code point."), range),
            ),
        }
    }

    fn lex_string(&mut self) -> (r: Result<TokenWithRange, AnreError>)
        requires
            old(self).reader.wf(),
            old(self).index() < old(self).text().len(),
            old(self).text()[old(self).index()] == '"',
        ensures
            final(self).reader.wf(),
            final(self).text() == old(self).text(),
            match r {
                Ok(t) => {
                    &&& final(self).index() > old(self).index()
                    &&& t.range == range_at(
                        old(self).text(),
                        old(self).index(),
                        final(self).index() - 1,
                    )
                    &&& range_in(old(self).text(), t.range)
                    &&& token_source(
                        t.token,
                        old(self).text(),
                        old(self).index(),
                        final(self).index() - 1,
                    )
                },
                Err(e) => error_in(e, old(self).text()),
            },
            match r {
                Ok(t) => match t.token {
                    Token::String(s) => string_rest(old(self).text(), old(self).index() + 1, seq![])
                        == Some((s@, final(self).index())),
                    _ => false,
                },
                Err(_) => string_rest(old(self).text(), old(self).index() + 1, seq![]) is None,
            },
            r matches Err(e) ==> error_view(e) == string_error(old(self).text(), old(self).index() + 1),
    {
        let ghost text = self.text();
        let ghost a = self.index();
        let start = self.reader.peek_position(0);
        self.reader.next_char();
        let mut buffer: Vec<char> = Vec::new();
        loop
            invariant_except_break
                decodes(text, a + 1, self.index(), buffer@),
                string_rest(text, a + 1, seq![]) == string_rest(text, self.index(), buffer@),
                string_error(text, a + 1) == string_error(text, self.index()),
            invariant
                self.reader.wf(),
                self.text() == text,
                text == old(self).text(),
                a + 1 <= self.index() <= text.len(),
                0 <= a,
                a == old(self).index(),
                text[a] == '"',
            ensures
                a + 2 <= self.index() <= text.len(),
                text[self.index() - 1] == '"',
                decodes(text, a + 1, self.index() - 1, buffer@),
                string_rest(text, a + 1, seq![]) == Some((buffer@, self.index() as int)),
            decreases text.len() - self.index(),
        {
            let ghost y = self.index();
            match self.reader.next_char() {
                Some(current_char) => {
                    if current_char == '\\' {
                        match self.reader.next_char() {
                            Some(escape_type) => {
                                if escape_type == 'u' {
                                    if self.reader.peek_char_and_equals(0, '{') {
                                        let c = match self.unescape_unicode_code_point() {
                                            Ok(c) => c,
                                            Err(e) => { return Err(e); },
                                        };
                                        proof {
                                            lemma_decodes_extend(
                                                text,
                                                a + 1,
                                                y,
                                                buffer@,
                                                c,
                                                self.index(),
                                            );
                                        }
                                        buffer.push(c);
                                    } else {
                                        let p = self.reader.last_position();
                                        return Err(
                                            AnreError::MessageWithPosition(
                                                string_from_str(
                                                    "Missing opening brace for Unicode escape sequence.",
                                                ),
                                                p,
                                            ),
                                        );
                                    }
                                } else {
                                    match unescape_simple(escape_type) {
                                        Some(c) => {
                                            proof {
                                                lemma_decodes_extend(
                                                    text,
                                                    a + 1,
                                                    y,
                                                    buffer@,
                                                    c,
                                                    self.index(),
                                                );
                                            }
                                            buffer.push(c);
                                        },
                                        None => {
                                            let p = self.reader.last_position();
                                            return Err(
                                                AnreError::MessageWithPosition(
                                                    message_with_char(
                                                        "Unsupported escape char '",
                                                        escape_type,
                                                        "'.",
                                                    ),
                                                    p,
                                                ),
                                            );
                                        },
                                    }
                                }
                            },
                            None => {
                                return Err(
                                    AnreError::UnexpectedEndOfDocument(
                                        string_from_str("Incomplete escape sequence."),
                                    ),
                                );
                            },
                        }
                    } else if current_char == '"' {
                        break;
                    } else {
                        proof {
                            lemma_decodes_extend(
                                text,
                                a + 1,
                                y,
                                buffer@,
                                current_char,
                                self.index(),
                            );
                        }
                        buffer.push(current_char);
                    }
                },
                None => {
                    return Err(
                        AnreError::UnexpectedEndOfDocument(
                            string_from_str("Incomplete string literal."),
                        ),
                    );
                },
            }
        }
        let end = self.reader.last_position();
        let s = string_from_chars(buffer.as_slice());
        Ok(TokenWithRange::new(Token::String(s), Range::new(&start, &end)))
    }
}

fn unescape_simple(c: char) -> (r: Option<char>)
    ensures
        r == simple_escape(c),
{
    if c == '\\' {
        Some('\\')
    } else if c == '\'' {
        Some('\'')
    } else if c == '"' {
        Some('"')
    } else if c == 't' {
        Some('\t')
    } else if c == 'r' {
        Some('\r')
    } else if c == 'n' {
        Some('\n')
    } else if c == '0' {
        Some('\0')
    } else {
        None
    }
}

/// The token that `produced` holds, if any.
spec fn produced_token(produced: Option<TokenWithRange>) -> Option<Token> {
    match produced {
        Some(t) => Some(t.token),
        None => None,
    }
}

/// The token that the lexer reads at `i`, if any.
spec fn step_token(text: Seq<char>, i: int) -> Option<Token> {
    match step_at(text, i) {
        Some((o, _)) => o,
        None => None,
    }
}

/// What the lexer reads at `i` is the token `t` (nothing, for `None`),
/// and the index after it is `j`.
spec fn step_gives(text: Seq<char>, i: int, t: Option<Token>, j: int) -> bool {
    match step_at(text, i) {
        Some((o, k)) => k == j && match o {
            Some(a) => t matches Some(b) && token_eq(a, b),
            None => t is None,
        },
        None => false,
    }
}

proof fn lemma_prepend_none(text: Seq<char>, i: int)
    ensures
        prepend_tokens(seq![], lex_from(text, i)) == lex_from(text, i),
{
    if let Some(rest) = lex_from(text, i) {
        assert(Seq::<TokenWithRange>::empty() + rest =~= rest);
    }
}

proof fn lemma_prepend_push(sp: Seq<TokenWithRange>, x: TokenWithRange, o: Option<Seq<TokenWithRange>>)
    ensures
        prepend_tokens(sp, prepend_tokens(seq![x], o)) == prepend_tokens(sp.push(x), o),
{
    if let Some(rest) = o {
        assert(sp + (seq![x] + rest) =~= sp.push(x) + rest);
    }
}

proof fn lemma_lex_step(text: Seq<char>, i: int, j: int)
    requires
        0 <= i < j <= text.len(),
        step_at(text, i) matches Some((_, k)) && k == j,
    ensures
        lex_from(text, i) == match step_token(text, i) {
            Some(tok) => prepend_tokens(
                seq![TokenWithRange { token: tok, range: range_at(text, i, j - 1) }],
                lex_from(text, j),
            ),
            None => lex_from(text, j),
        },
{
}

proof fn lemma_number_run_end(text: Seq<char>, s0: int, e: int)
    requires
        0 <= s0 <= e <= text.len(),
        forall|k: int| s0 <= k < e ==> is_digit(#[trigger] text[k]) || text[k] == '_',
        e == text.len() || !(is_digit(text[e]) || text[e] == '_'),
    ensures
        number_run_end(text, s0) == e,
    decreases e - s0,
{
    if s0 < e {
        lemma_number_run_end(text, s0 + 1, e);
    }
}

proof fn lemma_ident_run_end(text: Seq<char>, s0: int, e: int)
    requires
        0 <= s0 <= e <= text.len(),
        forall|k: int| s0 <= k < e ==> is_ident_char(#[trigger] text[k]),
        e == text.len() || !is_ident_char(text[e]),
    ensures
        ident_run_end(text, s0) == e,
    decreases e - s0,
{
    if s0 < e {
        lemma_ident_run_end(text, s0 + 1, e);
    }
}

proof fn lemma_line_end(text: Seq<char>, s0: int, e: int)
    requires
        0 <= s0 <= e <= text.len(),
        forall|k: int| s0 <= k < e ==> #[trigger] text[k] != '\n',
        e == text.len() || text[e] == '\n',
    ensures
        line_end(text, s0) == e,
    decreases e - s0,
{
    if s0 < e {
        lemma_line_end(text, s0 + 1, e);
    }
}

proof fn lemma_hex_run_beyond(text: Seq<char>, s0: int, e: int)
    requires
        0 <= s0 <= text.len(),
        e <= text.len(),
        forall|k: int| s0 <= k < e ==> is_hex_digit(#[trigger] text[k]),
    ensures
        hex_run_end(text, s0) >= e,
    decreases text.len() - s0,
{
    if s0 < text.len() && is_hex_digit(text[s0]) {
        lemma_hex_run_beyond(text, s0 + 1, e);
    }
}

proof fn lemma_hex_run_end(text: Seq<char>, s0: int, e: int)
    requires
        0 <= s0 <= e <= text.len(),
        forall|k: int| s0 <= k < e ==> is_hex_digit(#[trigger] text[k]),
        e == text.len() || !is_hex_digit(text[e]),
    ensures
        hex_run_end(text, s0) == e,
    decreases e - s0,
{
    if s0 < e {
        lemma_hex_run_end(text, s0 + 1, e);
    }
}

/// Extending the decoded content of a string literal by one more
/// character or escape sequence.
proof fn lemma_decodes_extend(text: Seq<char>, x: int, y: int, s: Seq<char>, c: char, k: int)
    requires
        0 <= x <= y < text.len(),
        decodes(text, x, y, s),
        (text[y] != '\\' && text[y] != '"' && k == y + 1 && c == text[y]) || (text[y] == '\\'
            && escape_at(text, y) == Some((c, k))),
    ensures
        decodes(text, x, k, s.push(c)),
    decreases y - x,
{
    if x == y {
        assert(s.push(c).drop_first() =~= Seq::<char>::empty());
        if text[y] == '\\' {
            assert(decodes(text, k, k, Seq::<char>::empty()));
        } else {
            assert(decodes(text, y + 1, y + 1, Seq::<char>::empty()));
        }
    } else if text[x] == '\\' {
        let (c0, k0) = escape_at(text, x)->0;
        lemma_decodes_extend(text, k0, y, s.drop_first(), c, k);
        assert(s.push(c).drop_first() =~= s.drop_first().push(c));
    } else {
        lemma_decodes_extend(text, x + 1, y, s.drop_first(), c, k);
        assert(s.push(c).drop_first() =~= s.drop_first().push(c));
    }
}

} // verus!
