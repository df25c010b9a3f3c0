use vstd::prelude::*;

use crate::text::decimal_chars;

use crate::anre::lexer::lex_from_str;
use crate::anre::scan::{lex_from, tokens_agree};
use crate::anre::macro_expander::{expand_from, lemma_expansion_agree};
use crate::anre::macro_expander::expand;
use crate::anre::names::{function_name_from_str, preset_charset_name_from_str};
use crate::anre::token::{clone_token, Token, TokenWithRange};
use crate::ast::{
    BackReference, CharRange, CharSet, CharSetElement, Expression, FunctionCall, FunctionCallArg,
    FunctionName, Literal, Program,
};
use crate::error::AnreError;
use crate::position::{Position, Range};
use crate::reader::{error_located, position_in};
use crate::anre::macro_expander::range_of_some_token;
use crate::text::{message_with_text, push_decimal, push_str, string_equals, string_from_str};
use crate::anre::grammar::{
    a_arg, a_args, a_args_rest, a_charset, a_charset_item, a_charset_rest, a_range_end, a_expression, a_function_call, a_group,
    a_group_rest, a_indexed, a_literal, a_method, a_named, a_notation, a_notation_rest, a_or,
    a_or_rest, a_primary, a_program, a_repetition, is_as, lemma_program_agree,
    named_arg, plain_name, quantifier_name, token_is, Repetition,
};
use crate::ast::{
    arg_view, args_view, element_view, elements_view, expression_view,
    expressions_view, lemma_args_view_pointwise, lemma_args_view_small,
    lemma_elements_view_push, lemma_args_view_push, lemma_expressions_view_pointwise,
    lemma_expressions_view_push, ArgView, CharSetElementView, ExpressionView, 
    literal_view,
};

verus! {

/// Parses a text in the ANRE notation: lexes it, expands its macros and
/// parses the tokens into a program.
pub fn parse_from_str(s: &str) -> (r: Result<Program, AnreError>)
    ensures
        lex_from(s@, 0) is None ==> (r matches Err(e) && crate::error::error_view(e) == crate::anre::scan::lex_error(s@, 0)),
        r matches Err(e) ==> error_located(e, s@),
        s@.len() == 0 ==> r is Err,
        match anre_program(s@) {
            Some(v) => r matches Ok(p) && p@ == v,
            None => r is Err,
        },
{
    let tokens = match lex_from_str(s) {
        Ok(t) => t,
        Err(e) => {
            return Err(e);
        },
    };
    let ghost lexed = tokens@;
    let expanded = match expand(tokens) {
        Ok(t) => t,
        Err(e) => {
            proof {
                lemma_expansion_agree(lexed, lex_from(s@, 0)->0);
                if let AnreError::MessageWithRange(_, range) = e {
                    let i = choose|i: int| 0 <= i < lexed.len() && (#[trigger] lexed[i]).range == range;
                    assert(crate::reader::range_in(s@, lexed[i].range));
                }
            }
            return Err(e);
        },
    };
    proof {
        assert forall|i: int| 0 <= i < expanded@.len() implies range_located(#[trigger] expanded@[i].range, s@) by {
            assert(range_of_some_token(lexed, expanded@[i].range));
            let j = choose|j: int| 0 <= j < lexed.len() && (#[trigger] lexed[j]).range == expanded@[i].range;
            assert(crate::reader::range_in(s@, lexed[j].range));
        }
    }
    proof {
        if s@.len() == 0 && expanded@.len() > 0 {
            assert(range_located(expanded@[0].range, s@));
        }
    }
    let mut parser = Parser::new(expanded, Ghost(s@));
    let r = parser.parse_program();
    proof {
        let ts = lex_from(s@, 0)->0;
        lemma_expansion_agree(lexed, ts);
        if let Some(x) = expand_from(lexed, 0, seq![], seq![]) {
            lemma_program_agree(x, expand_from(ts, 0, seq![], seq![])->0);
        }
    }
    r
}

/// The program that a text in the ANRE notation stands for: its tokens,
/// with their macros expanded, make one expression; `None` where the text
/// is refused.
pub open spec fn anre_program(text: Seq<char>) -> Option<ExpressionView> {
    match lex_from(text, 0) {
        None => None,
        Some(ts) => match expand_from(ts, 0, seq![], seq![]) {
            None => None,
            Some(expanded) => a_program(expanded),
        },
    }
}

/// A recursive-descent parser over the tokens of the ANRE notation.
pub struct Parser {
    tokens: Vec<TokenWithRange>,
    index: usize,
    /// The range of the token read last.
    pub last_range: Range,
    /// The text that the tokens come from.
    text: Ghost<Seq<char>>,
}

/// Both ends of the range lie in the text.
pub open spec fn range_located(r: Range, text: Seq<char>) -> bool {
    position_in(text, r.start) && position_in(text, r.end_inclusive)
}

/// The range of every token lies in the text.
pub open spec fn tokens_located(tokens: Seq<TokenWithRange>, text: Seq<char>) -> bool {
    forall|i: int| 0 <= i < tokens.len() ==> range_located(#[trigger] tokens[i].range, text)
}

/// `b` is `a` after reading some tokens forward.
spec fn moved(a: Parser, b: Parser) -> bool {
    &&& b.tokens@ == a.tokens@
    &&& b.text@ == a.text@
    &&& a.index <= b.index <= b.tokens@.len()
    &&& b.wf()
}

/// The parser has read every token.
spec fn at_end(p: Parser) -> bool {
    p.index == p.tokens@.len()
}

/// The parser went from `a` to `b` as the grammar says from where `a`
/// stood: to the expression and the index that `g` gives, or to an error
/// where `g` is `None`.
spec fn stepped(a: Parser, b: Parser, r: Result<Expression, AnreError>, g: Option<(ExpressionView, int)>) -> bool {
    match g {
        Some((v, j)) => r matches Ok(e) && e@ == v && b.index == j,
        None => r is Err,
    }
}

/// What holds of every parsing step: it reads forward, it reads at
/// least one token when it succeeds, and it reports the end of the
/// document only at the end of the tokens.
spec fn parsed<T>(a: Parser, b: Parser, r: Result<T, AnreError>) -> bool {
    &&& moved(a, b)
    &&& r is Ok ==> a.index < b.index
    &&& r matches Err(AnreError::UnexpectedEndOfDocument(_)) ==> at_end(b)
    &&& !(r matches Err(AnreError::MessageWithPosition(_, _)))
    &&& r matches Err(e) ==> error_located(e, b.text@)
}

impl Parser {
    fn new(tokens: Vec<TokenWithRange>, Ghost(text): Ghost<Seq<char>>) -> (p: Parser)
        requires
            tokens_located(tokens@, text),
        ensures
            p.tokens@ == tokens@,
            p.index == 0,
            p.text@ == text,
            p.wf(),
    {
        let origin = Position::start();
        proof {
            if tokens@.len() > 0 {
                assert(range_located(tokens@[0].range, text));
                assert(origin == crate::reader::pos_at(text, 0));
            }
        }
        Parser { tokens, index: 0, last_range: Range::new(&origin, &origin), text: Ghost(text) }
    }

    /// The text that the tokens come from.
    pub closed spec fn source(&self) -> Seq<char> {
        self.text@
    }

    /// The tokens that the parser reads.
    pub closed spec fn token_seq(&self) -> Seq<TokenWithRange> {
        self.tokens@
    }

    /// The index of the next token to read.
    pub closed spec fn position(&self) -> int {
        self.index as int
    }

    /// The parser has read every token.
    pub closed spec fn is_at_end(&self) -> bool {
        at_end(*self)
    }

    /// The read position lies within the tokens.
    pub closed spec fn wf(&self) -> bool {
        &&& self.index <= self.tokens@.len()
        &&& tokens_located(self.tokens@, self.text@)
        &&& self.tokens@.len() > 0 ==> range_located(self.last_range, self.text@)
    }

    fn peek_token(&self, offset: usize) -> (r: Option<&Token>)
        requires
            self.wf(),
        ensures
            r is Some <==> self.index + offset < self.tokens@.len(),
            r matches Some(t) ==> *t == self.tokens@[self.index + offset].token,
    {
        if offset < self.tokens.len() - self.index {
            Some(&self.tokens[self.index + offset].token)
        } else {
            None
        }
    }

    fn peek_range(&self, offset: usize) -> (r: Option<Range>)
        requires
            self.wf(),
        ensures
            r is Some <==> self.index + offset < self.tokens@.len(),
            r matches Some(t) ==> t == self.tokens@[self.index + offset].range && range_located(
                t,
                self.text@,
            ),
    {
        if offset < self.tokens.len() - self.index {
            Some(self.tokens[self.index + offset].range)
        } else {
            None
        }
    }

    /// Reads one token.
    fn next_token(&mut self) -> (r: Option<Token>)
        requires
            old(self).wf(),
        ensures
            final(self).wf(),
            final(self).tokens@ == old(self).tokens@,
            final(self).text@ == old(self).text@,
            old(self).index < old(self).tokens@.len() ==> {
                &&& r == Some(old(self).tokens@[old(self).index as int].token)
                &&& final(self).index == old(self).index + 1
                &&& final(self).last_range == old(self).tokens@[old(self).index as int].range
            },
            old(self).index == old(self).tokens@.len() ==> r is None && final(self).index
                == old(self).index,
    {
        if self.index < self.tokens.len() {
            let t = clone_token(&self.tokens[self.index].token);
            self.last_range = self.tokens[self.index].range;
            self.index = self.index + 1;
            Some(t)
        } else {
            None
        }
    }

    fn peek_is(&self, offset: usize, expected: &Token) -> (r: bool)
        requires
            self.wf(),
            !(expected is Keyword || expected is Identifier || expected is String),
        ensures
            r <==> self.index + offset < self.tokens@.len() && self.tokens@[self.index
                + offset].token == *expected,
    {
        match self.peek_token(offset) {
            Some(t) => same_simple_token(t, expected),
            None => false,
        }
    }

    fn consume_identifier(&mut self) -> (r: Result<String, AnreError>)
        requires
            old(self).wf(),
        ensures
            parsed(*old(self), *final(self), r),
            r is Ok ==> old(self).tokens@[old(self).index as int].token == Token::Identifier(
                r->Ok_0,
            ),
            r is Ok <==> old(self).index < old(self).tokens@.len() && old(self).tokens@[old(self).index as int].token is Identifier,
            r is Ok ==> final(self).index == old(self).index + 1,
    {
        match self.next_token() {
            Some(Token::Identifier(id)) => Ok(id),
            Some(_) => Err(
                AnreError::MessageWithRange(
                    string_from_str("Expected an identifier."),
                    self.last_range,
                ),
            ),
            None => Err(AnreError::UnexpectedEndOfDocument(string_from_str("Expected an identifier."))),
        }
    }

    fn consume_number(&mut self) -> (r: Result<usize, AnreError>)
        requires
            old(self).wf(),
        ensures
            parsed(*old(self), *final(self), r),
            r is Ok ==> old(self).tokens@[old(self).index as int].token == Token::Number(r->Ok_0),
            r is Ok <==> old(self).index < old(self).tokens@.len() && old(self).tokens@[old(self).index as int].token is Number,
            r is Ok ==> final(self).index == old(self).index + 1,
    {
        match self.next_token() {
            Some(Token::Number(n)) => Ok(n),
            Some(_) => Err(
                AnreError::MessageWithRange(string_from_str("Expected a number."), self.last_range),
            ),
            None => Err(AnreError::UnexpectedEndOfDocument(string_from_str("Expected a number."))),
        }
    }

    /// Reads one token, which must be `expected`.
    fn consume_token_and_assert(&mut self, expected: &Token, description: &str) -> (r: Result<
        (),
        AnreError,
    >)
        requires
            old(self).wf(),
            !(expected is Keyword || expected is Identifier || expected is String),
        ensures
            parsed(*old(self), *final(self), r),
            r is Ok ==> old(self).tokens@[old(self).index as int].token == *expected,
            r is Ok <==> token_is(old(self).tokens@, old(self).index as int, *expected),
            r is Ok ==> final(self).index == old(self).index + 1,
    {
        match self.next_token() {
            Some(t) => {
                if same_simple_token(&t, expected) {
                    Ok(())
                } else {
                    Err(
                        AnreError::MessageWithRange(
                            message_with_text("Expected token: ", description, "."),
                            self.last_range,
                        ),
                    )
                }
            },
            None => Err(
                AnreError::UnexpectedEndOfDocument(
                    message_with_text("Expected token: ", description, "."),
                ),
            ),
        }
    }

    fn consume_closing_parenthesis(&mut self) -> (r: Result<(), AnreError>)
        requires
            old(self).wf(),
        ensures
            parsed(*old(self), *final(self), r),
            r is Ok <==> token_is(old(self).tokens@, old(self).index as int, Token::ParenthesisClose),
            r is Ok ==> final(self).index == old(self).index + 1,
    {
        self.consume_token_and_assert(&Token::ParenthesisClose, "closing parenthesis")
    }

    fn consume_closing_bracket(&mut self) -> (r: Result<(), AnreError>)
        requires
            old(self).wf(),
        ensures
            parsed(*old(self), *final(self), r),
            r is Ok <==> token_is(old(self).tokens@, old(self).index as int, Token::BracketClose),
            r is Ok ==> final(self).index == old(self).index + 1,
    {
        self.consume_token_and_assert(&Token::BracketClose, "closing bracket")
    }

    fn consume_closing_brace(&mut self) -> (r: Result<(), AnreError>)
        requires
            old(self).wf(),
        ensures
            parsed(*old(self), *final(self), r),
            r is Ok <==> token_is(old(self).tokens@, old(self).index as int, Token::BraceClose),
            r is Ok ==> final(self).index == old(self).index + 1,
    {
        self.consume_token_and_assert(&Token::BraceClose, "closing brace")
    }
}

/// Two tokens without content are the same token.
fn same_simple_token(a: &Token, b: &Token) -> (r: bool)
    requires
        !(b is Keyword || b is Identifier || b is String),
    ensures
        r <==> *a == *b,
{
    match (a, b) {
        (Token::LogicOr, Token::LogicOr) => true,
        (Token::Not, Token::Not) => true,
        (Token::Range, Token::Range) => true,
        (Token::Dot, Token::Dot) => true,
        (Token::Hash, Token::Hash) => true,
        (Token::Caret, Token::Caret) => true,
        (Token::BracketOpen, Token::BracketOpen) => true,
        (Token::BracketClose, Token::BracketClose) => true,
        (Token::ParenthesisOpen, Token::ParenthesisOpen) => true,
        (Token::ParenthesisClose, Token::ParenthesisClose) => true,
        (Token::Optional, Token::Optional) => true,
        (Token::LazyOptional, Token::LazyOptional) => true,
        (Token::OneOrMore, Token::OneOrMore) => true,
        (Token::LazyOneOrMore, Token::LazyOneOrMore) => true,
        (Token::ZeroOrMore, Token::ZeroOrMore) => true,
        (Token::LazyZeroOrMore, Token::LazyZeroOrMore) => true,
        (Token::BraceOpen, Token::BraceOpen) => true,
        (Token::BraceClose, Token::BraceClose) => true,
        (Token::Number(x), Token::Number(y)) => *x == *y,
        (Token::Char(x), Token::Char(y)) => *x == *y,
        _ => false,
    }
}

impl Parser {
    /// Parses the whole token stream as one expression.
    pub fn parse_program(&mut self) -> (r: Result<Program, AnreError>)
        requires
            old(self).wf(),
        ensures
            match a_expression(old(self).token_seq(), old(self).position()) {
                Some((v, j)) => if j >= old(self).token_seq().len() {
                    r matches Ok(p) && p@ == v
                } else {
                    r matches Err(AnreError::MessageWithRange(_, rg)) && rg == old(self).token_seq()[j].range
                },
                None => r is Err,
            },
            r is Ok ==> final(self).is_at_end(),
            r is Ok ==> !old(self).is_at_end(),
            r matches Err(e) ==> error_located(e, old(self).source()),
    {
        let expression = match self.parse_expression() {
            Ok(e) => e,
            Err(e) => {
                return Err(e);
            },
        };
        match self.peek_range(0) {
            Some(range) => Err(
                AnreError::MessageWithRange(
                    string_from_str(
                        "Only one top-level expression is allowed. Wrap multiple expressions in a group.",
                    ),
                    range,
                ),
            ),
            None => Ok(Program { expression }),
        }
    }

    fn parse_expression(&mut self) -> (r: Result<Expression, AnreError>)
        requires
            old(self).wf(),
        ensures
            stepped(*old(self), *final(self), r, a_expression(old(self).tokens@, old(self).index as int)),
            parsed(*old(self), *final(self), r),
        decreases old(self).tokens@.len() - old(self).index, 9nat,
    {
        proof {
            assert(a_expression(self.tokens@, self.index as int) == a_or(self.tokens@, self.index as int));
        }
        self.parse_logic_or()
    }

    /// `a || b || c` reads as `a || (b || c)`.
    fn parse_logic_or(&mut self) -> (r: Result<Expression, AnreError>)
        requires
            old(self).wf(),
        ensures
            stepped(*old(self), *final(self), r, a_or(old(self).tokens@, old(self).index as int)),
            parsed(*old(self), *final(self), r),
        decreases old(self).tokens@.len() - old(self).index, 8nat,
    {
        let ghost ts = self.tokens@;
        let ghost i0 = self.index as int;
        let mut left = match self.parse_named_capture() {
            Ok(e) => e,
            Err(e) => {
                return Err(e);
            },
        };
        while self.peek_is(0, &Token::LogicOr)
            invariant
                self.wf(),
                moved(*old(self), *self),
                old(self).index < self.index,
                ts == self.tokens@,
                i0 == old(self).index,
                a_or(ts, i0) == a_or_rest(ts, left@, self.index as int),
            decreases self.tokens@.len() - self.index,
        {
            self.next_token();
            let right = match self.parse_expression() {
                Ok(e) => e,
                Err(e) => {
                    return Err(e);
                },
            };
            left = Expression::Or(Box::new(left), Box::new(right));
        }
        Ok(left)
    }

    /// `expression as name`
    #[verifier::rlimit(40)]
    fn parse_named_capture(&mut self) -> (r: Result<Expression, AnreError>)
        requires
            old(self).wf(),
        ensures
            stepped(*old(self), *final(self), r, a_named(old(self).tokens@, old(self).index as int)),
            parsed(*old(self), *final(self), r),
        decreases old(self).tokens@.len() - old(self).index, 7nat,
    {
        let expression = match self.parse_index_capture() {
            Ok(e) => e,
            Err(e) => {
                return Err(e);
            },
        };
        let is_as = match self.peek_token(0) {
            Some(Token::Keyword(k)) => string_equals(k.as_str(), "as"),
            _ => false,
        };
        if !is_as {
            return Ok(expression);
        }
        self.next_token();
        let name = match self.consume_identifier() {
            Ok(n) => n,
            Err(e) => {
                return Err(e);
            },
        };
        // Naming an indexed capture names that capture: `#a as x` is `name(a, x)`.
        let ghost ev = expression@;
        let captured = match expression {
            Expression::FunctionCall(call) => {
                let call = *call;
                match call.name {
                    FunctionName::Index => {
                        let mut args = call.args;
                        proof {
                            lemma_args_view_pointwise(args@, args@.len() as int);
                        }
                        if args.len() == 0 {
                            return Err(
                                AnreError::MessageWithRange(
                                    string_from_str("Expected an argument for function \"index\"."),
                                    self.last_range,
                                ),
                            );
                        }
                        args.remove(0)
                    },
                    _ => FunctionCallArg::Expression(
                        Expression::FunctionCall(Box::new(FunctionCall { name: call.name, args: call.args })),
                    ),
                }
            },
            other => FunctionCallArg::Expression(other),
        };
        assert(named_arg(ev) == Some(arg_view(captured)));
        let mut args: Vec<FunctionCallArg> = Vec::new();
        args.push(captured);
        args.push(FunctionCallArg::Identifier(name));
        proof { lemma_args_view_small(args@); }
        Ok(Expression::FunctionCall(Box::new(FunctionCall { name: FunctionName::Name, args })))
    }

    /// `# expression`
    #[verifier::rlimit(40)]
    fn parse_index_capture(&mut self) -> (r: Result<Expression, AnreError>)
        requires
            old(self).wf(),
        ensures
            stepped(*old(self), *final(self), r, a_indexed(old(self).tokens@, old(self).index as int)),
            parsed(*old(self), *final(self), r),
        decreases old(self).tokens@.len() - old(self).index, 6nat,
    {
        if !self.peek_is(0, &Token::Hash) {
            return self.parse_notation_and_method_call();
        }
        self.next_token();
        let expression = match self.parse_notation_and_method_call() {
            Ok(e) => e,
            Err(e) => {
                return Err(e);
            },
        };
        let is_named = match &expression {
            Expression::FunctionCall(call) => match call.name {
                FunctionName::Name => true,
                _ => false,
            },
            _ => false,
        };
        assert(is_named <==> expression@ matches ExpressionView::FunctionCall(FunctionName::Name, _));
        if is_named {
            // A named capture is already an indexed one.
            Ok(expression)
        } else {
            let mut args: Vec<FunctionCallArg> = Vec::new();
            args.push(FunctionCallArg::Expression(expression));
            proof { lemma_args_view_small(args@); }
            Ok(Expression::FunctionCall(Box::new(FunctionCall { name: FunctionName::Index, args })))
        }
    }
}

/// The quantifier function that a notation token stands for.
fn quantifier_of(t: &Token) -> (r: Option<FunctionName>)
    ensures
        r == quantifier_name(*t),
        r is Some <==> (*t is Optional || *t is OneOrMore || *t is ZeroOrMore || *t is LazyOptional
            || *t is LazyOneOrMore || *t is LazyZeroOrMore),
{
    match t {
        Token::Optional => Some(FunctionName::Optional),
        Token::OneOrMore => Some(FunctionName::OneOrMore),
        Token::ZeroOrMore => Some(FunctionName::ZeroOrMore),
        Token::LazyOptional => Some(FunctionName::LazyOptional),
        Token::LazyOneOrMore => Some(FunctionName::LazyOneOrMore),
        Token::LazyZeroOrMore => Some(FunctionName::LazyZeroOrMore),
        _ => None,
    }
}

/// The message for a repetition range whose start exceeds its end.
fn invalid_range_message(m: usize, n: usize) -> (s: String)
    ensures
        s@ == "Invalid repetition range {"@ + decimal_chars(m as nat) + ","@ + decimal_chars(n as nat)
            + "}. The start of the range must be less than or equal to the end."@,
{
    let mut s = string_from_str("Invalid repetition range {");
    push_decimal(&mut s, m);
    push_str(&mut s, ",");
    push_decimal(&mut s, n);
    push_str(
        &mut s,
        "}. The start of the range must be less than or equal to the end.",
    );
    s
}

impl Parser {
    /// An identifier at `offset` that is an argument name rather than a
    /// literal, a function or a call.
    fn peek_plain_identifier(&self, offset: usize) -> (r: bool)
        requires
            self.wf(),
        ensures
            r ==> self.index + offset < self.tokens@.len() && self.tokens@[self.index
                + offset].token is Identifier,
            r <==> self.index + offset < self.tokens@.len() && plain_name(self.tokens@[self.index + offset].token),
    {
        match self.peek_token(offset) {
            Some(Token::Identifier(id)) => !string_equals(id.as_str(), "char_any")
                && preset_charset_name_from_str(id.as_str()).is_none(),
            _ => false,
        }
    }

    /// `expression.name(args)`, `expression?` and the other notations,
    /// and `expression{m..n}`.
    fn parse_notation_and_method_call(&mut self) -> (r: Result<Expression, AnreError>)
        requires
            old(self).wf(),
        ensures
            stepped(*old(self), *final(self), r, a_notation(old(self).tokens@, old(self).index as int)),
            parsed(*old(self), *final(self), r),
        decreases old(self).tokens@.len() - old(self).index, 5nat,
    {
        let ghost ts = self.tokens@;
        let ghost i0 = self.index as int;
        let mut expression = match self.parse_primary_expression() {
            Ok(e) => e,
            Err(e) => {
                return Err(e);
            },
        };
        loop
            invariant
                self.wf(),
                moved(*old(self), *self),
                old(self).index < self.index,
                ts == self.tokens@,
                i0 == old(self).index,
                a_notation(ts, i0) == a_notation_rest(ts, expression@, self.index as int),
            ensures
                a_notation(ts, i0) == Some((expression@, self.index as int)),
            decreases self.tokens@.len() - self.index,
        {
            let is_method = self.peek_is(0, &Token::Dot) && match self.peek_token(1) {
                Some(Token::Identifier(_)) => true,
                _ => false,
            } && self.peek_is(2, &Token::ParenthesisOpen);
            let quantifier = match self.peek_token(0) {
                Some(t) => quantifier_of(t),
                None => None,
            };
            if is_method {
                let call = match self.continue_parse_method_call(expression) {
                    Ok(c) => c,
                    Err(e) => {
                        return Err(e);
                    },
                };
                expression = Expression::FunctionCall(Box::new(call));
            } else if quantifier.is_some() {
                let name = quantifier.unwrap();
                let mut args: Vec<FunctionCallArg> = Vec::new();
                args.push(FunctionCallArg::Expression(expression));
                proof { lemma_args_view_small(args@); }
                expression = Expression::FunctionCall(Box::new(FunctionCall { name, args }));
                self.next_token();
            } else if self.peek_is(0, &Token::BraceOpen) {
                let range_start = self.peek_range(0).unwrap();
                let (repetition, lazy) = match self.continue_parse_repetition() {
                    Ok(x) => x,
                    Err(e) => {
                        return Err(e);
                    },
                };
                let range_end = self.last_range;
                let mut args: Vec<FunctionCallArg> = Vec::new();
                args.push(FunctionCallArg::Expression(expression));
                let name = match repetition {
                    Repetition::Repeat(n) => {
                        args.push(FunctionCallArg::Number(n));
                        if lazy {
                            FunctionName::LazyRepeat
                        } else {
                            FunctionName::Repeat
                        }
                    },
                    Repetition::RepeatFrom(n) => {
                        args.push(FunctionCallArg::Number(n));
                        if lazy {
                            FunctionName::LazyRepeatFrom
                        } else {
                            FunctionName::RepeatFrom
                        }
                    },
                    Repetition::RepeatRange(m, n) => {
                        if m > n {
                            return Err(
                                AnreError::MessageWithRange(
                                    invalid_range_message(m, n),
                                    Range::merge(&range_start, &range_end),
                                ),
                            );
                        }
                        args.push(FunctionCallArg::Number(m));
                        args.push(FunctionCallArg::Number(n));
                        if lazy {
                            FunctionName::LazyRepeatRange
                        } else {
                            FunctionName::RepeatRange
                        }
                    },
                };
                proof { lemma_args_view_small(args@); }
                expression = Expression::FunctionCall(Box::new(FunctionCall { name, args }));
            } else {
                break;
            }
        }
        Ok(expression)
    }

    /// `.name(args...)` after an expression, which becomes the first argument.
    fn continue_parse_method_call(&mut self, expression: Expression) -> (r: Result<
        FunctionCall,
        AnreError,
    >)
        requires
            old(self).wf(),
        ensures
            match a_method(old(self).tokens@, old(self).index as int, expression@) {
                Some((v, j)) => r matches Ok(c) && Expression::FunctionCall(Box::new(c))@ == v && final(self).index == j,
                None => r is Err,
            },
            parsed(*old(self), *final(self), r),
        decreases old(self).tokens@.len() - old(self).index, 4nat,
    {
        self.next_token();
        let identifier = match self.consume_identifier() {
            Ok(id) => id,
            Err(e) => {
                return Err(e);
            },
        };
        let name = match function_name_from_str(identifier.as_str()) {
            Some(n) => n,
            None => {
                return Err(
                    AnreError::MessageWithRange(
                        message_with_text("Unsupported function \"", identifier.as_str(), "\""),
                        self.last_range,
                    ),
                );
            },
        };
        let mut args: Vec<FunctionCallArg> = Vec::new();
        args.push(FunctionCallArg::Expression(expression));
        let mut additional = match self.continue_parse_function_arguments() {
            Ok(a) => a,
            Err(e) => {
                return Err(e);
            },
        };
        let ghost first = args@;
        let ghost rest = additional@;
        args.append(&mut additional);
        proof {
            lemma_args_view_pointwise(args@, args@.len() as int);
            lemma_args_view_pointwise(rest, rest.len() as int);
            assert(args@ == first + rest);
            assert(args_view(args@, args@.len() as int) =~= seq![ArgView::Expression(expression_view(first[0]->Expression_0))] + args_view(rest, rest.len() as int));
        }
        Ok(FunctionCall { name, args })
    }

    /// `{m}`, `{m..}` or `{m..n}`, with an optional trailing `?` for laziness.
    fn continue_parse_repetition(&mut self) -> (r: Result<(Repetition, bool), AnreError>)
        requires
            old(self).wf(),
        ensures
            match a_repetition(old(self).tokens@, old(self).index as int) {
                Some((rep, lazy, j)) => r == Ok::<(Repetition, bool), AnreError>((rep, lazy)) && final(self).index == j,
                None => r is Err,
            },
            parsed(*old(self), *final(self), r),
    {
        self.next_token();
        let from = match self.consume_number() {
            Ok(n) => n,
            Err(e) => {
                return Err(e);
            },
        };
        let repetition = if self.peek_is(0, &Token::Range) {
            self.next_token();
            let to = match self.peek_token(0) {
                Some(Token::Number(v)) => Some(*v),
                _ => None,
            };
            match to {
                Some(v) => {
                    self.next_token();
                    Repetition::RepeatRange(from, v)
                },
                None => Repetition::RepeatFrom(from),
            }
        } else {
            Repetition::Repeat(from)
        };
        match self.consume_closing_brace() {
            Ok(()) => {},
            Err(e) => {
                return Err(e);
            },
        }
        let lazy = if self.peek_is(0, &Token::Optional) {
            self.next_token();
            true
        } else {
            false
        };
        Ok((repetition, lazy))
    }

    /// A literal, a group, a back reference or a function call.
    fn parse_primary_expression(&mut self) -> (r: Result<Expression, AnreError>)
        requires
            old(self).wf(),
        ensures
            stepped(*old(self), *final(self), r, a_primary(old(self).tokens@, old(self).index as int)),
            parsed(*old(self), *final(self), r),
        decreases old(self).tokens@.len() - old(self).index, 4nat,
    {
        if self.peek_token(0).is_none() {
            return Err(AnreError::UnexpectedEndOfDocument(string_from_str("Expected an expression.")));
        }
        if self.peek_is(0, &Token::ParenthesisOpen) {
            return self.parse_group();
        }
        let is_identifier = match self.peek_token(0) {
            Some(Token::Identifier(_)) => true,
            _ => false,
        };
        if is_identifier && self.peek_is(1, &Token::ParenthesisOpen) {
            return self.parse_function_call();
        }
        if self.peek_plain_identifier(0) {
            // A bare name that is neither a call nor a literal refers back
            // to the capture of that name.
            let name = match self.next_token() {
                Some(Token::Identifier(id)) => id,
                _ => {
                    return Err(AnreError::UnexpectedEndOfDocument(string_from_str("Expected an expression.")));
                },
            };
            return Ok(Expression::BackReference(BackReference::Name(name)));
        }
        let number_follows = match self.peek_token(1) {
            Some(Token::Number(_)) => true,
            _ => false,
        };
        if self.peek_is(0, &Token::Caret) && number_follows {
            self.next_token();
            let index = match self.consume_number() {
                Ok(n) => n,
                Err(e) => {
                    return Err(e);
                },
            };
            return Ok(Expression::BackReference(BackReference::Index(index)));
        }
        match self.parse_literal() {
            Ok(literal) => Ok(Expression::Literal(literal)),
            Err(e) => Err(e),
        }
    }

    /// `(expression, ...)`; a group of one expression is that expression.
    fn parse_group(&mut self) -> (r: Result<Expression, AnreError>)
        requires
            old(self).wf(),
        ensures
            stepped(*old(self), *final(self), r, a_group(old(self).tokens@, old(self).index as int)),
            parsed(*old(self), *final(self), r),
        decreases old(self).tokens@.len() - old(self).index, 3nat,
    {
        let ghost ts = self.tokens@;
        let ghost i0 = self.index as int;
        self.next_token();
        let mut expressions: Vec<Expression> = Vec::new();
        proof {
            assert(expressions_view(expressions@, 0) =~= Seq::<ExpressionView>::empty());
        }
        while self.peek_token(0).is_some() && !self.peek_is(0, &Token::ParenthesisClose)
            invariant
                self.wf(),
                moved(*old(self), *self),
                old(self).index < self.index || old(self).index == self.tokens@.len(),
                ts == self.tokens@,
                i0 == old(self).index,
                i0 < ts.len() ==> a_group_rest(ts, i0 + 1, seq![]) == a_group_rest(
                    ts,
                    self.index as int,
                    expressions_view(expressions@, expressions@.len() as int),
                ),
            decreases self.tokens@.len() - self.index,
        {
            let expression = match self.parse_expression() {
                Ok(e) => e,
                Err(e) => {
                    return Err(e);
                },
            };
            proof { lemma_expressions_view_push(expressions@, expression); }
            expressions.push(expression);
        }
        match self.consume_closing_parenthesis() {
            Ok(()) => {},
            Err(e) => {
                return Err(e);
            },
        }
        proof {
            lemma_expressions_view_pointwise(expressions@, expressions@.len() as int);
        }
        if expressions.len() == 1 {
            Ok(expressions.remove(0))
        } else {
            Ok(Expression::Group(expressions))
        }
    }

    /// `name(args...)`
    fn parse_function_call(&mut self) -> (r: Result<Expression, AnreError>)
        requires
            old(self).wf(),
        ensures
            stepped(*old(self), *final(self), r, a_function_call(old(self).tokens@, old(self).index as int)),
            parsed(*old(self), *final(self), r),
        decreases old(self).tokens@.len() - old(self).index, 3nat,
    {
        let identifier = match self.consume_identifier() {
            Ok(id) => id,
            Err(e) => {
                return Err(e);
            },
        };
        let name = match function_name_from_str(identifier.as_str()) {
            Some(n) => n,
            None => {
                return Err(
                    AnreError::MessageWithRange(
                        message_with_text("Unsupported function \"", identifier.as_str(), "\""),
                        self.last_range,
                    ),
                );
            },
        };
        let args = match self.continue_parse_function_arguments() {
            Ok(a) => a,
            Err(e) => {
                return Err(e);
            },
        };
        Ok(Expression::FunctionCall(Box::new(FunctionCall { name, args })))
    }

    /// `(arg, ...)`: numbers, names and expressions.
    fn continue_parse_function_arguments(&mut self) -> (r: Result<Vec<FunctionCallArg>, AnreError>)
        requires
            old(self).wf(),
        ensures
            match a_args(old(self).tokens@, old(self).index as int) {
                Some((v, j)) => r matches Ok(args) && args_view(args@, args@.len() as int) == v && final(self).index == j,
                None => r is Err,
            },
            parsed(*old(self), *final(self), r),
        decreases old(self).tokens@.len() - old(self).index, 2nat,
    {
        let ghost ts = self.tokens@;
        let ghost i0 = self.index as int;
        self.next_token();
        let mut args: Vec<FunctionCallArg> = Vec::new();
        proof {
            assert(args_view(args@, 0) =~= Seq::<ArgView>::empty());
        }
        while self.peek_token(0).is_some() && !self.peek_is(0, &Token::ParenthesisClose)
            invariant
                self.wf(),
                moved(*old(self), *self),
                old(self).index < self.index || old(self).index == self.tokens@.len(),
                ts == self.tokens@,
                i0 == old(self).index,
                i0 < ts.len() ==> a_args_rest(ts, i0 + 1, seq![]) == a_args_rest(
                    ts,
                    self.index as int,
                    args_view(args@, args@.len() as int),
                ),
            decreases self.tokens@.len() - self.index,
        {
            let arg = match self.parse_argument() {
                Ok(a) => a,
                Err(e) => {
                    return Err(e);
                },
            };
            proof { lemma_args_view_push(args@, arg); }
            args.push(arg);
        }
        match self.consume_closing_parenthesis() {
            Ok(()) => {},
            Err(e) => {
                return Err(e);
            },
        }
        Ok(args)
    }

    /// One argument of a call: a number, a plain name or an expression.
    #[verifier::rlimit(40)]
    fn parse_argument(&mut self) -> (r: Result<FunctionCallArg, AnreError>)
        requires
            old(self).wf(),
            old(self).index < old(self).tokens@.len(),
        ensures
            match a_arg(old(self).tokens@, old(self).index as int) {
                Some((v, j)) => r matches Ok(a) && arg_view(a) == v && final(self).index == j,
                None => r is Err,
            },
            parsed(*old(self), *final(self), r),
        decreases old(self).tokens@.len() - old(self).index, 10nat,
    {
        let number = match self.peek_token(0) {
            Some(Token::Number(n)) => Some(*n),
            _ => None,
        };
        if number.is_some() {
            self.next_token();
            return Ok(FunctionCallArg::Number(number.unwrap()));
        }
        if self.peek_plain_identifier(0) && !self.peek_is(1, &Token::ParenthesisOpen) {
            match self.next_token() {
                Some(Token::Identifier(id)) => {
                    return Ok(FunctionCallArg::Identifier(id));
                },
                _ => {
                    return Err(AnreError::UnexpectedEndOfDocument(string_from_str("Expected an argument.")));
                },
            }
        }
        let expression = match self.parse_expression() {
            Ok(e) => e,
            Err(e) => {
                return Err(e);
            },
        };
        Ok(FunctionCallArg::Expression(expression))
    }

    /// A character, a string, a character set, a preset character set or
    /// `char_any`.
    fn parse_literal(&mut self) -> (r: Result<Literal, AnreError>)
        requires
            old(self).wf(),
            old(self).index < old(self).tokens@.len(),
        ensures
            match a_literal(old(self).tokens@, old(self).index as int) {
                Some((v, j)) => r matches Ok(l) && literal_view(l) == v && final(self).index == j,
                None => r is Err,
            },
            parsed(*old(self), *final(self), r),
        decreases old(self).tokens@.len() - old(self).index, 3nat,
    {
        if self.peek_is(0, &Token::BracketOpen) {
            let elements = match self.parse_charset_elements() {
                Ok(e) => e,
                Err(e) => {
                    return Err(e);
                },
            };
            return Ok(Literal::CharSet(CharSet { negative: false, elements }));
        }
        if self.peek_is(0, &Token::Not) && self.peek_is(1, &Token::BracketOpen) {
            self.next_token();
            let elements = match self.parse_charset_elements() {
                Ok(e) => e,
                Err(e) => {
                    return Err(e);
                },
            };
            return Ok(Literal::CharSet(CharSet { negative: true, elements }));
        }
        let (is_literal, preset) = match self.peek_token(0) {
            Some(Token::Char(_)) => (true, None),
            Some(Token::String(_)) => (true, None),
            Some(Token::Identifier(id)) => {
                if string_equals(id.as_str(), "char_any") {
                    (true, None)
                } else {
                    let p = preset_charset_name_from_str(id.as_str());
                    (p.is_some(), p)
                }
            },
            _ => (false, None),
        };
        if !is_literal {
            return Err(AnreError::MessageWithRange(string_from_str("Expected a literal."), self.last_range));
        }
        match self.next_token() {
            Some(Token::Char(c)) => Ok(Literal::Char(c)),
            Some(Token::String(s)) => Ok(Literal::String(s)),
            Some(Token::Identifier(_)) => match preset {
                Some(p) => Ok(Literal::PresetCharSet(p)),
                None => Ok(Literal::AnyChar),
            },
            _ => Err(AnreError::MessageWithRange(string_from_str("Expected a literal."), self.last_range)),
        }
    }

    /// `[element, ...]`: characters, ranges, preset and nested character sets.
    #[verifier::rlimit(100)]
    fn parse_charset_elements(&mut self) -> (r: Result<Vec<CharSetElement>, AnreError>)
        requires
            old(self).wf(),
        ensures
            match a_charset(old(self).tokens@, old(self).index as int) {
                Some((v, j)) => r matches Ok(els) && elements_view(els@, els@.len() as int) == v && final(self).index == j,
                None => r is Err,
            },
            parsed(*old(self), *final(self), r),
        decreases old(self).tokens@.len() - old(self).index, 2nat,
    {
        let ghost ts = self.tokens@;
        let ghost i0 = self.index as int;
        self.next_token();
        let mut elements: Vec<CharSetElement> = Vec::new();
        proof {
            assert(elements_view(elements@, 0) =~= Seq::<CharSetElementView>::empty());
        }
        while self.peek_token(0).is_some() && !self.peek_is(0, &Token::BracketClose)
            invariant
                self.wf(),
                moved(*old(self), *self),
                old(self).index < self.index || old(self).index == self.tokens@.len(),
                ts == self.tokens@,
                i0 == old(self).index,
                i0 < ts.len() ==> a_charset_rest(ts, i0 + 1, seq![]) == a_charset_rest(
                    ts,
                    self.index as int,
                    elements_view(elements@, elements@.len() as int),
                ),
            decreases self.tokens@.len() - self.index,
        {
            let element = match self.parse_charset_element() {
                Ok(x) => x,
                Err(e) => {
                    return Err(e);
                },
            };
            proof { lemma_elements_view_push(elements@, element); }
            elements.push(element);
        }
        match self.consume_closing_bracket() {
            Ok(()) => {},
            Err(e) => {
                return Err(e);
            },
        }
        Ok(elements)
    }

    /// One element of a character set.
    #[verifier::rlimit(40)]
    fn parse_charset_element(&mut self) -> (r: Result<CharSetElement, AnreError>)
        requires
            old(self).wf(),
            old(self).index < old(self).tokens@.len(),
        ensures
            match a_charset_item(old(self).tokens@, old(self).index as int) {
                Some((v, j)) => r matches Ok(el) && element_view(el) == v && final(self).index == j,
                None => r is Err,
            },
            parsed(*old(self), *final(self), r),
        decreases old(self).tokens@.len() - old(self).index, 10nat,
    {
        let ghost ts = self.tokens@;
        let start_range = self.peek_range(0).unwrap();
        let expression = match self.parse_expression() {
            Ok(e) => e,
            Err(e) => {
                return Err(e);
            },
        };
        match expression {
            Expression::Literal(Literal::Char(c)) => {
                if self.peek_is(0, &Token::Range) {
                    let end_char = match self.parse_range_end() {
                        Ok(d) => d,
                        Err(e) => {
                            return Err(e);
                        },
                    };
                    Ok(CharSetElement::CharRange(CharRange { start: c, end_inclusive: end_char }))
                } else {
                    Ok(CharSetElement::Char(c))
                }
            },
            Expression::Literal(Literal::PresetCharSet(p)) => Ok(CharSetElement::PresetCharSet(p)),
            Expression::Literal(Literal::CharSet(set)) => Ok(CharSetElement::CharSet(Box::new(set))),
            _ => Err(
                AnreError::MessageWithRange(
                    string_from_str("Unsupported character set element."),
                    Range::merge(&start_range, &self.last_range),
                ),
            ),
        }
    }

    /// `.. 'c'`: the end of a character range.
    fn parse_range_end(&mut self) -> (r: Result<char, AnreError>)
        requires
            old(self).wf(),
            old(self).index < old(self).tokens@.len(),
            old(self).tokens@[old(self).index as int].token is Range,
        ensures
            match a_range_end(old(self).tokens@, old(self).index as int) {
                Some((d, j)) => r == Ok::<char, AnreError>(d) && final(self).index == j,
                None => r is Err,
            },
            parsed(*old(self), *final(self), r),
        decreases old(self).tokens@.len() - old(self).index, 10nat,
    {
        self.next_token();
        if self.peek_token(0).is_none() {
            return Err(
                AnreError::UnexpectedEndOfDocument(
                    string_from_str(
                        "Expected a character literal after '..' in a character range.",
                    ),
                ),
            );
        }
        let end_range = self.peek_range(0).unwrap();
        let end_expression = match self.parse_expression() {
            Ok(e) => e,
            Err(e) => {
                return Err(e);
            },
        };
        match end_expression {
            Expression::Literal(Literal::Char(end_char)) => Ok(end_char),
            _ => Err(
                AnreError::MessageWithRange(
                    string_from_str("Expected a character literal."),
                    Range::merge(&end_range, &self.last_range),
                ),
            ),
        }
    }
}

} // verus!
