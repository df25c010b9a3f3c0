use vstd::prelude::*;

use crate::text::decimal_chars;

use crate::ast::{
    BackReference, CharRange, CharSet, CharSetElement, Expression, FunctionCall, FunctionCallArg,
    FunctionName, Literal, PresetCharSetName, Program,
};
use crate::error::AnreError;
use crate::position::{Position, Range};
use crate::text::{push_decimal, push_str, string_from_chars, string_from_str};
use crate::traditional::lexer::{lex_from_str, spans_in};
use crate::traditional::scan::lex_from;
use crate::anre::parser::range_located;
use crate::reader::error_located;
use crate::traditional::token::{clone_token, Repetition, Token, TokenWithRange};
use crate::ast::{
    arg_view, charset_view, elements_view, expression_view, expressions_view, literal_view,
    lemma_args_view_small, lemma_elements_view_push, lemma_expressions_view_push, CharSetElementView,
    ExpressionView, LiteralView,
};
use crate::traditional::grammar::{
    call0 as call0_view, call1 as call1_view, join_runs, preset_of_letter, quantifier_name, run_view,
    t_charset, t_charset_items, t_expression, t_group_body, t_item, t_items, t_literal,
    t_notation, t_notation_rest, t_or, t_or_rest, t_primary, t_program, t_sequence, prepend_element,
    ends_sequence,
};

verus! {

/// Parses a pattern in the traditional notation.
///
/// Every position that an error names lies in the text; only the empty
/// The program that a text in the traditional notation stands for: the
/// expression that its tokens make; `None` where the text is refused.
pub open spec fn regex_program(text: Seq<char>) -> Option<ExpressionView> {
    match lex_from(text, 0) {
        None => None,
        Some(ts) => t_program(ts),
    }
}

/// text, which has no position, is refused with the origin.
pub fn parse_from_str(s: &str) -> (r: Result<Program, AnreError>)
    ensures
        lex_from(s@, 0) is None ==> (r matches Err(e) && crate::error::error_view(e) == crate::traditional::scan::lex_error(s@, 0)),
        r matches Err(e) ==> s@.len() > 0 ==> error_located(e, s@),
        s@.len() == 0 ==> r is Err,
        match regex_program(s@) {
            Some(v) => r matches Ok(p) && p@ == v,
            None => r is Err,
        },
{
    let tokens = match lex_from_str(s) {
        Ok(t) => t,
        Err(e) => {
            return Err(e);
        },
    };
    proof {
        assert forall|i: int| 0 <= i < tokens@.len() implies range_located(#[trigger] tokens@[i].range, s@) by {
            assert(crate::reader::range_in(s@, tokens@[i].range));
        }
        if s@.len() == 0 && tokens@.len() > 0 {
            assert(crate::reader::range_in(s@, tokens@[0].range));
        }
    }
    proof {
        match lex_from(s@, 0) {
            Some(ts) => {
                crate::traditional::grammar::lemma_program_agree(tokens@, ts);
            },
            None => {},
        }
    }
    let mut parser = Parser::new(tokens, Ghost(s@));
    parser.parse_program()
}

/// The preset character set of an escape letter: `w`, `W`, `d`, `D`, `s`, `S`.
pub fn preset_charset_name_from_char(c: char) -> (r: Option<PresetCharSetName>)
    ensures
        r == preset_of_letter(c),
        r is Some <==> (c == 'w' || c == 'W' || c == 's' || c == 'S' || c == 'd' || c == 'D'),
        c == 'w' ==> r == Some(PresetCharSetName::CharWord),
        c == 'W' ==> r == Some(PresetCharSetName::CharNotWord),
        c == 's' ==> r == Some(PresetCharSetName::CharSpace),
        c == 'S' ==> r == Some(PresetCharSetName::CharNotSpace),
        c == 'd' ==> r == Some(PresetCharSetName::CharDigit),
        c == 'D' ==> r == Some(PresetCharSetName::CharNotDigit),
{
    if c == 'w' {
        Some(PresetCharSetName::CharWord)
    } else if c == 'W' {
        Some(PresetCharSetName::CharNotWord)
    } else if c == 's' {
        Some(PresetCharSetName::CharSpace)
    } else if c == 'S' {
        Some(PresetCharSetName::CharNotSpace)
    } else if c == 'd' {
        Some(PresetCharSetName::CharDigit)
    } else if c == 'D' {
        Some(PresetCharSetName::CharNotDigit)
    } else {
        None
    }
}

/// A recursive-descent parser over the tokens of the traditional notation.
pub struct Parser {
    tokens: Vec<TokenWithRange>,
    index: usize,
    /// The range of the token read last.
    pub last_range: Range,
    /// The text that the tokens come from.
    text: Ghost<Seq<char>>,
}

/// `b` is `a` after reading some tokens forward.
spec fn moved(a: Parser, b: Parser) -> bool {
    &&& b.tokens@ == a.tokens@
    &&& b.text@ == a.text@
    &&& a.index <= b.index <= b.tokens@.len()
    &&& b.wf()
}

/// What holds of every parsing step: it reads forward, it reads at
/// least one token when it succeeds, it reports the end of the document
/// only at the end of the tokens, and the positions it names lie in the
/// text.
spec fn parsed<T>(a: Parser, b: Parser, r: Result<T, AnreError>) -> bool {
    &&& moved(a, b)
    &&& r is Ok ==> a.index < b.index
    &&& r matches Err(AnreError::UnexpectedEndOfDocument(_)) ==> b.index == b.tokens@.len()
    &&& r matches Err(e) ==> b.text@.len() > 0 ==> error_located(e, b.text@)
}

/// The parser went from `a` to `b` as the grammar says from where `a`
/// stood: to the expression and the index that `s` gives, or to an error
/// where `s` is `None`.
spec fn stepped(a: Parser, b: Parser, r: Result<Expression, AnreError>, s: Option<(ExpressionView, int)>) -> bool {
    match s {
        Some((v, j)) => r matches Ok(e) && e@ == v && b.index == j,
        None => r is Err,
    }
}

impl Parser {
    fn new(tokens: Vec<TokenWithRange>, Ghost(text): Ghost<Seq<char>>) -> (p: Parser)
        requires
            forall|i: int| 0 <= i < tokens@.len() ==> range_located(#[trigger] tokens@[i].range, text),
        ensures
            p.wf(),
            p.index == 0,
            p.tokens@ == tokens@,
            p.text@ == text,
    {
        let origin = Position::start();
        proof {
            if text.len() > 0 {
                assert(origin == crate::reader::pos_at(text, 0));
            }
        }
        Parser { tokens, index: 0, last_range: Range::new(&origin, &origin), text: Ghost(text) }
    }

    /// The text that the tokens come from.
    pub closed spec fn source(&self) -> Seq<char> {
        self.text@
    }

    /// The read position lies within the tokens, and every range the
    /// parser holds lies in a text that is not empty.
    pub closed spec fn wf(&self) -> bool {
        &&& self.index <= self.tokens@.len()
        &&& forall|i: int| 0 <= i < self.tokens@.len() ==> range_located(#[trigger] self.tokens@[i].range, self.text@)
        &&& self.text@.len() > 0 ==> range_located(self.last_range, self.text@)
    }

    /// The tokens that the parser reads.
    pub closed spec fn token_seq(&self) -> Seq<TokenWithRange> {
        self.tokens@
    }

    /// The index of the next token to read.
    pub closed spec fn position(&self) -> int {
        self.index as int
    }

    /// The parser has read every token.
    pub closed spec fn is_at_end(&self) -> bool {
        self.index == self.tokens@.len()
    }

    fn peek_token(&self, offset: usize) -> (r: Option<&Token>)
        requires
            self.wf(),
        ensures
            r is Some <==> self.index + offset < self.tokens@.len(),
            r matches Some(t) ==> *t == self.tokens@[self.index + offset].token,
    {
        if offset < self.tokens.len() - self.index {
            Some(&self.tokens[self.index + offset].token)
        } else {
            None
        }
    }

    fn peek_range(&self, offset: usize) -> (r: Option<Range>)
        requires
            self.wf(),
        ensures
            r is Some <==> self.index + offset < self.tokens@.len(),
            r matches Some(t) ==> range_located(t, self.text@),
            r matches Some(t) ==> t == self.tokens@[self.index + offset].range,
    {
        if offset < self.tokens.len() - self.index {
            Some(self.tokens[self.index + offset].range)
        } else {
            None
        }
    }

    fn next_token(&mut self) -> (r: Option<Token>)
        requires
            old(self).wf(),
        ensures
            final(self).wf(),
            final(self).tokens@ == old(self).tokens@,
            final(self).text@ == old(self).text@,
            old(self).index < old(self).tokens@.len() ==> {
                &&& r == Some(old(self).tokens@[old(self).index as int].token)
                &&& final(self).index == old(self).index + 1
            },
            old(self).index == old(self).tokens@.len() ==> r is None && final(self).index
                == old(self).index,
    {
        if self.index < self.tokens.len() {
            let t = clone_token(&self.tokens[self.index].token);
            self.last_range = self.tokens[self.index].range;
            self.index = self.index + 1;
            Some(t)
        } else {
            None
        }
    }

    fn peek_is_logic_or(&self) -> (r: bool)
        requires
            self.wf(),
        ensures
            r ==> self.index < self.tokens@.len(),
            r <==> self.index < self.tokens@.len() && self.tokens@[self.index as int].token is LogicOr,
    {
        match self.peek_token(0) {
            Some(Token::LogicOr) => true,
            _ => false,
        }
    }

    /// Reads `)`.
    fn consume_closing_parenthesis(&mut self) -> (r: Result<(), AnreError>)
        requires
            old(self).wf(),
        ensures
            parsed(*old(self), *final(self), r),
            r is Ok <==> old(self).index < old(self).tokens@.len() && old(self).tokens@[old(self).index as int].token is GroupEnd,
            r is Ok ==> final(self).index == old(self).index + 1,
    {
        let message = "Expected token: closing parenthese \")\".";
        match self.next_token() {
            Some(Token::GroupEnd) => Ok(()),
            Some(_) => Err(AnreError::MessageWithRange(string_from_str(message), self.last_range)),
            None => Err(AnreError::UnexpectedEndOfDocument(string_from_str(message))),
        }
    }

    /// Reads `]`.
    fn consume_closing_bracket(&mut self) -> (r: Result<(), AnreError>)
        requires
            old(self).wf(),
        ensures
            parsed(*old(self), *final(self), r),
            r is Ok <==> old(self).index < old(self).tokens@.len() && old(self).tokens@[old(self).index as int].token is CharSetEnd,
            r is Ok ==> final(self).index == old(self).index + 1,
    {
        let message = "Expected token: closing bracket.";
        match self.next_token() {
            Some(Token::CharSetEnd) => Ok(()),
            Some(_) => Err(AnreError::MessageWithRange(string_from_str(message), self.last_range)),
            None => Err(AnreError::UnexpectedEndOfDocument(string_from_str(message))),
        }
    }
}

/// The message for a repetition range whose start exceeds its end.
fn invalid_range_message(m: usize, n: usize) -> (s: String)
    ensures
        s@ == "Invalid repetition range: {"@ + decimal_chars(m as nat) + ","@ + decimal_chars(n as nat)
            + "}. The start of the range must be less than or equal to the end."@,
{
    let mut s = string_from_str("Invalid repetition range: {");
    push_decimal(&mut s, m);
    push_str(&mut s, ",");
    push_decimal(&mut s, n);
    push_str(
        &mut s,
        "}. The start of the range must be less than or equal to the end.",
    );
    s
}

/// The function of a quantifier notation.
fn quantifier_of(t: &Token) -> (r: Option<FunctionName>)
    ensures
        r == quantifier_name(*t),
{
    match t {
        Token::Optional => Some(FunctionName::Optional),
        Token::OneOrMore => Some(FunctionName::OneOrMore),
        Token::ZeroOrMore => Some(FunctionName::ZeroOrMore),
        Token::LazyOptional => Some(FunctionName::LazyOptional),
        Token::LazyOneOrMore => Some(FunctionName::LazyOneOrMore),
        Token::LazyZeroOrMore => Some(FunctionName::LazyZeroOrMore),
        _ => None,
    }
}

/// A call of a function without arguments.
fn call0(name: FunctionName) -> (r: Expression)
    ensures
        r@ == call0_view(name),
{
    let r = Expression::FunctionCall(Box::new(FunctionCall { name, args: Vec::new() }));
    proof {
        lemma_args_view_small(Seq::<FunctionCallArg>::empty());
    }
    r
}

/// A call of a function on one expression.
fn call1(name: FunctionName, e: Expression) -> (r: Expression)
    ensures
        r@ == call1_view(name, e@),
{
    let mut args: Vec<FunctionCallArg> = Vec::new();
    args.push(FunctionCallArg::Expression(e));
    proof {
        lemma_args_view_small(args@);
    }
    Expression::FunctionCall(Box::new(FunctionCall { name, args }))
}

/// A call of a function on two arguments.
fn call2(name: FunctionName, a: FunctionCallArg, b: FunctionCallArg) -> (r: Expression)
    ensures
        r@ == ExpressionView::FunctionCall(name, seq![arg_view(a), arg_view(b)]),
{
    let mut args: Vec<FunctionCallArg> = Vec::new();
    args.push(a);
    args.push(b);
    proof {
        lemma_args_view_small(args@);
    }
    Expression::FunctionCall(Box::new(FunctionCall { name, args }))
}

/// The views of the expressions of a vector.
spec fn views(v: Seq<Expression>) -> Seq<ExpressionView> {
    expressions_view(v, v.len() as int)
}

/// The views after dropping the first expression.
proof fn lemma_views_drop_first(v: Seq<Expression>)
    requires
        v.len() > 0,
    ensures
        views(v).len() == v.len(),
        views(v)[0] == expression_view(v[0]),
        views(v).drop_first() == views(v.drop_first()),
{
    crate::ast::lemma_expressions_view_pointwise(v, v.len() as int);
    crate::ast::lemma_expressions_view_pointwise(v.drop_first(), v.len() - 1);
    assert(views(v).drop_first() =~= views(v.drop_first()));
}

/// Joins each run of two or more neighbouring characters into a string.
fn join_char_runs(items: Vec<Expression>) -> (r: Vec<Expression>)
    ensures
        r.len() <= items.len(),
        items.len() > 0 ==> r.len() > 0,
        views(r@) == join_runs(views(items@), seq![]),
{
    let mut out: Vec<Expression> = Vec::new();
    let mut run: Vec<char> = Vec::new();
    let mut items = items;
    let ghost n = items.len();
    let ghost orig = items@;
    let mut k: usize = 0;
    proof {
        assert(views(out@) =~= Seq::<ExpressionView>::empty());
        assert(views(out@) + join_runs(views(items@), run@) =~= join_runs(views(orig), seq![]));
    }
    while items.len() > 0
        invariant
            out.len() + (if run.len() > 0 { 1int } else { 0 }) <= k,
            k + items.len() == n,
            n > 0 && k > 0 ==> out.len() + run.len() > 0,
            views(out@) + join_runs(views(items@), run@) == join_runs(views(orig), seq![]),
        decreases items.len(),
    {
        let ghost before = items@;
        let ghost out0 = out@;
        let ghost run0 = run@;
        proof {
            lemma_views_drop_first(before);
        }
        let item = items.remove(0);
        proof {
            assert(items@ =~= before.drop_first());
        }
        k = k + 1;
        match item {
            Expression::Literal(Literal::Char(c)) => {
                run.push(c);
            },
            other => {
                let ghost mid = out@;
                match run_expression(&run) {
                    Some(e) => {
                        out.push(e);
                        proof {
                            lemma_expressions_view_push(mid, e);
                        }
                    },
                    None => {},
                }
                let ghost mid2 = out@;
                run.clear();
                out.push(other);
                proof {
                    lemma_expressions_view_push(mid2, other);
                    assert(views(mid2) == views(out0) + run_view(run0));
                    assert(views(out@) + join_runs(views(items@), run@) =~= views(out0) + (run_view(run0)
                        + seq![expression_view(other)] + join_runs(views(items@), seq![])));
                }
            },
        }
        assert(out.len() + (if run.len() > 0 { 1int } else { 0 }) <= k);
    }
    let ghost out0 = out@;
    match run_expression(&run) {
        Some(e) => {
            out.push(e);
            proof {
                lemma_expressions_view_push(out0, e);
            }
        },
        None => {},
    }
    proof {
        assert(views(out@) =~= views(out0) + run_view(run@));
    }
    out
}

/// A run of one character is that character.
proof fn lemma_char_run_view(run: Seq<char>, c: char)
    requires
        run.len() == 1,
        run[0] == c,
    ensures
        run_view(run).len() == 1,
        run_view(run)[0] == expression_view(Expression::Literal(Literal::Char(c))),
{
}

/// The expression of a run of characters: one character as itself, more
/// as a string.
fn run_expression(run: &Vec<char>) -> (r: Option<Expression>)
    ensures
        r is Some <==> run@.len() > 0,
        match r {
            Some(e) => run_view(run@).len() == 1 && run_view(run@)[0] == expression_view(e),
            None => run_view(run@).len() == 0,
        },
{
    let n = run.len();
    if n == 1 {
        let c = run[0];
        let e = Expression::Literal(Literal::Char(c));
        proof {
            lemma_char_run_view(run@, c);
        }
        Some(e)
    } else if n > 1 {
        let sl = run.as_slice();
        let st = string_from_chars(sl);
        assert(sl@ == run@);
        assert(st@ == run@);
        let e = Expression::Literal(Literal::String(st));
        assert(expression_view(e) == ExpressionView::Literal(LiteralView::String(run@)));
        Some(e)
    } else {
        None
    }
}

impl Parser {
    /// Parses the whole token stream as one expression.
    pub fn parse_program(&mut self) -> (r: Result<Program, AnreError>)
        requires
            old(self).wf(),
        ensures
            match t_expression(old(self).token_seq(), old(self).position()) {
                Some((v, j)) => if j >= old(self).token_seq().len() {
                    r matches Ok(p) && p@ == v
                } else {
                    r matches Err(AnreError::MessageWithRange(_, rg)) && rg == old(self).token_seq()[j].range
                },
                None => r is Err,
            },
            r is Ok ==> final(self).is_at_end(),
            r matches Err(e) ==> old(self).source().len() > 0 ==> error_located(e, old(self).source()),
            r is Ok ==> !old(self).is_at_end(),
    {
        let expression = match self.parse_expression() {
            Ok(e) => e,
            Err(e) => {
                return Err(e);
            },
        };
        match self.peek_range(0) {
            Some(range) => Err(
                AnreError::MessageWithRange(
                    string_from_str(
                        "Only one top-level expression is allowed. Wrap multiple expressions in a group.",
                    ),
                    range,
                ),
            ),
            None => Ok(Program { expression }),
        }
    }

    fn parse_expression(&mut self) -> (r: Result<Expression, AnreError>)
        requires
            old(self).wf(),
        ensures
            stepped(*old(self), *final(self), r, t_expression(old(self).tokens@, old(self).index as int)),
            parsed(*old(self), *final(self), r),
        decreases old(self).tokens@.len() - old(self).index, 9nat,
    {
        self.parse_logic_or()
    }

    /// `a|b|c` reads as `a|(b|c)`.
    fn parse_logic_or(&mut self) -> (r: Result<Expression, AnreError>)
        requires
            old(self).wf(),
        ensures
            stepped(*old(self), *final(self), r, t_or(old(self).tokens@, old(self).index as int)),
            parsed(*old(self), *final(self), r),
        decreases old(self).tokens@.len() - old(self).index, 8nat,
    {
        let ghost ts = self.tokens@;
        let ghost i0 = self.index as int;
        let mut left = match self.parse_consequent_expression() {
            Ok(e) => e,
            Err(e) => {
                return Err(e);
            },
        };
        while self.peek_is_logic_or()
            invariant
                self.wf(),
                moved(*old(self), *self),
                old(self).index < self.index,
                ts == self.tokens@,
                i0 == old(self).index,
                t_or(ts, i0) == t_or_rest(ts, left@, self.index as int),
            decreases self.tokens@.len() - self.index,
        {
            let ghost j = self.index as int;
            self.next_token();
            let right = match self.parse_expression() {
                Ok(e) => e,
                Err(e) => {
                    return Err(e);
                },
            };
            let ghost lv = left@;
            left = Expression::Or(Box::new(left), Box::new(right));
            proof {
                assert(left@ == ExpressionView::Or(Box::new(lv), Box::new(right@)));
            }
        }
        Ok(left)
    }

    /// A sequence of items up to `|`, `)` or the end; neighbouring
    /// characters join into a string, and one item stands for itself.
    fn parse_consequent_expression(&mut self) -> (r: Result<Expression, AnreError>)
        requires
            old(self).wf(),
        ensures
            stepped(*old(self), *final(self), r, t_sequence(old(self).tokens@, old(self).index as int)),
            parsed(*old(self), *final(self), r),
        decreases old(self).tokens@.len() - old(self).index, 7nat,
    {
        let ghost ts = self.tokens@;
        let ghost i0 = self.index as int;
        let mut expressions: Vec<Expression> = Vec::new();
        loop
            invariant
                self.wf(),
                moved(*old(self), *self),
                expressions.len() > 0 ==> old(self).index < self.index,
                ts == self.tokens@,
                i0 == old(self).index,
                t_items(ts, i0, seq![]) == t_items(ts, self.index as int, views(expressions@)),
            ensures
                ends_sequence(ts, self.index as int),
            decreases self.tokens@.len() - self.index,
        {
            let ghost k = self.index as int;
            let ghost before = expressions@;
            let more = match self.peek_token(0) {
                Some(t) => !(match t {
                    Token::LogicOr => true,
                    Token::GroupEnd => true,
                    _ => false,
                }),
                None => false,
            };
            if !more {
                break;
            }
            let expression = match self.parse_look_ahead_assertion() {
                Ok(e) => e,
                Err(e) => {
                    return Err(e);
                },
            };
            let ghost v = expression@;
            expressions.push(expression);
            proof {
                lemma_expressions_view_push(before, expression);
                assert(views(expressions@) == views(before).push(v));
            }
        }
        proof {
            crate::ast::lemma_expressions_view_pointwise(expressions@, expressions@.len() as int);
        }
        if expressions.len() == 0 {
            return Err(
                AnreError::MessageWithRange(
                    string_from_str("Encountered an empty expression."),
                    self.last_range,
                ),
            );
        }
        let mut joined = join_char_runs(expressions);
        proof {
            crate::ast::lemma_expressions_view_pointwise(joined@, joined@.len() as int);
        }
        if joined.len() == 1 {
            let ghost j0 = joined@[0];
            let e = joined.remove(0);
            assert(e == j0);
            Ok(e)
        } else {
            Ok(Expression::Group(joined))
        }
    }

    /// `expression(?=...)` or `expression(?!...)`.
    fn parse_look_ahead_assertion(&mut self) -> (r: Result<Expression, AnreError>)
        requires
            old(self).wf(),
        ensures
            stepped(*old(self), *final(self), r, t_item(old(self).tokens@, old(self).index as int)),
            parsed(*old(self), *final(self), r),
        decreases old(self).tokens@.len() - old(self).index, 6nat,
    {
        let expression = match self.parse_notation() {
            Ok(e) => e,
            Err(e) => {
                return Err(e);
            },
        };
        let name = match self.peek_token(0) {
            Some(Token::LookAheadGroupStart) => Some(FunctionName::IsBefore),
            Some(Token::LookAheadNegativeGroupStart) => Some(FunctionName::IsNotBefore),
            _ => None,
        };
        match name {
            None => Ok(expression),
            Some(name) => {
                self.next_token();
                let condition = match self.parse_expression() {
                    Ok(e) => e,
                    Err(e) => {
                        return Err(e);
                    },
                };
                match self.consume_closing_parenthesis() {
                    Ok(()) => {},
                    Err(e) => {
                        return Err(e);
                    },
                }
                Ok(
                    call2(
                        name,
                        FunctionCallArg::Expression(expression),
                        FunctionCallArg::Expression(condition),
                    ),
                )
            },
        }
    }

    /// An item followed by any number of quantifiers and repetitions.
    fn parse_notation(&mut self) -> (r: Result<Expression, AnreError>)
        requires
            old(self).wf(),
        ensures
            stepped(*old(self), *final(self), r, t_notation(old(self).tokens@, old(self).index as int)),
            parsed(*old(self), *final(self), r),
        decreases old(self).tokens@.len() - old(self).index, 5nat,
    {
        let ghost ts = self.tokens@;
        let ghost i0 = self.index as int;
        let mut expression = match self.parse_primary_expression() {
            Ok(e) => e,
            Err(e) => {
                return Err(e);
            },
        };
        loop
            invariant
                self.wf(),
                moved(*old(self), *self),
                old(self).index < self.index,
                ts == self.tokens@,
                i0 == old(self).index,
                t_notation(ts, i0) == t_notation_rest(ts, expression@, self.index as int),
            ensures
                t_notation(ts, i0) == Some((expression@, self.index as int)),
            decreases self.tokens@.len() - self.index,
        {
            let ghost ev = expression@;
            let quantifier = match self.peek_token(0) {
                Some(t) => quantifier_of(t),
                None => None,
            };
            let repetition = match self.peek_token(0) {
                Some(Token::Repetition(rep, lazy)) => Some((*rep, *lazy)),
                _ => None,
            };
            if quantifier.is_some() {
                expression = call1(quantifier.unwrap(), expression);
                self.next_token();
            } else if repetition.is_some() {
                let (rep, lazy) = repetition.unwrap();
                let mut args: Vec<FunctionCallArg> = Vec::new();
                args.push(FunctionCallArg::Expression(expression));
                let name = match rep {
                    Repetition::Repeat(n) => {
                        args.push(FunctionCallArg::Number(n));
                        if lazy {
                            FunctionName::LazyRepeat
                        } else {
                            FunctionName::Repeat
                        }
                    },
                    Repetition::RepeatFrom(n) => {
                        args.push(FunctionCallArg::Number(n));
                        if lazy {
                            FunctionName::LazyRepeatFrom
                        } else {
                            FunctionName::RepeatFrom
                        }
                    },
                    Repetition::RepeatRange(m, n) => {
                        if m > n {
                            let range = self.peek_range(0).unwrap();
                            return Err(AnreError::MessageWithRange(invalid_range_message(m, n), range));
                        }
                        args.push(FunctionCallArg::Number(m));
                        args.push(FunctionCallArg::Number(n));
                        if lazy {
                            FunctionName::LazyRepeatRange
                        } else {
                            FunctionName::RepeatRange
                        }
                    },
                };
                proof {
                    lemma_args_view_small(args@);
                }
                expression = Expression::FunctionCall(Box::new(FunctionCall { name, args }));
                self.next_token();
            } else {
                break;
            }
        }
        Ok(expression)
    }

    /// `expression)` after an opening token of a group.
    fn parse_group_body(&mut self) -> (r: Result<Expression, AnreError>)
        requires
            old(self).wf(),
        ensures
            stepped(*old(self), *final(self), r, t_group_body(old(self).tokens@, old(self).index as int)),
            parsed(*old(self), *final(self), r),
        decreases old(self).tokens@.len() - old(self).index, 10nat,
    {
        let expression = match self.parse_expression() {
            Ok(e) => e,
            Err(e) => {
                return Err(e);
            },
        };
        match self.consume_closing_parenthesis() {
            Ok(()) => Ok(expression),
            Err(e) => Err(e),
        }
    }

    /// An assertion, a group, a look-behind, a back reference or a literal.
    fn parse_primary_expression(&mut self) -> (r: Result<Expression, AnreError>)
        requires
            old(self).wf(),
        ensures
            stepped(*old(self), *final(self), r, t_primary(old(self).tokens@, old(self).index as int)),
            parsed(*old(self), *final(self), r),
        decreases old(self).tokens@.len() - old(self).index, 4nat,
    {
        let head = match self.peek_token(0) {
            Some(t) => clone_token(t),
            None => {
                return Err(AnreError::UnexpectedEndOfDocument(string_from_str("Expected an expression.")));
            },
        };
        match head {
            Token::LineBoundaryAssertionStart => {
                self.next_token();
                Ok(call0(FunctionName::IsStart))
            },
            Token::LineBoundaryAssertionEnd => {
                self.next_token();
                Ok(call0(FunctionName::IsEnd))
            },
            Token::WordBoundaryAssertion(negative) => {
                self.next_token();
                if negative {
                    Ok(call0(FunctionName::IsNotBound))
                } else {
                    Ok(call0(FunctionName::IsBound))
                }
            },
            Token::LookBehindGroupStart | Token::LookBehindNegativeGroupStart => {
                let name = match head {
                    Token::LookBehindGroupStart => FunctionName::IsAfter,
                    _ => FunctionName::IsNotAfter,
                };
                self.next_token();
                let condition = match self.parse_group_body() {
                    Ok(e) => e,
                    Err(e) => {
                        return Err(e);
                    },
                };
                // The assertion applies to all that follows it.
                let expression = match self.parse_expression() {
                    Ok(e) => e,
                    Err(e) => {
                        return Err(e);
                    },
                };
                Ok(
                    call2(
                        name,
                        FunctionCallArg::Expression(expression),
                        FunctionCallArg::Expression(condition),
                    ),
                )
            },
            Token::GroupStart => {
                self.next_token();
                match self.parse_group_body() {
                    Ok(e) => Ok(call1(FunctionName::Index, e)),
                    Err(e) => Err(e),
                }
            },
            Token::NonCaptureGroupStart => {
                self.next_token();
                self.parse_group_body()
            },
            Token::NamedCaptureGroupStart(name) => {
                self.next_token();
                match self.parse_group_body() {
                    Ok(e) => Ok(
                        call2(
                            FunctionName::Name,
                            FunctionCallArg::Expression(e),
                            FunctionCallArg::Identifier(name),
                        ),
                    ),
                    Err(e) => Err(e),
                }
            },
            Token::BackReferenceNumber(index) => {
                self.next_token();
                Ok(Expression::BackReference(BackReference::Index(index)))
            },
            Token::BackReferenceName(name) => {
                self.next_token();
                Ok(Expression::BackReference(BackReference::Name(name)))
            },
            _ => match self.parse_literal() {
                Ok(literal) => Ok(Expression::Literal(literal)),
                Err(e) => Err(e),
            },
        }
    }

    /// A character, a character set, a preset character set or `.`.
    fn parse_literal(&mut self) -> (r: Result<Literal, AnreError>)
        requires
            old(self).wf(),
        ensures
            parsed(*old(self), *final(self), r),
            match t_literal(old(self).tokens@, old(self).index as int) {
                Some((v, j)) => r matches Ok(l) && literal_view(l) == v && final(self).index == j,
                None => r is Err,
            },
        decreases old(self).tokens@.len() - old(self).index, 3nat,
    {
        let head = match self.peek_token(0) {
            Some(t) => clone_token(t),
            None => {
                return Err(AnreError::UnexpectedEndOfDocument(string_from_str("Expected a literal.")));
            },
        };
        match head {
            Token::CharSetStart | Token::CharSetStartNegative => match self.parse_charset() {
                Ok(set) => Ok(Literal::CharSet(set)),
                Err(e) => Err(e),
            },
            Token::Char(c) => {
                self.next_token();
                Ok(Literal::Char(c))
            },
            Token::PresetCharSet(c) => match preset_charset_name_from_char(c) {
                Some(name) => {
                    self.next_token();
                    Ok(Literal::PresetCharSet(name))
                },
                None => Err(AnreError::MessageWithRange(string_from_str("Expected a literal."), self.last_range)),
            },
            Token::Dot => {
                self.next_token();
                Ok(Literal::AnyChar)
            },
            _ => Err(AnreError::MessageWithRange(string_from_str("Expected a literal."), self.last_range)),
        }
    }

    /// One more element of a character set read.
    proof fn lemma_items_step(ts: Seq<TokenWithRange>, k: int, done: Seq<CharSetElementView>, el: CharSetElementView)
        requires
            0 <= k < ts.len(),
            t_charset_items(ts, k) == prepend_element(el, t_charset_items(ts, k + 1)),
        ensures
            match t_charset_items(ts, k) {
                Some((rest, j)) => Some((done + rest, j)),
                None => None::<(Seq<CharSetElementView>, int)>,
            } == match t_charset_items(ts, k + 1) {
                Some((rest, j)) => Some((done.push(el) + rest, j)),
                None => None::<(Seq<CharSetElementView>, int)>,
            },
    {
        match t_charset_items(ts, k + 1) {
            Some((rest, j)) => {
                assert(done + (seq![el] + rest) =~= done.push(el) + rest);
            },
            None => {},
        }
    }

    /// `[...]` or `[^...]`: characters, ranges and preset character sets.
    fn parse_charset(&mut self) -> (r: Result<CharSet, AnreError>)
        requires
            old(self).wf(),
            old(self).index < old(self).tokens@.len(),
        ensures
            parsed(*old(self), *final(self), r),
            match t_charset(old(self).tokens@, old(self).index as int) {
                Some((v, j)) => r matches Ok(set) && charset_view(set) == v && final(self).index == j,
                None => r is Err,
            },
        decreases old(self).tokens@.len() - old(self).index, 2nat,
    {
        let ghost ts = self.tokens@;
        let ghost i0 = self.index as int;
        let negative = match self.next_token() {
            Some(Token::CharSetStartNegative) => true,
            _ => false,
        };
        let mut elements: Vec<CharSetElement> = Vec::new();
        proof {
            match t_charset_items(ts, i0 + 1) {
                Some((rest, j)) => {
                    assert(elements_view(elements@, 0) + rest =~= rest);
                },
                None => {},
            }
        }
        loop
            invariant
                self.wf(),
                moved(*old(self), *self),
                old(self).index < self.index,
                ts == self.tokens@,
                i0 == old(self).index,
                negative == (ts[i0].token is CharSetStartNegative),
                t_charset_items(ts, i0 + 1) == match t_charset_items(ts, self.index as int) {
                    Some((rest, j)) => Some((elements_view(elements@, elements@.len() as int) + rest, j)),
                    None => None::<(Seq<CharSetElementView>, int)>,
                },
            ensures
                t_charset_items(ts, self.index as int) == Some((Seq::<CharSetElementView>::empty(), self.index as int)),
            decreases self.tokens@.len() - self.index,
        {
            let ghost k = self.index as int;
            let ghost before = elements@;
            let head = match self.peek_token(0) {
                Some(t) => clone_token(t),
                None => {
                    break;
                },
            };
            match head {
                Token::CharSetEnd => {
                    break;
                },
                Token::Char(c) => {
                    self.next_token();
                    elements.push(CharSetElement::Char(c));
                    proof {
                        lemma_elements_view_push(before, CharSetElement::Char(c));
                        Self::lemma_items_step(ts, k, elements_view(before, before.len() as int), CharSetElementView::Char(c));
                    }
                },
                Token::CharRange(from, to) => {
                    self.next_token();
                    elements.push(CharSetElement::CharRange(CharRange { start: from, end_inclusive: to }));
                    proof {
                        let el = CharSetElement::CharRange(CharRange { start: from, end_inclusive: to });
                        lemma_elements_view_push(before, el);
                        Self::lemma_items_step(ts, k, elements_view(before, before.len() as int), crate::ast::element_view(el));
                    }
                },
                Token::PresetCharSet(c) => {
                    match preset_charset_name_from_char(c) {
                        Some(name) => {
                            self.next_token();
                            elements.push(CharSetElement::PresetCharSet(name));
                            proof {
                                lemma_elements_view_push(before, CharSetElement::PresetCharSet(name));
                                Self::lemma_items_step(ts, k, elements_view(before, before.len() as int), CharSetElementView::PresetCharSet(name));
                            }
                        },
                        None => {
                            return Err(
                                AnreError::MessageWithRange(
                                    string_from_str("Unsupported character set element."),
                                    self.peek_range(0).unwrap(),
                                ),
                            );
                        },
                    }
                },
                _ => {
                    return Err(
                        AnreError::MessageWithRange(
                            string_from_str("Unsupported character set element."),
                            self.peek_range(0).unwrap(),
                        ),
                    );
                },
            }
        }
        proof {
            assert(elements_view(elements@, elements@.len() as int) + Seq::<CharSetElementView>::empty()
                =~= elements_view(elements@, elements@.len() as int));
        }
        match self.consume_closing_bracket() {
            Ok(()) => {},
            Err(e) => {
                return Err(e);
            },
        }
        Ok(CharSet { negative, elements })
    }
}

} // verus!
