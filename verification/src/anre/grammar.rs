use vstd::prelude::*;

use crate::anre::names::{function_name_of, preset_charset_of};
use crate::anre::scan::{token_eq, tokens_agree};
use crate::anre::token::{Token, TokenWithRange};
use crate::ast::{
    ArgView, BackReferenceView, CharRange, CharSetElementView, CharSetView, ExpressionView,
    FunctionName, LiteralView,
};

verus! {

// What the parser of the ANRE notation makes of a sequence of tokens: each
// function gives what starts at token `i` and the index of the token after
// it, or `None` where the tokens are refused.
//
//   expression := named ('||' expression)*
//   named      := indexed ('as' name)?
//   indexed    := '#' notation | notation
//   notation   := primary ('.' name '(' args ')' | quantifier | '{' repetition '}')*
//   primary    := '(' expression* ')' | name '(' args ')' | name
//               | '^' number | literal
//   literal    := '[' elements ']' | '!' '[' elements ']' | char | string
//               | 'char_any' | preset set
//   args       := '(' (number | plain name | expression)* ')'
//   elements   := (expression ('..' expression)?)*   (characters, ranges,
//                 preset sets and character sets)

/// The counts that a `{...}` repetition allows.
#[derive(Clone, Copy)]
pub enum Repetition {
    /// `{m}`
    Repeat(usize),
    /// `{m..}`
    RepeatFrom(usize),
    /// `{m..n}`
    RepeatRange(usize, usize),
}

/// The characters of `char_any`.
pub open spec fn char_any_text() -> Seq<char> {
    "char_any"@
}

/// The keyword `as`.
pub open spec fn is_as(t: Token) -> bool {
    t matches Token::Keyword(k) && k@ == "as"@
}

/// A name that stands for itself: not `char_any` and not a preset set.
pub open spec fn plain_name(t: Token) -> bool {
    t matches Token::Identifier(id) && id@ != char_any_text() && preset_charset_of(id@) is None
}

/// The token at index `j` is `t`.
pub open spec fn token_is(ts: Seq<TokenWithRange>, j: int, t: Token) -> bool {
    0 <= j < ts.len() && ts[j].token == t
}

/// The function of a quantifier notation.
pub open spec fn quantifier_name(t: Token) -> Option<FunctionName> {
    match t {
        Token::Optional => Some(FunctionName::Optional),
        Token::OneOrMore => Some(FunctionName::OneOrMore),
        Token::ZeroOrMore => Some(FunctionName::ZeroOrMore),
        Token::LazyOptional => Some(FunctionName::LazyOptional),
        Token::LazyOneOrMore => Some(FunctionName::LazyOneOrMore),
        Token::LazyZeroOrMore => Some(FunctionName::LazyZeroOrMore),
        _ => None,
    }
}

/// A call of a function on one expression.
pub open spec fn call1(name: FunctionName, e: ExpressionView) -> ExpressionView {
    ExpressionView::FunctionCall(name, seq![ArgView::Expression(e)])
}

/// The call that a repetition makes of the expression `e`.
pub open spec fn repetition_call(e: ExpressionView, rep: Repetition, lazy: bool) -> ExpressionView {
    match rep {
        Repetition::Repeat(n) => ExpressionView::FunctionCall(
            if lazy {
                FunctionName::LazyRepeat
            } else {
                FunctionName::Repeat
            },
            seq![ArgView::Expression(e), ArgView::Number(n)],
        ),
        Repetition::RepeatFrom(n) => ExpressionView::FunctionCall(
            if lazy {
                FunctionName::LazyRepeatFrom
            } else {
                FunctionName::RepeatFrom
            },
            seq![ArgView::Expression(e), ArgView::Number(n)],
        ),
        Repetition::RepeatRange(m, n) => ExpressionView::FunctionCall(
            if lazy {
                FunctionName::LazyRepeatRange
            } else {
                FunctionName::RepeatRange
            },
            seq![ArgView::Expression(e), ArgView::Number(m), ArgView::Number(n)],
        ),
    }
}

/// The repetition `{m}`, `{m..}` or `{m..n}`, lazy when `?` follows, that
/// starts with `{` at index `j`.
pub open spec fn a_repetition(ts: Seq<TokenWithRange>, j: int) -> Option<(Repetition, bool, int)> {
    if !(0 <= j && j + 1 < ts.len()) {
        None
    } else {
        match ts[j + 1].token {
            Token::Number(m) => {
                let body = if token_is(ts, j + 2, Token::Range) {
                    if 0 <= j + 3 < ts.len() && ts[j + 3].token is Number {
                        (Repetition::RepeatRange(m, ts[j + 3].token->Number_0), j + 4)
                    } else {
                        (Repetition::RepeatFrom(m), j + 3)
                    }
                } else {
                    (Repetition::Repeat(m), j + 2)
                };
                let k = body.1;
                if token_is(ts, k, Token::BraceClose) {
                    if token_is(ts, k + 1, Token::Optional) {
                        Some((body.0, true, k + 2))
                    } else {
                        Some((body.0, false, k + 1))
                    }
                } else {
                    None
                }
            },
            _ => None,
        }
    }
}

/// An expression.
pub open spec fn a_expression(ts: Seq<TokenWithRange>, i: int) -> Option<(ExpressionView, int)>
    decreases ts.len() - i, 20nat,
{
    a_or(ts, i)
}

/// A named expression followed by any number of `|| expression`.
pub open spec fn a_or(ts: Seq<TokenWithRange>, i: int) -> Option<(ExpressionView, int)>
    decreases ts.len() - i, 19nat,
{
    match a_named(ts, i) {
        Some((left, j)) => if i < j <= ts.len() {
            a_or_rest(ts, left, j)
        } else {
            None
        },
        None => None,
    }
}

/// `|| expression` after the expression `left`, as long as they come.
pub open spec fn a_or_rest(ts: Seq<TokenWithRange>, left: ExpressionView, j: int) -> Option<
    (ExpressionView, int),
>
    decreases ts.len() - j, 19nat,
{
    if token_is(ts, j, Token::LogicOr) {
        match a_expression(ts, j + 1) {
            Some((right, k)) => if j < k <= ts.len() {
                a_or_rest(ts, ExpressionView::Or(Box::new(left), Box::new(right)), k)
            } else {
                None
            },
            None => None,
        }
    } else {
        Some((left, j))
    }
}

/// The capture that `expression as name` names: an indexed capture is
/// named itself, anything else is captured under the name.
pub open spec fn named_arg(e: ExpressionView) -> Option<ArgView> {
    match e {
        ExpressionView::FunctionCall(FunctionName::Index, args) => if args.len() == 0 {
            None
        } else {
            Some(args[0])
        },
        _ => Some(ArgView::Expression(e)),
    }
}

/// An indexed expression, named when `as name` follows.
pub open spec fn a_named(ts: Seq<TokenWithRange>, i: int) -> Option<(ExpressionView, int)>
    decreases ts.len() - i, 18nat,
{
    match a_indexed(ts, i) {
        Some((e, j)) => if 0 <= j < ts.len() && is_as(ts[j].token) {
            if j + 1 < ts.len() && ts[j + 1].token is Identifier {
                match named_arg(e) {
                    Some(captured) => Some(
                        (
                            ExpressionView::FunctionCall(
                                FunctionName::Name,
                                seq![captured, ArgView::Identifier(ts[j + 1].token->Identifier_0@)],
                            ),
                            j + 2,
                        ),
                    ),
                    None => None,
                }
            } else {
                None
            }
        } else {
            Some((e, j))
        },
        None => None,
    }
}

/// `# notation`, an indexed capture unless it is named already, or a
/// notation.
pub open spec fn a_indexed(ts: Seq<TokenWithRange>, i: int) -> Option<(ExpressionView, int)>
    decreases ts.len() - i, 17nat,
{
    if token_is(ts, i, Token::Hash) {
        match a_notation(ts, i + 1) {
            Some((e, j)) => if e matches ExpressionView::FunctionCall(FunctionName::Name, _) {
                Some((e, j))
            } else {
                Some((call1(FunctionName::Index, e), j))
            },
            None => None,
        }
    } else {
        a_notation(ts, i)
    }
}

/// `.name(` starts at index `j`.
pub open spec fn method_at(ts: Seq<TokenWithRange>, j: int) -> bool {
    &&& token_is(ts, j, Token::Dot)
    &&& 0 <= j + 1 < ts.len() && ts[j + 1].token is Identifier
    &&& token_is(ts, j + 2, Token::ParenthesisOpen)
}

/// A primary expression followed by its method calls, quantifiers and
/// repetitions.
pub open spec fn a_notation(ts: Seq<TokenWithRange>, i: int) -> Option<(ExpressionView, int)>
    decreases ts.len() - i, 16nat,
{
    match a_primary(ts, i) {
        Some((e, j)) => if i < j <= ts.len() {
            a_notation_rest(ts, e, j)
        } else {
            None
        },
        None => None,
    }
}

/// The method calls, quantifiers and repetitions from index `j` on,
/// applied to `e`.
pub open spec fn a_notation_rest(ts: Seq<TokenWithRange>, e: ExpressionView, j: int) -> Option<
    (ExpressionView, int),
>
    decreases ts.len() - j, 16nat,
{
    if !(0 <= j < ts.len()) {
        Some((e, j))
    } else if method_at(ts, j) {
        match a_method(ts, j, e) {
            Some((call, k)) => if j < k <= ts.len() {
                a_notation_rest(ts, call, k)
            } else {
                None
            },
            None => None,
        }
    } else if quantifier_name(ts[j].token) is Some {
        a_notation_rest(ts, call1(quantifier_name(ts[j].token)->Some_0, e), j + 1)
    } else if ts[j].token is BraceOpen {
        match a_repetition(ts, j) {
            Some((rep, lazy, k)) => if rep matches Repetition::RepeatRange(m, n) && m > n {
                None
            } else if j < k <= ts.len() {
                a_notation_rest(ts, repetition_call(e, rep, lazy), k)
            } else {
                None
            },
            None => None,
        }
    } else {
        Some((e, j))
    }
}

/// `.name(args)` at index `j` after the expression `e`, which becomes the
/// first argument.
pub open spec fn a_method(ts: Seq<TokenWithRange>, j: int, e: ExpressionView) -> Option<
    (ExpressionView, int),
>
    decreases ts.len() - j, 15nat,
{
    if 0 <= j + 1 < ts.len() && ts[j + 1].token is Identifier {
        match function_name_of(ts[j + 1].token->Identifier_0@) {
            Some(name) => if j + 2 <= ts.len() {
                match a_args(ts, j + 2) {
                    Some((args, k)) => Some(
                        (ExpressionView::FunctionCall(name, seq![ArgView::Expression(e)] + args), k),
                    ),
                    None => None,
                }
            } else {
                None
            },
            None => None,
        }
    } else {
        None
    }
}

/// `(arg, ...)` that starts with `(` at index `i`.
pub open spec fn a_args(ts: Seq<TokenWithRange>, i: int) -> Option<(Seq<ArgView>, int)>
    decreases ts.len() - i, 14nat,
{
    if 0 <= i < ts.len() {
        match a_args_rest(ts, i + 1, seq![]) {
            Some((args, j)) => if token_is(ts, j, Token::ParenthesisClose) {
                Some((args, j + 1))
            } else {
                None
            },
            None => None,
        }
    } else {
        None
    }
}

/// The arguments from index `j` up to `)` or the end, after `acc`.
pub open spec fn a_args_rest(ts: Seq<TokenWithRange>, j: int, acc: Seq<ArgView>) -> Option<
    (Seq<ArgView>, int),
>
    decreases ts.len() - j, 22nat,
{
    if !(0 <= j < ts.len()) || ts[j].token is ParenthesisClose {
        Some((acc, j))
    } else {
        match a_arg(ts, j) {
            Some((a, k)) => if j < k <= ts.len() {
                a_args_rest(ts, k, acc.push(a))
            } else {
                None
            },
            None => None,
        }
    }
}

/// The argument that starts at index `j`: a number, a plain name not
/// followed by `(`, or an expression.
pub open spec fn a_arg(ts: Seq<TokenWithRange>, j: int) -> Option<(ArgView, int)>
    decreases ts.len() - j, 21nat,
{
    if !(0 <= j < ts.len()) {
        None
    } else if ts[j].token is Number {
        Some((ArgView::Number(ts[j].token->Number_0), j + 1))
    } else if plain_name(ts[j].token) && !token_is(ts, j + 1, Token::ParenthesisOpen) {
        Some((ArgView::Identifier(ts[j].token->Identifier_0@), j + 1))
    } else {
        match a_expression(ts, j) {
            Some((e, k)) => Some((ArgView::Expression(e), k)),
            None => None,
        }
    }
}

/// A group, a function call, a back reference or a literal.
pub open spec fn a_primary(ts: Seq<TokenWithRange>, i: int) -> Option<(ExpressionView, int)>
    decreases ts.len() - i, 14nat,
{
    if !(0 <= i < ts.len()) {
        None
    } else if ts[i].token is ParenthesisOpen {
        a_group(ts, i)
    } else if ts[i].token is Identifier && token_is(ts, i + 1, Token::ParenthesisOpen) {
        a_function_call(ts, i)
    } else if plain_name(ts[i].token) {
        Some(
            (
                ExpressionView::BackReference(BackReferenceView::Name(ts[i].token->Identifier_0@)),
                i + 1,
            ),
        )
    } else if ts[i].token is Caret && 0 <= i + 1 < ts.len() && ts[i + 1].token is Number {
        Some(
            (
                ExpressionView::BackReference(BackReferenceView::Index(ts[i + 1].token->Number_0)),
                i + 2,
            ),
        )
    } else {
        match a_literal(ts, i) {
            Some((l, k)) => Some((ExpressionView::Literal(l), k)),
            None => None,
        }
    }
}

/// `name(args)` that starts at index `i`.
pub open spec fn a_function_call(ts: Seq<TokenWithRange>, i: int) -> Option<(ExpressionView, int)>
    decreases ts.len() - i, 13nat,
{
    if 0 <= i < ts.len() && ts[i].token is Identifier {
        match function_name_of(ts[i].token->Identifier_0@) {
            Some(name) => match a_args(ts, i + 1) {
                Some((args, k)) => Some((ExpressionView::FunctionCall(name, args), k)),
                None => None,
            },
            None => None,
        }
    } else {
        None
    }
}

/// `(expression, ...)` that starts at index `i`: one expression stands for
/// itself, any other number forms a group.
pub open spec fn a_group(ts: Seq<TokenWithRange>, i: int) -> Option<(ExpressionView, int)>
    decreases ts.len() - i, 13nat,
{
    if 0 <= i < ts.len() {
        match a_group_rest(ts, i + 1, seq![]) {
            Some((es, j)) => if token_is(ts, j, Token::ParenthesisClose) {
                if es.len() == 1 {
                    Some((es[0], j + 1))
                } else {
                    Some((ExpressionView::Group(es), j + 1))
                }
            } else {
                None
            },
            None => None,
        }
    } else {
        None
    }
}

/// The expressions of a group from index `j` up to `)` or the end, after
/// `acc`.
pub open spec fn a_group_rest(ts: Seq<TokenWithRange>, j: int, acc: Seq<ExpressionView>) -> Option<
    (Seq<ExpressionView>, int),
>
    decreases ts.len() - j, 21nat,
{
    if !(0 <= j < ts.len()) || ts[j].token is ParenthesisClose {
        Some((acc, j))
    } else {
        match a_expression(ts, j) {
            Some((e, k)) => if j < k <= ts.len() {
                a_group_rest(ts, k, acc.push(e))
            } else {
                None
            },
            None => None,
        }
    }
}

/// A literal that starts at index `i`.
pub open spec fn a_literal(ts: Seq<TokenWithRange>, i: int) -> Option<(LiteralView, int)>
    decreases ts.len() - i, 12nat,
{
    if !(0 <= i < ts.len()) {
        None
    } else if ts[i].token is BracketOpen {
        match a_charset(ts, i) {
            Some((els, k)) => Some((LiteralView::CharSet(CharSetView { negative: false, elements: els }), k)),
            None => None,
        }
    } else if ts[i].token is Not && token_is(ts, i + 1, Token::BracketOpen) {
        match a_charset(ts, i + 1) {
            Some((els, k)) => Some((LiteralView::CharSet(CharSetView { negative: true, elements: els }), k)),
            None => None,
        }
    } else {
        match ts[i].token {
            Token::Char(c) => Some((LiteralView::Char(c), i + 1)),
            Token::String(s) => Some((LiteralView::String(s@), i + 1)),
            Token::Identifier(id) => if id@ == char_any_text() {
                Some((LiteralView::AnyChar, i + 1))
            } else {
                match preset_charset_of(id@) {
                    Some(p) => Some((LiteralView::PresetCharSet(p), i + 1)),
                    None => None,
                }
            },
            _ => None,
        }
    }
}

/// `[element, ...]` that starts with `[` at index `i`.
pub open spec fn a_charset(ts: Seq<TokenWithRange>, i: int) -> Option<(Seq<CharSetElementView>, int)>
    decreases ts.len() - i, 11nat,
{
    if 0 <= i < ts.len() {
        match a_charset_rest(ts, i + 1, seq![]) {
            Some((els, j)) => if token_is(ts, j, Token::BracketClose) {
                Some((els, j + 1))
            } else {
                None
            },
            None => None,
        }
    } else {
        None
    }
}

/// The elements of a character set from index `j` up to `]` or the end,
/// after `acc`.
pub open spec fn a_charset_rest(ts: Seq<TokenWithRange>, j: int, acc: Seq<CharSetElementView>) -> Option<
    (Seq<CharSetElementView>, int),
>
    decreases ts.len() - j, 22nat,
{
    if !(0 <= j < ts.len()) || ts[j].token is BracketClose {
        Some((acc, j))
    } else {
        match a_charset_item(ts, j) {
            Some((el, k)) => if j < k <= ts.len() {
                a_charset_rest(ts, k, acc.push(el))
            } else {
                None
            },
            None => None,
        }
    }
}

/// The element of a character set that starts at index `j`: an
/// expression that is a character, a range of characters `a..b`, a preset
/// set or a character set.
pub open spec fn a_charset_item(ts: Seq<TokenWithRange>, j: int) -> Option<(CharSetElementView, int)>
    decreases ts.len() - j, 21nat,
{
    match a_expression(ts, j) {
        Some((e, k)) => if j < k <= ts.len() {
            match e {
                ExpressionView::Literal(LiteralView::Char(c)) => if token_is(ts, k, Token::Range) {
                    match a_range_end(ts, k) {
                        Some((d, k2)) => Some(
                            (CharSetElementView::CharRange(CharRange { start: c, end_inclusive: d }), k2),
                        ),
                        None => None,
                    }
                } else {
                    Some((CharSetElementView::Char(c), k))
                },
                ExpressionView::Literal(LiteralView::PresetCharSet(p)) => Some(
                    (CharSetElementView::PresetCharSet(p), k),
                ),
                ExpressionView::Literal(LiteralView::CharSet(set)) => Some(
                    (CharSetElementView::CharSet(Box::new(set)), k),
                ),
                _ => None,
            }
        } else {
            None
        },
        None => None,
    }
}

/// The character after the `..` at index `k` of a character range.
pub open spec fn a_range_end(ts: Seq<TokenWithRange>, k: int) -> Option<(char, int)>
    decreases ts.len() - k, 21nat,
{
    if 0 <= k && k + 1 < ts.len() {
        match a_expression(ts, k + 1) {
            Some((e, k2)) => if k + 1 < k2 <= ts.len() {
                match e {
                    ExpressionView::Literal(LiteralView::Char(d)) => Some((d, k2)),
                    _ => None,
                }
            } else {
                None
            },
            None => None,
        }
    } else {
        None
    }
}

/// The program that the tokens make: one expression over all of them.
pub open spec fn a_program(ts: Seq<TokenWithRange>) -> Option<ExpressionView> {
    match a_expression(ts, 0) {
        Some((e, j)) => if j >= ts.len() {
            Some(e)
        } else {
            None
        },
        None => None,
    }
}

} // verus!

verus! {

// The grammar reads names and strings by their characters alone: token
// sequences that agree give the same results.

proof fn lemma_token_at(a: Seq<TokenWithRange>, b: Seq<TokenWithRange>, j: int)
    requires
        tokens_agree(a, b),
        0 <= j < a.len(),
    ensures
        token_eq(a[j].token, b[j].token),
{
}

proof fn lemma_repetition_agree(a: Seq<TokenWithRange>, b: Seq<TokenWithRange>, j: int)
    requires
        tokens_agree(a, b),
    ensures
        a_repetition(a, j) == a_repetition(b, j),
{
    if 0 <= j && j + 1 < a.len() {
        lemma_token_at(a, b, j + 1);
        if j + 2 < a.len() {
            lemma_token_at(a, b, j + 2);
        }
        if j + 3 < a.len() {
            lemma_token_at(a, b, j + 3);
        }
        if j + 4 < a.len() {
            lemma_token_at(a, b, j + 4);
        }
        if j + 5 < a.len() {
            lemma_token_at(a, b, j + 5);
        }
    }
}

proof fn lemma_expression_agree(a: Seq<TokenWithRange>, b: Seq<TokenWithRange>, i: int)
    requires
        tokens_agree(a, b),
    ensures
        a_expression(a, i) == a_expression(b, i),
    decreases a.len() - i, 20nat,
{
    lemma_or_agree(a, b, i);
}

proof fn lemma_or_agree(a: Seq<TokenWithRange>, b: Seq<TokenWithRange>, i: int)
    requires
        tokens_agree(a, b),
    ensures
        a_or(a, i) == a_or(b, i),
    decreases a.len() - i, 19nat,
{
    lemma_named_agree(a, b, i);
    if let Some((left, j)) = a_named(a, i) {
        if i < j <= a.len() {
            lemma_or_rest_agree(a, b, left, j);
        }
    }
}

proof fn lemma_or_rest_agree(a: Seq<TokenWithRange>, b: Seq<TokenWithRange>, left: ExpressionView, j: int)
    requires
        tokens_agree(a, b),
    ensures
        a_or_rest(a, left, j) == a_or_rest(b, left, j),
    decreases a.len() - j, 19nat,
{
    if 0 <= j < a.len() {
        lemma_token_at(a, b, j);
    }
    if token_is(a, j, Token::LogicOr) {
        lemma_expression_agree(a, b, j + 1);
        if let Some((right, k)) = a_expression(a, j + 1) {
            if j < k <= a.len() {
                lemma_or_rest_agree(a, b, ExpressionView::Or(Box::new(left), Box::new(right)), k);
            }
        }
    }
}

proof fn lemma_named_agree(a: Seq<TokenWithRange>, b: Seq<TokenWithRange>, i: int)
    requires
        tokens_agree(a, b),
    ensures
        a_named(a, i) == a_named(b, i),
    decreases a.len() - i, 18nat,
{
    lemma_indexed_agree(a, b, i);
    if let Some((e, j)) = a_indexed(a, i) {
        if 0 <= j < a.len() {
            lemma_token_at(a, b, j);
        }
        if 0 <= j + 1 < a.len() {
            lemma_token_at(a, b, j + 1);
        }
    }
}

proof fn lemma_indexed_agree(a: Seq<TokenWithRange>, b: Seq<TokenWithRange>, i: int)
    requires
        tokens_agree(a, b),
    ensures
        a_indexed(a, i) == a_indexed(b, i),
    decreases a.len() - i, 17nat,
{
    if 0 <= i < a.len() {
        lemma_token_at(a, b, i);
    }
    if token_is(a, i, Token::Hash) {
        lemma_notation_agree(a, b, i + 1);
    } else {
        lemma_notation_agree(a, b, i);
    }
}

proof fn lemma_notation_agree(a: Seq<TokenWithRange>, b: Seq<TokenWithRange>, i: int)
    requires
        tokens_agree(a, b),
    ensures
        a_notation(a, i) == a_notation(b, i),
    decreases a.len() - i, 16nat,
{
    lemma_primary_agree(a, b, i);
    if let Some((e, j)) = a_primary(a, i) {
        if i < j <= a.len() {
            lemma_notation_rest_agree(a, b, e, j);
        }
    }
}

proof fn lemma_notation_rest_agree(a: Seq<TokenWithRange>, b: Seq<TokenWithRange>, e: ExpressionView, j: int)
    requires
        tokens_agree(a, b),
    ensures
        a_notation_rest(a, e, j) == a_notation_rest(b, e, j),
    decreases a.len() - j, 16nat,
{
    if 0 <= j < a.len() {
        lemma_token_at(a, b, j);
        if j + 1 < a.len() {
            lemma_token_at(a, b, j + 1);
        }
        if j + 2 < a.len() {
            lemma_token_at(a, b, j + 2);
        }
        if method_at(a, j) {
            lemma_method_agree(a, b, j, e);
            if let Some((call, k)) = a_method(a, j, e) {
                if j < k <= a.len() {
                    lemma_notation_rest_agree(a, b, call, k);
                }
            }
        } else if quantifier_name(a[j].token) is Some {
            lemma_notation_rest_agree(a, b, call1(quantifier_name(a[j].token)->Some_0, e), j + 1);
        } else if a[j].token is BraceOpen {
            lemma_repetition_agree(a, b, j);
            if let Some((rep, lazy, k)) = a_repetition(a, j) {
                if j < k <= a.len() {
                    lemma_notation_rest_agree(a, b, repetition_call(e, rep, lazy), k);
                }
            }
        }
    }
}

proof fn lemma_method_agree(a: Seq<TokenWithRange>, b: Seq<TokenWithRange>, j: int, e: ExpressionView)
    requires
        tokens_agree(a, b),
    ensures
        a_method(a, j, e) == a_method(b, j, e),
    decreases a.len() - j, 15nat,
{
    if 0 <= j + 1 < a.len() {
        lemma_token_at(a, b, j + 1);
        lemma_args_agree(a, b, j + 2);
    }
}

proof fn lemma_args_agree(a: Seq<TokenWithRange>, b: Seq<TokenWithRange>, i: int)
    requires
        tokens_agree(a, b),
    ensures
        a_args(a, i) == a_args(b, i),
    decreases a.len() - i, 14nat,
{
    if 0 <= i < a.len() {
        lemma_args_rest_agree(a, b, i + 1, seq![]);
        if let Some((args, j)) = a_args_rest(a, i + 1, seq![]) {
            if 0 <= j < a.len() {
                lemma_token_at(a, b, j);
            }
        }
    }
}

proof fn lemma_args_rest_agree(a: Seq<TokenWithRange>, b: Seq<TokenWithRange>, j: int, acc: Seq<ArgView>)
    requires
        tokens_agree(a, b),
    ensures
        a_args_rest(a, j, acc) == a_args_rest(b, j, acc),
    decreases a.len() - j, 22nat,
{
    if 0 <= j < a.len() {
        lemma_token_at(a, b, j);
        if !(a[j].token is ParenthesisClose) {
            lemma_arg_agree(a, b, j);
            if let Some((x, k)) = a_arg(a, j) {
                if j < k <= a.len() {
                    lemma_args_rest_agree(a, b, k, acc.push(x));
                }
            }
        }
    }
}

proof fn lemma_arg_agree(a: Seq<TokenWithRange>, b: Seq<TokenWithRange>, j: int)
    requires
        tokens_agree(a, b),
    ensures
        a_arg(a, j) == a_arg(b, j),
    decreases a.len() - j, 21nat,
{
    if 0 <= j < a.len() {
        lemma_token_at(a, b, j);
        if j + 1 < a.len() {
            lemma_token_at(a, b, j + 1);
        }
        lemma_expression_agree(a, b, j);
    }
}

proof fn lemma_primary_agree(a: Seq<TokenWithRange>, b: Seq<TokenWithRange>, i: int)
    requires
        tokens_agree(a, b),
    ensures
        a_primary(a, i) == a_primary(b, i),
    decreases a.len() - i, 14nat,
{
    if 0 <= i < a.len() {
        lemma_token_at(a, b, i);
        if i + 1 < a.len() {
            lemma_token_at(a, b, i + 1);
        }
        lemma_group_agree(a, b, i);
        lemma_function_call_agree(a, b, i);
        lemma_literal_agree(a, b, i);
    }
}

proof fn lemma_function_call_agree(a: Seq<TokenWithRange>, b: Seq<TokenWithRange>, i: int)
    requires
        tokens_agree(a, b),
    ensures
        a_function_call(a, i) == a_function_call(b, i),
    decreases a.len() - i, 13nat,
{
    if 0 <= i < a.len() {
        lemma_token_at(a, b, i);
        lemma_args_agree(a, b, i + 1);
    }
}

proof fn lemma_group_agree(a: Seq<TokenWithRange>, b: Seq<TokenWithRange>, i: int)
    requires
        tokens_agree(a, b),
    ensures
        a_group(a, i) == a_group(b, i),
    decreases a.len() - i, 13nat,
{
    if 0 <= i < a.len() {
        lemma_group_rest_agree(a, b, i + 1, seq![]);
        if let Some((es, j)) = a_group_rest(a, i + 1, seq![]) {
            if 0 <= j < a.len() {
                lemma_token_at(a, b, j);
            }
        }
    }
}

proof fn lemma_group_rest_agree(a: Seq<TokenWithRange>, b: Seq<TokenWithRange>, j: int, acc: Seq<ExpressionView>)
    requires
        tokens_agree(a, b),
    ensures
        a_group_rest(a, j, acc) == a_group_rest(b, j, acc),
    decreases a.len() - j, 21nat,
{
    if 0 <= j < a.len() {
        lemma_token_at(a, b, j);
        if !(a[j].token is ParenthesisClose) {
            lemma_expression_agree(a, b, j);
            if let Some((e, k)) = a_expression(a, j) {
                if j < k <= a.len() {
                    lemma_group_rest_agree(a, b, k, acc.push(e));
                }
            }
        }
    }
}

proof fn lemma_literal_agree(a: Seq<TokenWithRange>, b: Seq<TokenWithRange>, i: int)
    requires
        tokens_agree(a, b),
    ensures
        a_literal(a, i) == a_literal(b, i),
    decreases a.len() - i, 12nat,
{
    if 0 <= i < a.len() {
        lemma_token_at(a, b, i);
        if i + 1 < a.len() {
            lemma_token_at(a, b, i + 1);
        }
        lemma_charset_agree(a, b, i);
        lemma_charset_agree(a, b, i + 1);
    }
}

proof fn lemma_charset_agree(a: Seq<TokenWithRange>, b: Seq<TokenWithRange>, i: int)
    requires
        tokens_agree(a, b),
    ensures
        a_charset(a, i) == a_charset(b, i),
    decreases a.len() - i, 11nat,
{
    if 0 <= i < a.len() {
        lemma_charset_rest_agree(a, b, i + 1, seq![]);
        if let Some((els, j)) = a_charset_rest(a, i + 1, seq![]) {
            if 0 <= j < a.len() {
                lemma_token_at(a, b, j);
            }
        }
    }
}

proof fn lemma_charset_rest_agree(
    a: Seq<TokenWithRange>,
    b: Seq<TokenWithRange>,
    j: int,
    acc: Seq<CharSetElementView>,
)
    requires
        tokens_agree(a, b),
    ensures
        a_charset_rest(a, j, acc) == a_charset_rest(b, j, acc),
    decreases a.len() - j, 22nat,
{
    if 0 <= j < a.len() {
        lemma_token_at(a, b, j);
        if !(a[j].token is BracketClose) {
            lemma_charset_item_agree(a, b, j);
            if let Some((el, k)) = a_charset_item(a, j) {
                if j < k <= a.len() {
                    lemma_charset_rest_agree(a, b, k, acc.push(el));
                }
            }
        }
    }
}

#[verifier::rlimit(40)]
proof fn lemma_charset_item_agree(a: Seq<TokenWithRange>, b: Seq<TokenWithRange>, j: int)
    requires
        tokens_agree(a, b),
    ensures
        a_charset_item(a, j) == a_charset_item(b, j),
    decreases a.len() - j, 21nat,
{
    lemma_expression_agree(a, b, j);
    if let Some((e, k)) = a_expression(a, j) {
        if j < k <= a.len() {
            if 0 <= k < a.len() {
                lemma_token_at(a, b, k);
            }
            lemma_range_end_agree(a, b, k);
        }
    }
}

proof fn lemma_range_end_agree(a: Seq<TokenWithRange>, b: Seq<TokenWithRange>, k: int)
    requires
        tokens_agree(a, b),
    ensures
        a_range_end(a, k) == a_range_end(b, k),
    decreases a.len() - k, 21nat,
{
    if 0 <= k && k + 1 < a.len() {
        lemma_expression_agree(a, b, k + 1);
    }
}

/// Token sequences that agree (the same tokens, names and strings compared
/// by their characters) make the same program.
pub proof fn lemma_program_agree(a: Seq<TokenWithRange>, b: Seq<TokenWithRange>)
    requires
        tokens_agree(a, b),
    ensures
        a_program(a) == a_program(b),
{
    lemma_expression_agree(a, b, 0);
}

} // verus!
