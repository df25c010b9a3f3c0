use vstd::prelude::*;

use crate::ast::{
    ArgView, BackReferenceView, CharRange, CharSetElementView, CharSetView, ExpressionView,
    FunctionName, LiteralView, PresetCharSetName,
};
use crate::traditional::token::{Repetition, Token, TokenWithRange};
use crate::traditional::scan::{token_eq, tokens_agree};

verus! {

// What the parser of the traditional notation makes of a sequence of
// tokens: each function gives the expression that starts at token `i` and
// the index of the token after it, or `None` where the tokens are refused.
//
//   expression := sequence ('|' expression)*
//   sequence   := item+          (up to `|`, `)` or the end)
//   item       := notation ('(?=' expression ')' | '(?!' expression ')')?
//   notation   := primary (quantifier | repetition)*
//   primary    := '^' | '$' | '\b' | '\B' | '(?<=' body expression
//               | '(?<!' body expression | '(' body | '(?:' body
//               | '(?<name>' body | back reference | literal
//   body       := expression ')'

/// The preset character set of an escape letter.
pub open spec fn preset_of_letter(c: char) -> Option<PresetCharSetName> {
    if c == 'w' {
        Some(PresetCharSetName::CharWord)
    } else if c == 'W' {
        Some(PresetCharSetName::CharNotWord)
    } else if c == 's' {
        Some(PresetCharSetName::CharSpace)
    } else if c == 'S' {
        Some(PresetCharSetName::CharNotSpace)
    } else if c == 'd' {
        Some(PresetCharSetName::CharDigit)
    } else if c == 'D' {
        Some(PresetCharSetName::CharNotDigit)
    } else {
        None
    }
}

/// The function of a quantifier notation.
pub open spec fn quantifier_name(t: Token) -> Option<FunctionName> {
    match t {
        Token::Optional => Some(FunctionName::Optional),
        Token::OneOrMore => Some(FunctionName::OneOrMore),
        Token::ZeroOrMore => Some(FunctionName::ZeroOrMore),
        Token::LazyOptional => Some(FunctionName::LazyOptional),
        Token::LazyOneOrMore => Some(FunctionName::LazyOneOrMore),
        Token::LazyZeroOrMore => Some(FunctionName::LazyZeroOrMore),
        _ => None,
    }
}

/// A call of a function without arguments.
pub open spec fn call0(name: FunctionName) -> ExpressionView {
    ExpressionView::FunctionCall(name, seq![])
}

/// A call of a function on one expression.
pub open spec fn call1(name: FunctionName, e: ExpressionView) -> ExpressionView {
    ExpressionView::FunctionCall(name, seq![ArgView::Expression(e)])
}

/// A call of a function on two expressions.
pub open spec fn call2(name: FunctionName, a: ExpressionView, b: ExpressionView) -> ExpressionView {
    ExpressionView::FunctionCall(name, seq![ArgView::Expression(a), ArgView::Expression(b)])
}

/// The expression of a run of characters: one character stands for itself,
/// more for a string.
pub open spec fn run_view(run: Seq<char>) -> Seq<ExpressionView> {
    if run.len() == 0 {
        seq![]
    } else if run.len() == 1 {
        let c = run[0];
        seq![ExpressionView::Literal(LiteralView::Char(c))]
    } else {
        seq![ExpressionView::Literal(LiteralView::String(run))]
    }
}

/// The items with each run of neighbouring characters joined, after the
/// characters `run` that are pending.
pub open spec fn join_runs(items: Seq<ExpressionView>, run: Seq<char>) -> Seq<ExpressionView>
    decreases items.len(),
{
    if items.len() == 0 {
        run_view(run)
    } else {
        match items[0] {
            ExpressionView::Literal(LiteralView::Char(c)) => join_runs(items.drop_first(), run.push(c)),
            other => run_view(run) + seq![other] + join_runs(items.drop_first(), seq![]),
        }
    }
}

/// The token at index `j` is a `|` or a `)`, where a sequence ends.
pub open spec fn ends_sequence(ts: Seq<TokenWithRange>, j: int) -> bool {
    !(0 <= j < ts.len()) || ts[j].token is LogicOr || ts[j].token is GroupEnd
}

/// An expression.
pub open spec fn t_expression(ts: Seq<TokenWithRange>, i: int) -> Option<(ExpressionView, int)>
    decreases ts.len() - i, 20nat,
{
    t_or(ts, i)
}

/// A sequence followed by any number of `| expression`.
pub open spec fn t_or(ts: Seq<TokenWithRange>, i: int) -> Option<(ExpressionView, int)>
    decreases ts.len() - i, 19nat,
{
    match t_sequence(ts, i) {
        Some((left, j)) => if i < j <= ts.len() {
            t_or_rest(ts, left, j)
        } else {
            None
        },
        None => None,
    }
}

/// `| expression` after the expression `left`, as long as they come.
pub open spec fn t_or_rest(ts: Seq<TokenWithRange>, left: ExpressionView, j: int) -> Option<
    (ExpressionView, int),
>
    decreases ts.len() - j, 19nat,
{
    if 0 <= j < ts.len() && ts[j].token is LogicOr {
        match t_expression(ts, j + 1) {
            Some((right, k)) => if j < k <= ts.len() {
                t_or_rest(ts, ExpressionView::Or(Box::new(left), Box::new(right)), k)
            } else {
                None
            },
            None => None,
        }
    } else {
        Some((left, j))
    }
}

/// A sequence of items: nothing is refused, one item stands for itself,
/// more form a group in which neighbouring characters join into strings.
pub open spec fn t_sequence(ts: Seq<TokenWithRange>, i: int) -> Option<(ExpressionView, int)>
    decreases ts.len() - i, 18nat,
{
    match t_items(ts, i, seq![]) {
        Some((items, j)) => if items.len() == 0 {
            None
        } else {
            let joined = join_runs(items, seq![]);
            if joined.len() == 1 {
                Some((joined[0], j))
            } else {
                Some((ExpressionView::Group(joined), j))
            }
        },
        None => None,
    }
}

/// The items from index `j` up to the end of the sequence, after the items
/// `acc`.
pub open spec fn t_items(ts: Seq<TokenWithRange>, j: int, acc: Seq<ExpressionView>) -> Option<
    (Seq<ExpressionView>, int),
>
    decreases ts.len() - j, 17nat,
{
    if ends_sequence(ts, j) {
        Some((acc, j))
    } else {
        match t_item(ts, j) {
            Some((e, k)) => if j < k <= ts.len() {
                t_items(ts, k, acc.push(e))
            } else {
                None
            },
            None => None,
        }
    }
}

/// A notation, followed by a look-ahead condition if one comes.
pub open spec fn t_item(ts: Seq<TokenWithRange>, i: int) -> Option<(ExpressionView, int)>
    decreases ts.len() - i, 16nat,
{
    match t_notation(ts, i) {
        Some((e, j)) => if i < j <= ts.len() {
            if j < ts.len() && (ts[j].token is LookAheadGroupStart
                || ts[j].token is LookAheadNegativeGroupStart) {
                let name = if ts[j].token is LookAheadGroupStart {
                    FunctionName::IsBefore
                } else {
                    FunctionName::IsNotBefore
                };
                match t_expression(ts, j + 1) {
                    Some((c, k)) => if j < k < ts.len() && ts[k].token is GroupEnd {
                        Some((call2(name, e, c), k + 1))
                    } else {
                        None
                    },
                    None => None,
                }
            } else {
                Some((e, j))
            }
        } else {
            None
        },
        None => None,
    }
}

/// A primary expression followed by its quantifiers and repetitions.
pub open spec fn t_notation(ts: Seq<TokenWithRange>, i: int) -> Option<(ExpressionView, int)>
    decreases ts.len() - i, 15nat,
{
    match t_primary(ts, i) {
        Some((e, j)) => if i < j <= ts.len() {
            t_notation_rest(ts, e, j)
        } else {
            None
        },
        None => None,
    }
}

/// The quantifiers and repetitions from index `j` on, applied to `e`.
pub open spec fn t_notation_rest(ts: Seq<TokenWithRange>, e: ExpressionView, j: int) -> Option<
    (ExpressionView, int),
>
    decreases ts.len() - j, 15nat,
{
    if !(0 <= j < ts.len()) {
        Some((e, j))
    } else {
        match quantifier_name(ts[j].token) {
            Some(q) => t_notation_rest(ts, call1(q, e), j + 1),
            None => match ts[j].token {
                Token::Repetition(Repetition::Repeat(n), lazy) => t_notation_rest(
                    ts,
                    ExpressionView::FunctionCall(
                        if lazy {
                            FunctionName::LazyRepeat
                        } else {
                            FunctionName::Repeat
                        },
                        seq![ArgView::Expression(e), ArgView::Number(n)],
                    ),
                    j + 1,
                ),
                Token::Repetition(Repetition::RepeatFrom(n), lazy) => t_notation_rest(
                    ts,
                    ExpressionView::FunctionCall(
                        if lazy {
                            FunctionName::LazyRepeatFrom
                        } else {
                            FunctionName::RepeatFrom
                        },
                        seq![ArgView::Expression(e), ArgView::Number(n)],
                    ),
                    j + 1,
                ),
                Token::Repetition(Repetition::RepeatRange(m, n), lazy) => if m > n {
                    None
                } else {
                    t_notation_rest(
                        ts,
                        ExpressionView::FunctionCall(
                            if lazy {
                                FunctionName::LazyRepeatRange
                            } else {
                                FunctionName::RepeatRange
                            },
                            seq![ArgView::Expression(e), ArgView::Number(m), ArgView::Number(n)],
                        ),
                        j + 1,
                    )
                },
                _ => Some((e, j)),
            },
        }
    }
}

/// An expression followed by `)`.
pub open spec fn t_group_body(ts: Seq<TokenWithRange>, i: int) -> Option<(ExpressionView, int)>
    decreases ts.len() - i, 21nat,
{
    match t_expression(ts, i) {
        Some((e, j)) => if 0 <= j < ts.len() && ts[j].token is GroupEnd {
            Some((e, j + 1))
        } else {
            None
        },
        None => None,
    }
}

/// An assertion, a group, a look-behind, a back reference or a literal.
/// A look-behind applies to all that follows it.
pub open spec fn t_primary(ts: Seq<TokenWithRange>, i: int) -> Option<(ExpressionView, int)>
    decreases ts.len() - i, 14nat,
{
    if !(0 <= i < ts.len()) {
        None
    } else {
        match ts[i].token {
            Token::LineBoundaryAssertionStart => Some((call0(FunctionName::IsStart), i + 1)),
            Token::LineBoundaryAssertionEnd => Some((call0(FunctionName::IsEnd), i + 1)),
            Token::WordBoundaryAssertion(negative) => Some(
                (
                    call0(
                        if negative {
                            FunctionName::IsNotBound
                        } else {
                            FunctionName::IsBound
                        },
                    ),
                    i + 1,
                ),
            ),
            Token::LookBehindGroupStart => match t_group_body(ts, i + 1) {
                Some((c, j)) => if i < j <= ts.len() {
                    match t_expression(ts, j) {
                        Some((e, k)) => Some((call2(FunctionName::IsAfter, e, c), k)),
                        None => None,
                    }
                } else {
                    None
                },
                None => None,
            },
            Token::LookBehindNegativeGroupStart => match t_group_body(ts, i + 1) {
                Some((c, j)) => if i < j <= ts.len() {
                    match t_expression(ts, j) {
                        Some((e, k)) => Some((call2(FunctionName::IsNotAfter, e, c), k)),
                        None => None,
                    }
                } else {
                    None
                },
                None => None,
            },
            Token::GroupStart => match t_group_body(ts, i + 1) {
                Some((e, j)) => Some((call1(FunctionName::Index, e), j)),
                None => None,
            },
            Token::NonCaptureGroupStart => t_group_body(ts, i + 1),
            Token::NamedCaptureGroupStart(name) => match t_group_body(ts, i + 1) {
                Some((e, j)) => Some(
                    (
                        ExpressionView::FunctionCall(
                            FunctionName::Name,
                            seq![ArgView::Expression(e), ArgView::Identifier(name@)],
                        ),
                        j,
                    ),
                ),
                None => None,
            },
            Token::BackReferenceNumber(n) => Some(
                (ExpressionView::BackReference(BackReferenceView::Index(n)), i + 1),
            ),
            Token::BackReferenceName(name) => Some(
                (ExpressionView::BackReference(BackReferenceView::Name(name@)), i + 1),
            ),
            _ => match t_literal(ts, i) {
                Some((l, j)) => Some((ExpressionView::Literal(l), j)),
                None => None,
            },
        }
    }
}

/// A character, a character set, a preset character set or `.`.
pub open spec fn t_literal(ts: Seq<TokenWithRange>, i: int) -> Option<(LiteralView, int)> {
    if !(0 <= i < ts.len()) {
        None
    } else {
        match ts[i].token {
            Token::CharSetStart | Token::CharSetStartNegative => match t_charset(ts, i) {
                Some((set, j)) => Some((LiteralView::CharSet(set), j)),
                None => None,
            },
            Token::Char(c) => Some((LiteralView::Char(c), i + 1)),
            Token::PresetCharSet(c) => match preset_of_letter(c) {
                Some(n) => Some((LiteralView::PresetCharSet(n), i + 1)),
                None => None,
            },
            Token::Dot => Some((LiteralView::AnyChar, i + 1)),
            _ => None,
        }
    }
}

/// The element `el` before the elements that `o` holds.
pub open spec fn prepend_element(el: CharSetElementView, o: Option<(Seq<CharSetElementView>, int)>) -> Option<
    (Seq<CharSetElementView>, int),
> {
    match o {
        Some((rest, j)) => Some((seq![el] + rest, j)),
        None => None,
    }
}

/// The elements of a character set from index `j` up to its `]` or the
/// end of the tokens.
pub open spec fn t_charset_items(ts: Seq<TokenWithRange>, j: int) -> Option<
    (Seq<CharSetElementView>, int),
>
    decreases ts.len() - j,
{
    if !(0 <= j < ts.len()) {
        Some((seq![], j))
    } else {
        match ts[j].token {
            Token::CharSetEnd => Some((seq![], j)),
            Token::Char(c) => prepend_element(CharSetElementView::Char(c), t_charset_items(ts, j + 1)),
            Token::CharRange(a, b) => prepend_element(
                CharSetElementView::CharRange(CharRange { start: a, end_inclusive: b }),
                t_charset_items(ts, j + 1),
            ),
            Token::PresetCharSet(c) => match preset_of_letter(c) {
                Some(n) => prepend_element(CharSetElementView::PresetCharSet(n), t_charset_items(ts, j + 1)),
                None => None,
            },
            _ => None,
        }
    }
}

/// The character set that starts at index `i`.
pub open spec fn t_charset(ts: Seq<TokenWithRange>, i: int) -> Option<(CharSetView, int)> {
    let negative = 0 <= i < ts.len() && ts[i].token is CharSetStartNegative;
    match t_charset_items(ts, i + 1) {
        Some((els, j)) => if 0 <= j < ts.len() && ts[j].token is CharSetEnd {
            Some((CharSetView { negative, elements: els }, j + 1))
        } else {
            None
        },
        None => None,
    }
}

/// The program that the tokens make: one expression over all of them.
pub open spec fn t_program(ts: Seq<TokenWithRange>) -> Option<ExpressionView> {
    match t_expression(ts, 0) {
        Some((e, j)) => if j >= ts.len() {
            Some(e)
        } else {
            None
        },
        None => None,
    }
}



// The grammar reads names by their characters, so it gives the same
// result on token sequences that agree.

/// The grammar sees the same at every index of agreeing token sequences.
pub open spec fn same_tokens(a: Seq<TokenWithRange>, b: Seq<TokenWithRange>) -> bool {
    &&& a.len() == b.len()
    &&& forall|k: int| 0 <= k < a.len() ==> token_eq(#[trigger] a[k].token, b[k].token)
}

/// Agreeing token sequences are the same to the grammar.
pub proof fn lemma_agree_same(a: Seq<TokenWithRange>, b: Seq<TokenWithRange>)
    requires
        tokens_agree(a, b),
    ensures
        same_tokens(a, b),
{
}

pub proof fn lemma_charset_items_same(a: Seq<TokenWithRange>, b: Seq<TokenWithRange>, j: int)
    requires
        same_tokens(a, b),
    ensures
        t_charset_items(a, j) == t_charset_items(b, j),
    decreases a.len() - j,
{
    if 0 <= j < a.len() {
        assert(token_eq(a[j].token, b[j].token));
        lemma_charset_items_same(a, b, j + 1);
    }
}

pub proof fn lemma_literal_same(a: Seq<TokenWithRange>, b: Seq<TokenWithRange>, i: int)
    requires
        same_tokens(a, b),
    ensures
        t_literal(a, i) == t_literal(b, i),
{
    if 0 <= i < a.len() {
        assert(token_eq(a[i].token, b[i].token));
        lemma_charset_items_same(a, b, i + 1);
        if 0 <= i + 1 < a.len() {
            assert(token_eq(a[i + 1].token, b[i + 1].token));
        }
        match t_charset_items(a, i + 1) {
            Some((els, j)) => {
                if 0 <= j < a.len() {
                    assert(token_eq(a[j].token, b[j].token));
                }
            },
            None => {},
        }
    }
}

pub proof fn lemma_expression_same(a: Seq<TokenWithRange>, b: Seq<TokenWithRange>, i: int)
    requires
        same_tokens(a, b),
    ensures
        t_expression(a, i) == t_expression(b, i),
    decreases a.len() - i, 20nat,
{
    lemma_or_same(a, b, i);
}

pub proof fn lemma_or_same(a: Seq<TokenWithRange>, b: Seq<TokenWithRange>, i: int)
    requires
        same_tokens(a, b),
    ensures
        t_or(a, i) == t_or(b, i),
    decreases a.len() - i, 19nat,
{
    lemma_sequence_same(a, b, i);
    match t_sequence(a, i) {
        Some((left, j)) => {
            if i < j <= a.len() {
                lemma_or_rest_same(a, b, left, j);
            }
        },
        None => {},
    }
}

pub proof fn lemma_or_rest_same(a: Seq<TokenWithRange>, b: Seq<TokenWithRange>, left: ExpressionView, j: int)
    requires
        same_tokens(a, b),
    ensures
        t_or_rest(a, left, j) == t_or_rest(b, left, j),
    decreases a.len() - j, 19nat,
{
    if 0 <= j < a.len() {
        assert(token_eq(a[j].token, b[j].token));
        if a[j].token is LogicOr {
            lemma_expression_same(a, b, j + 1);
            match t_expression(a, j + 1) {
                Some((right, k)) => {
                    if j < k <= a.len() {
                        lemma_or_rest_same(a, b, ExpressionView::Or(Box::new(left), Box::new(right)), k);
                    }
                },
                None => {},
            }
        }
    }
}

pub proof fn lemma_sequence_same(a: Seq<TokenWithRange>, b: Seq<TokenWithRange>, i: int)
    requires
        same_tokens(a, b),
    ensures
        t_sequence(a, i) == t_sequence(b, i),
    decreases a.len() - i, 18nat,
{
    lemma_items_same(a, b, i, seq![]);
}

pub proof fn lemma_items_same(a: Seq<TokenWithRange>, b: Seq<TokenWithRange>, j: int, acc: Seq<ExpressionView>)
    requires
        same_tokens(a, b),
    ensures
        t_items(a, j, acc) == t_items(b, j, acc),
    decreases a.len() - j, 17nat,
{
    if 0 <= j < a.len() {
        assert(token_eq(a[j].token, b[j].token));
    }
    if !ends_sequence(a, j) {
        lemma_item_same(a, b, j);
        match t_item(a, j) {
            Some((e, k)) => {
                if j < k <= a.len() {
                    lemma_items_same(a, b, k, acc.push(e));
                }
            },
            None => {},
        }
    }
}

pub proof fn lemma_item_same(a: Seq<TokenWithRange>, b: Seq<TokenWithRange>, i: int)
    requires
        same_tokens(a, b),
    ensures
        t_item(a, i) == t_item(b, i),
    decreases a.len() - i, 16nat,
{
    lemma_notation_same(a, b, i);
    match t_notation(a, i) {
        Some((e, j)) => {
            if i < j <= a.len() {
                if j < a.len() {
                    assert(token_eq(a[j].token, b[j].token));
                    lemma_expression_same(a, b, j + 1);
                    match t_expression(a, j + 1) {
                        Some((c, k)) => {
                            if 0 <= k < a.len() {
                                assert(token_eq(a[k].token, b[k].token));
                            }
                        },
                        None => {},
                    }
                }
            }
        },
        None => {},
    }
}

pub proof fn lemma_notation_same(a: Seq<TokenWithRange>, b: Seq<TokenWithRange>, i: int)
    requires
        same_tokens(a, b),
    ensures
        t_notation(a, i) == t_notation(b, i),
    decreases a.len() - i, 15nat,
{
    lemma_primary_same(a, b, i);
    match t_primary(a, i) {
        Some((e, j)) => {
            if i < j <= a.len() {
                lemma_notation_rest_same(a, b, e, j);
            }
        },
        None => {},
    }
}

pub proof fn lemma_notation_rest_same(a: Seq<TokenWithRange>, b: Seq<TokenWithRange>, e: ExpressionView, j: int)
    requires
        same_tokens(a, b),
    ensures
        t_notation_rest(a, e, j) == t_notation_rest(b, e, j),
    decreases a.len() - j, 15nat,
{
    if 0 <= j < a.len() {
        assert(token_eq(a[j].token, b[j].token));
        assert(a[j].token == b[j].token || a[j].token is NamedCaptureGroupStart || a[j].token is BackReferenceName);
        match quantifier_name(a[j].token) {
            Some(q) => {
                lemma_notation_rest_same(a, b, call1(q, e), j + 1);
            },
            None => match a[j].token {
                Token::Repetition(Repetition::Repeat(n), lazy) => {
                    lemma_notation_rest_same(
                        a,
                        b,
                        ExpressionView::FunctionCall(
                            if lazy {
                                FunctionName::LazyRepeat
                            } else {
                                FunctionName::Repeat
                            },
                            seq![ArgView::Expression(e), ArgView::Number(n)],
                        ),
                        j + 1,
                    );
                },
                Token::Repetition(Repetition::RepeatFrom(n), lazy) => {
                    lemma_notation_rest_same(
                        a,
                        b,
                        ExpressionView::FunctionCall(
                            if lazy {
                                FunctionName::LazyRepeatFrom
                            } else {
                                FunctionName::RepeatFrom
                            },
                            seq![ArgView::Expression(e), ArgView::Number(n)],
                        ),
                        j + 1,
                    );
                },
                Token::Repetition(Repetition::RepeatRange(m, n), lazy) => {
                    if m <= n {
                        lemma_notation_rest_same(
                            a,
                            b,
                            ExpressionView::FunctionCall(
                                if lazy {
                                    FunctionName::LazyRepeatRange
                                } else {
                                    FunctionName::RepeatRange
                                },
                                seq![ArgView::Expression(e), ArgView::Number(m), ArgView::Number(n)],
                            ),
                            j + 1,
                        );
                    }
                },
                _ => {},
            },
        }
    }
}

pub proof fn lemma_group_body_same(a: Seq<TokenWithRange>, b: Seq<TokenWithRange>, i: int)
    requires
        same_tokens(a, b),
    ensures
        t_group_body(a, i) == t_group_body(b, i),
    decreases a.len() - i, 21nat,
{
    lemma_expression_same(a, b, i);
    match t_expression(a, i) {
        Some((e, j)) => {
            if 0 <= j < a.len() {
                assert(token_eq(a[j].token, b[j].token));
            }
        },
        None => {},
    }
}

pub proof fn lemma_primary_same(a: Seq<TokenWithRange>, b: Seq<TokenWithRange>, i: int)
    requires
        same_tokens(a, b),
    ensures
        t_primary(a, i) == t_primary(b, i),
    decreases a.len() - i, 14nat,
{
    if 0 <= i < a.len() {
        assert(token_eq(a[i].token, b[i].token));
        lemma_group_body_same(a, b, i + 1);
        lemma_literal_same(a, b, i);
        match t_group_body(a, i + 1) {
            Some((c, j)) => {
                if i < j <= a.len() {
                    lemma_expression_same(a, b, j);
                }
            },
            None => {},
        }
    }
}

/// Agreeing token sequences make the same program.
pub proof fn lemma_program_agree(a: Seq<TokenWithRange>, b: Seq<TokenWithRange>)
    requires
        tokens_agree(a, b),
    ensures
        t_program(a) == t_program(b),
{
    lemma_agree_same(a, b);
    lemma_expression_same(a, b, 0);
}

} // verus!
