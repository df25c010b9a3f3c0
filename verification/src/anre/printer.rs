use vstd::prelude::*;

use crate::ast::{
    BackReference, CharRange, CharSet, CharSetElement, Expression, FunctionCall, FunctionCallArg,
    FunctionName, Literal, PresetCharSetName, Program,
};
use crate::text::{decimal_chars, push_char, push_decimal, push_str};

verus! {

/// The ANRE name of a preset character set.
pub open spec fn preset_charset_text(name: PresetCharSetName) -> Seq<char> {
    match name {
        PresetCharSetName::CharWord => "char_word"@,
        PresetCharSetName::CharNotWord => "char_not_word"@,
        PresetCharSetName::CharDigit => "char_digit"@,
        PresetCharSetName::CharNotDigit => "char_not_digit"@,
        PresetCharSetName::CharSpace => "char_space"@,
        PresetCharSetName::CharNotSpace => "char_not_space"@,
    }
}

pub fn preset_charset_str(name: PresetCharSetName) -> (s: &'static str)
    ensures
        s@ == preset_charset_text(name),
{
    match name {
        PresetCharSetName::CharWord => "char_word",
        PresetCharSetName::CharNotWord => "char_not_word",
        PresetCharSetName::CharDigit => "char_digit",
        PresetCharSetName::CharNotDigit => "char_not_digit",
        PresetCharSetName::CharSpace => "char_space",
        PresetCharSetName::CharNotSpace => "char_not_space",
    }
}

/// The ANRE name of a function.
pub open spec fn function_name_text(name: FunctionName) -> Seq<char> {
    match name {
        FunctionName::Optional => "optional"@,
        FunctionName::OneOrMore => "one_or_more"@,
        FunctionName::ZeroOrMore => "zero_or_more"@,
        FunctionName::Repeat => "repeat"@,
        FunctionName::RepeatRange => "repeat_range"@,
        FunctionName::RepeatFrom => "repeat_from"@,
        FunctionName::LazyOptional => "lazy_optional"@,
        FunctionName::LazyOneOrMore => "lazy_one_or_more"@,
        FunctionName::LazyZeroOrMore => "lazy_zero_or_more"@,
        FunctionName::LazyRepeat => "lazy_repeat"@,
        FunctionName::LazyRepeatRange => "lazy_repeat_range"@,
        FunctionName::LazyRepeatFrom => "lazy_repeat_from"@,
        FunctionName::IsBefore => "is_before"@,
        FunctionName::IsAfter => "is_after"@,
        FunctionName::IsNotBefore => "is_not_before"@,
        FunctionName::IsNotAfter => "is_not_after"@,
        FunctionName::IsStart => "is_start"@,
        FunctionName::IsEnd => "is_end"@,
        FunctionName::IsBound => "is_bound"@,
        FunctionName::IsNotBound => "is_not_bound"@,
        FunctionName::Index => "index"@,
        FunctionName::Name => "name"@,
    }
}

pub fn function_name_str(name: FunctionName) -> (s: &'static str)
    ensures
        s@ == function_name_text(name),
{
    match name {
        FunctionName::Optional => "optional",
        FunctionName::OneOrMore => "one_or_more",
        FunctionName::ZeroOrMore => "zero_or_more",
        FunctionName::Repeat => "repeat",
        FunctionName::RepeatRange => "repeat_range",
        FunctionName::RepeatFrom => "repeat_from",
        FunctionName::LazyOptional => "lazy_optional",
        FunctionName::LazyOneOrMore => "lazy_one_or_more",
        FunctionName::LazyZeroOrMore => "lazy_zero_or_more",
        FunctionName::LazyRepeat => "lazy_repeat",
        FunctionName::LazyRepeatRange => "lazy_repeat_range",
        FunctionName::LazyRepeatFrom => "lazy_repeat_from",
        FunctionName::IsBefore => "is_before",
        FunctionName::IsAfter => "is_after",
        FunctionName::IsNotBefore => "is_not_before",
        FunctionName::IsNotAfter => "is_not_after",
        FunctionName::IsStart => "is_start",
        FunctionName::IsEnd => "is_end",
        FunctionName::IsBound => "is_bound",
        FunctionName::IsNotBound => "is_not_bound",
        FunctionName::Index => "index",
        FunctionName::Name => "name",
    }
}

/// How a character is written inside an ANRE literal.
pub open spec fn escape_char_text(c: char) -> Seq<char> {
    if c == '\n' {
        seq!['\\', 'n']
    } else if c == '\r' {
        seq!['\\', 'r']
    } else if c == '\t' {
        seq!['\\', 't']
    } else if c == '\\' {
        seq!['\\', '\\']
    } else if c == '\'' {
        seq!['\\', '\'']
    } else if c == '"' {
        seq!['\\', '"']
    } else {
        seq![c]
    }
}

pub open spec fn escape_string_text(s: Seq<char>) -> Seq<char>
    decreases s.len(),
{
    if s.len() == 0 {
        seq![]
    } else {
        escape_string_text(s.drop_last()) + escape_char_text(s.last())
    }
}

pub open spec fn char_range_text(r: CharRange) -> Seq<char> {
    seq!['\''] + seq![r.start] + seq!['\'', '.', '.', '\''] + seq![r.end_inclusive] + seq!['\'']
}

pub open spec fn charset_element_text(e: CharSetElement) -> Seq<char>
    decreases e, 0nat,
{
    match e {
        CharSetElement::Char(c) => seq!['\'', c, '\''],
        CharSetElement::CharRange(r) => char_range_text(r),
        CharSetElement::PresetCharSet(p) => preset_charset_text(p),
        CharSetElement::CharSet(c) => charset_text(*c),
    }
}

pub open spec fn charset_elements_text(es: Seq<CharSetElement>) -> Seq<char>
    decreases es, 0nat,
{
    if es.len() == 0 {
        seq![]
    } else if es.len() == 1 {
        charset_element_text(es[0])
    } else {
        charset_elements_text(es.drop_last()) + seq![',', ' '] + charset_element_text(es.last())
    }
}

pub open spec fn charset_text(c: CharSet) -> Seq<char>
    decreases c, 1nat,
{
    (if c.negative {
        seq!['!', '[']
    } else {
        seq!['[']
    }) + charset_elements_text(c.elements@) + seq![']']
}


pub open spec fn literal_text(l: Literal) -> Seq<char> {
    match l {
        Literal::AnyChar => "char_any"@,
        Literal::Char(c) => seq!['\''] + escape_char_text(c) + seq!['\''],
        Literal::String(s) => seq!['"'] + escape_string_text(s@) + seq!['"'],
        Literal::CharSet(c) => charset_text(c),
        Literal::PresetCharSet(p) => preset_charset_text(p),
    }
}

pub open spec fn backreference_text(b: BackReference) -> Seq<char> {
    match b {
        BackReference::Index(i) => seq!['^'] + decimal_chars(i as nat),
        BackReference::Name(n) => n@,
    }
}

/// The ANRE text of an expression.
pub open spec fn expression_text(e: Expression) -> Seq<char>
    decreases e,
{
    match e {
        Expression::Literal(l) => literal_text(l),
        Expression::BackReference(b) => backreference_text(b),
        Expression::Group(es) => seq!['('] + expressions_text(es@) + seq![')'],
        Expression::FunctionCall(f) => function_call_text(*f),
        Expression::Or(left, right) => (if *left is Or {
            seq!['('] + expression_text(*left) + seq![')']
        } else {
            expression_text(*left)
        }) + seq![' ', '|', '|', ' '] + (if *right is Or {
            seq!['('] + expression_text(*right) + seq![')']
        } else {
            expression_text(*right)
        }),
    }
}

/// The texts of expressions, separated by `, `.
pub open spec fn expressions_text(es: Seq<Expression>) -> Seq<char>
    decreases es,
{
    if es.len() == 0 {
        seq![]
    } else if es.len() == 1 {
        expression_text(es[0])
    } else {
        expressions_text(es.drop_last()) + seq![',', ' '] + expression_text(es.last())
    }
}

pub open spec fn function_call_text(f: FunctionCall) -> Seq<char>
    decreases f,
{
    function_name_text(f.name) + seq!['('] + args_text(f.args@) + seq![')']
}

pub open spec fn args_text(args: Seq<FunctionCallArg>) -> Seq<char>
    decreases args,
{
    if args.len() == 0 {
        seq![]
    } else if args.len() == 1 {
        arg_text(args[0])
    } else {
        args_text(args.drop_last()) + seq![',', ' '] + arg_text(args.last())
    }
}

pub open spec fn arg_text(a: FunctionCallArg) -> Seq<char>
    decreases a,
{
    match a {
        FunctionCallArg::Number(n) => decimal_chars(n as nat),
        FunctionCallArg::Identifier(s) => s@,
        FunctionCallArg::Expression(e) => expression_text(e),
    }
}

proof fn lemma_take_last<T>(s: Seq<T>, i: int)
    requires
        0 <= i < s.len(),
    ensures
        s.take(i + 1).drop_last() == s.take(i),
        s.take(i + 1).last() == s[i],
        s.take(i + 1).len() == i + 1,
{
    assert(s.take(i + 1).drop_last() =~= s.take(i));
}

pub(crate) fn write_escaped_char(c: char, out: &mut String)
    ensures
        final(out)@ == old(out)@ + escape_char_text(c),
{
    if c == '\n' {
        push_char(out, '\\');
        push_char(out, 'n');
    } else if c == '\r' {
        push_char(out, '\\');
        push_char(out, 'r');
    } else if c == '\t' {
        push_char(out, '\\');
        push_char(out, 't');
    } else if c == '\\' {
        push_char(out, '\\');
        push_char(out, '\\');
    } else if c == '\'' {
        push_char(out, '\\');
        push_char(out, '\'');
    } else if c == '"' {
        push_char(out, '\\');
        push_char(out, '"');
    } else {
        push_char(out, c);
    }
    proof {
        assert(final(out)@ =~= old(out)@ + escape_char_text(c));
    }
}

fn write_escaped_string(s: &String, out: &mut String)
    ensures
        final(out)@ == old(out)@ + escape_string_text(s@),
{
    let cs = crate::text::chars_of(s.as_str());
    let ghost out0 = out@;
    let mut i: usize = 0;
    while i < cs.len()
        invariant
            0 <= i <= cs.len(),
            cs@ == s@,
            out@ == out0 + escape_string_text(cs@.take(i as int)),
        decreases cs.len() - i,
    {
        proof {
            lemma_take_last(cs@, i as int);
        }
        write_escaped_char(cs[i], out);
        i = i + 1;
        proof {
            assert(out@ =~= out0 + escape_string_text(cs@.take(i as int)));
        }
    }
    assert(cs@.take(cs.len() as int) =~= cs@);
}

fn write_charset_element(e: &CharSetElement, out: &mut String)
    ensures
        final(out)@ == old(out)@ + charset_element_text(*e),
    decreases e,
{
    match e {
        CharSetElement::Char(c) => {
            push_char(out, '\'');
            push_char(out, *c);
            push_char(out, '\'');
        },
        CharSetElement::CharRange(r) => {
            push_char(out, '\'');
            push_char(out, r.start);
            push_str(out, "'..'");
            push_char(out, r.end_inclusive);
            push_char(out, '\'');
            proof {
                reveal_strlit("'..'");
            }
        },
        CharSetElement::PresetCharSet(p) => {
            push_str(out, preset_charset_str(*p));
        },
        CharSetElement::CharSet(c) => {
            write_charset(c, out);
        },
    }
    proof {
        assert(final(out)@ =~= old(out)@ + charset_element_text(*e));
    }
}

fn write_charset(c: &CharSet, out: &mut String)
    ensures
        final(out)@ == old(out)@ + charset_text(*c),
    decreases c,
{
    let ghost out0 = out@;
    if c.negative {
        push_char(out, '!');
    }
    push_char(out, '[');
    let ghost out1 = out@;
    let mut i: usize = 0;
    while i < c.elements.len()
        invariant
            0 <= i <= c.elements.len(),
            out@ == out1 + charset_elements_text(c.elements@.take(i as int)),
        decreases c.elements.len() - i,
    {
        proof {
            lemma_take_last(c.elements@, i as int);
        }
        if i > 0 {
            push_char(out, ',');
            push_char(out, ' ');
        }
        write_charset_element(&c.elements[i], out);
        i = i + 1;
        proof {
            assert(out@ =~= out1 + charset_elements_text(c.elements@.take(i as int)));
        }
    }
    push_char(out, ']');
    proof {
        assert(c.elements@.take(c.elements.len() as int) =~= c.elements@);
        assert(out@ =~= out0 + charset_text(*c));
    }
}

fn write_literal(l: &Literal, out: &mut String)
    ensures
        final(out)@ == old(out)@ + literal_text(*l),
{
    match l {
        Literal::AnyChar => {
            push_str(out, "char_any");
        },
        Literal::Char(c) => {
            push_char(out, '\'');
            write_escaped_char(*c, out);
            push_char(out, '\'');
        },
        Literal::String(s) => {
            push_char(out, '"');
            write_escaped_string(s, out);
            push_char(out, '"');
        },
        Literal::CharSet(c) => {
            write_charset(c, out);
        },
        Literal::PresetCharSet(p) => {
            push_str(out, preset_charset_str(*p));
        },
    }
    proof {
        assert(final(out)@ =~= old(out)@ + literal_text(*l));
    }
}

fn write_expression(e: &Expression, out: &mut String)
    ensures
        final(out)@ == old(out)@ + expression_text(*e),
    decreases e,
{
    let ghost out0 = out@;
    match e {
        Expression::Literal(l) => {
            write_literal(l, out);
        },
        Expression::BackReference(b) => {
            match b {
                BackReference::Index(i) => {
                    push_char(out, '^');
                    push_decimal(out, *i);
                },
                BackReference::Name(n) => {
                    push_str(out, n.as_str());
                },
            }
        },
        Expression::Group(es) => {
            push_char(out, '(');
            write_expressions(es, out);
            push_char(out, ')');
        },
        Expression::FunctionCall(f) => {
            write_function_call(f, out);
        },
        Expression::Or(left, right) => {
            let left_is_or = match &**left {
                Expression::Or(_, _) => true,
                _ => false,
            };
            if left_is_or {
                push_char(out, '(');
            }
            write_expression(left, out);
            if left_is_or {
                push_char(out, ')');
            }
            push_str(out, " || ");
            let right_is_or = match &**right {
                Expression::Or(_, _) => true,
                _ => false,
            };
            if right_is_or {
                push_char(out, '(');
            }
            write_expression(right, out);
            if right_is_or {
                push_char(out, ')');
            }
            proof {
                reveal_strlit(" || ");
            }
        },
    }
    proof {
        assert(out@ =~= out0 + expression_text(*e));
    }
}

fn write_expressions(es: &Vec<Expression>, out: &mut String)
    ensures
        final(out)@ == old(out)@ + expressions_text(es@),
    decreases es,
{
    let ghost out1 = out@;
    let mut i: usize = 0;
    while i < es.len()
        invariant
            0 <= i <= es.len(),
            out@ == out1 + expressions_text(es@.take(i as int)),
        decreases es.len() - i,
    {
        proof {
            lemma_take_last(es@, i as int);
        }
        if i > 0 {
            push_char(out, ',');
            push_char(out, ' ');
        }
        assert(decreases_to!(es => es@[i as int]));
        write_expression(&es[i], out);
        i = i + 1;
        proof {
            assert(out@ =~= out1 + expressions_text(es@.take(i as int)));
        }
    }
    proof {
        assert(es@.take(es.len() as int) =~= es@);
    }
}

fn write_arg(a: &FunctionCallArg, out: &mut String)
    ensures
        final(out)@ == old(out)@ + arg_text(*a),
    decreases a,
{
    match a {
        FunctionCallArg::Number(n) => {
            push_decimal(out, *n);
        },
        FunctionCallArg::Identifier(s) => {
            push_str(out, s.as_str());
        },
        FunctionCallArg::Expression(e) => {
            write_expression(e, out);
        },
    }
}

fn write_function_call(f: &FunctionCall, out: &mut String)
    ensures
        final(out)@ == old(out)@ + function_call_text(*f),
    decreases f,
{
    let ghost out0 = out@;
    push_str(out, function_name_str(f.name));
    push_char(out, '(');
    let ghost out1 = out@;
    let mut i: usize = 0;
    while i < f.args.len()
        invariant
            0 <= i <= f.args.len(),
            out@ == out1 + args_text(f.args@.take(i as int)),
        decreases f.args.len() - i,
    {
        proof {
            lemma_take_last(f.args@, i as int);
        }
        if i > 0 {
            push_char(out, ',');
            push_char(out, ' ');
        }
        assert(decreases_to!(f => f.args@[i as int]));
        write_arg(&f.args[i], out);
        i = i + 1;
        proof {
            assert(out@ =~= out1 + args_text(f.args@.take(i as int)));
        }
    }
    push_char(out, ')');
    proof {
        assert(f.args@.take(f.args.len() as int) =~= f.args@);
        assert(out@ =~= out0 + function_call_text(*f));
    }
}

impl Expression {
    /// The ANRE text of the expression.
    pub fn to_string(&self) -> (s: String)
        ensures
            s@ == expression_text(*self),
    {
        let mut s = String::new();
        write_expression(self, &mut s);
        s
    }
}

impl Program {
    /// The ANRE text of the program.
    pub fn to_string(&self) -> (s: String)
        ensures
            s@ == expression_text(self.expression),
    {
        self.expression.to_string()
    }
}

} // verus!
