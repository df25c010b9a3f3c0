use vstd::prelude::*;

use crate::ast::{
    charset_view, element_view, elements_view, expression_view, expressions_view, arg_view,
    args_view, lemma_args_view_pointwise, lemma_elements_view_pointwise,
    lemma_expressions_view_pointwise, CharSet, CharSetElement, Expression, FunctionCall,
    FunctionCallArg, FunctionName, Literal, BackReference,
};
use crate::compiler::{
    captures_of, captures_of_call, captures_of_group, charset_compiles, compiles, call_compiles,
    group_compiles, element_compiles, elements_compile, fixed_len, fixed_len_call,
    fixed_len_group, names_contain, number_arg_at, compilation_of,
};
use crate::compiled::{
    charset_items, element_items, elements_items, literal_transition, emit_spec, group_spec,
    call_spec, sub_line_spec, route_of, route_view, routes_alike, lemma_search_alike, with_group,
    with_line, first_named_from, group_named, Emitted, RouteView,
};
use crate::ast::{ExpressionView, Program};
use crate::process::search;
use crate::semantics::leftmost;
use crate::route::Route;

verus! {

// Programs with the same view compile alike: the pattern's names and
// strings count by their characters alone.

proof fn lemma_charset_agree(a: CharSet, b: CharSet)
    requires
        charset_view(a) == charset_view(b),
    ensures
        charset_items(a) == charset_items(b),
        charset_compiles(a) == charset_compiles(b),
        a.negative == b.negative,
    decreases a, 0nat,
{
    lemma_elements_view_pointwise(a.elements@, a.elements@.len() as int);
    lemma_elements_view_pointwise(b.elements@, b.elements@.len() as int);
    let va = elements_view(a.elements@, a.elements@.len() as int);
    let vb = elements_view(b.elements@, b.elements@.len() as int);
    assert(va == vb);
    assert forall|i: int| 0 <= i < a.elements@.len() implies element_view(#[trigger] a.elements@[i])
        == element_view(b.elements@[i]) by {
        assert(va[i] == vb[i]);
    }
    lemma_elements_agree(a.elements@, b.elements@, a.elements@.len() as int);
}

proof fn lemma_elements_agree(a: Seq<CharSetElement>, b: Seq<CharSetElement>, k: int)
    requires
        a.len() == b.len(),
        0 <= k <= a.len(),
        forall|i: int| 0 <= i < a.len() ==> element_view(#[trigger] a[i]) == element_view(b[i]),
    ensures
        elements_items(a, k) == elements_items(b, k),
        elements_compile(a, k) == elements_compile(b, k),
    decreases a, if k > 0 { k as nat } else { 0nat },
{
    if k > 0 {
        lemma_elements_agree(a, b, k - 1);
        assert(element_view(a[k - 1]) == element_view(b[k - 1]));
        lemma_element_agree(a[k - 1], b[k - 1]);
    }
}

proof fn lemma_element_agree(a: CharSetElement, b: CharSetElement)
    requires
        element_view(a) == element_view(b),
    ensures
        element_items(a) == element_items(b),
        element_compiles(a) == element_compiles(b),
    decreases a, 0nat,
{
    match a {
        CharSetElement::CharSet(x) => match b {
            CharSetElement::CharSet(y) => {
                lemma_charset_agree(*x, *y);
            },
            _ => {},
        },
        _ => {},
    }
}

/// Literals with the same view have the same transition.
pub proof fn lemma_literal_agree(a: Literal, b: Literal)
    requires
        crate::ast::literal_view(a) == crate::ast::literal_view(b),
    ensures
        literal_transition(a) == literal_transition(b),
        (a matches Literal::CharSet(x) ==> charset_compiles(x)) == (b matches Literal::CharSet(y)
            ==> charset_compiles(y)),
{
    match a {
        Literal::CharSet(x) => match b {
            Literal::CharSet(y) => {
                lemma_charset_agree(x, y);
            },
            _ => {},
        },
        Literal::String(x) => match b {
            Literal::String(y) => {
                assert(x@.map_values(|c: char| c as u32) =~= y@.map_values(|c: char| c as u32));
            },
            _ => {},
        },
        _ => {},
    }
}


/// A group name, by its characters.
pub open spec fn name_view(o: Option<String>) -> Option<Seq<char>> {
    match o {
        Some(x) => Some(x@),
        None => None,
    }
}

/// The same group names, compared by their characters.
pub open spec fn names_alike(a: Seq<Option<String>>, b: Seq<Option<String>>) -> bool {
    &&& a.len() == b.len()
    &&& forall|k: int| 0 <= k < a.len() ==> name_view(#[trigger] a[k]) == name_view(b[k])
}

/// The same lines, and the same group names by their characters.
pub open spec fn views_alike(x: RouteView, y: RouteView) -> bool {
    x.lines == y.lines && names_alike(x.groups, y.groups)
}

/// Two emitted pieces alike.
pub open spec fn emitted_alike(x: Emitted, y: Emitted) -> bool {
    views_alike(x.route, y.route) && x.counters == y.counters && x.port == y.port
}

proof fn lemma_names_concat(a1: Seq<Option<String>>, b1: Seq<Option<String>>, a2: Seq<Option<String>>, b2: Seq<Option<String>>)
    requires
        names_alike(a1, b1),
        names_alike(a2, b2),
    ensures
        names_alike(a1 + a2, b1 + b2),
{
    assert forall|k: int| 0 <= k < (a1 + a2).len() implies name_view(#[trigger] (a1 + a2)[k]) == name_view((b1 + b2)[k]) by {
        if k < a1.len() {
            assert(name_view(a1[k]) == name_view(b1[k]));
        } else {
            assert(name_view(a2[k - a1.len()]) == name_view(b2[k - b1.len()]));
        }
    }
}

proof fn lemma_names_push(a: Seq<Option<String>>, b: Seq<Option<String>>, x: Option<String>, y: Option<String>)
    requires
        names_alike(a, b),
        name_view(x) == name_view(y),
    ensures
        names_alike(a.push(x), b.push(y)),
{
    assert forall|k: int| 0 <= k < a.push(x).len() implies name_view(#[trigger] a.push(x)[k]) == name_view(b.push(y)[k]) by {
        if k < a.len() {
            assert(name_view(a[k]) == name_view(b[k]));
        }
    }
}

proof fn lemma_first_named_alike(a: Seq<Option<String>>, b: Seq<Option<String>>, n: Seq<char>, i: int)
    requires
        names_alike(a, b),
    ensures
        first_named_from(a, n, i) == first_named_from(b, n, i),
    decreases a.len() - i,
{
    if 0 <= i < a.len() {
        assert(name_view(a[i]) == name_view(b[i]));
        assert(group_named(a[i], n) == group_named(b[i], n));
        lemma_first_named_alike(a, b, n, i + 1);
    }
}

proof fn lemma_contains_alike(a: Seq<Option<String>>, b: Seq<Option<String>>, n: Seq<char>)
    requires
        names_alike(a, b),
    ensures
        names_contain(a, n) == names_contain(b, n),
{
    if names_contain(a, n) {
        let k = choose|k: int| 0 <= k < a.len() && ((#[trigger] a[k]) matches Some(s) && s@ == n);
        assert(name_view(a[k]) == name_view(b[k]));
        assert(b[k] matches Some(s) && s@ == n);
    }
    if names_contain(b, n) {
        let k = choose|k: int| 0 <= k < b.len() && ((#[trigger] b[k]) matches Some(s) && s@ == n);
        assert(name_view(a[k]) == name_view(b[k]));
        assert(a[k] matches Some(s) && s@ == n);
    }
}

/// Expressions with the same view have the same fixed length, open
/// capture groups of the same names, compile alike, and (where they
/// compile) are emitted alike.
#[verifier::rlimit(40)]
proof fn lemma_expression_agree(
    e1: Expression,
    e2: Expression,
    g1: Seq<Option<String>>,
    g2: Seq<Option<String>>,
    rv1: RouteView,
    rv2: RouteView,
    c: usize,
    line: int,
)
    requires
        expression_view(e1) == expression_view(e2),
        names_alike(g1, g2),
        views_alike(rv1, rv2),
    ensures
        fixed_len(e1) == fixed_len(e2),
        names_alike(captures_of(e1), captures_of(e2)),
        compiles(e1, g1) == compiles(e2, g2),
        compiles(e1, g1) ==> emitted_alike(emit_spec(rv1, c, line, e1), emit_spec(rv2, c, line, e2)),
    decreases e1, 0nat,
{
    match e1 {
        Expression::Literal(l1) => {
            let l2 = e2->Literal_0;
            lemma_literal_agree(l1, l2);
            assert(names_alike(captures_of(e1), captures_of(e2)));
        },
        Expression::BackReference(BackReference::Index(_)) => {
            assert(names_alike(captures_of(e1), captures_of(e2)));
        },
        Expression::BackReference(BackReference::Name(n1)) => {
            let n2 = e2->BackReference_0->Name_0;
            assert(n1@ == n2@);
            lemma_contains_alike(g1, g2, n1@);
            lemma_first_named_alike(rv1.groups, rv2.groups, n1@, 0);
            assert(names_alike(captures_of(e1), captures_of(e2)));
        },
        Expression::Group(es1) => {
            let es2 = e2->Group_0;
            lemma_expressions_view_pointwise(es1@, es1@.len() as int);
            lemma_expressions_view_pointwise(es2@, es2@.len() as int);
            let va = expressions_view(es1@, es1@.len() as int);
            let vb = expressions_view(es2@, es2@.len() as int);
            assert(va == vb);
            assert forall|i: int| 0 <= i < es1@.len() implies expression_view(#[trigger] es1@[i])
                == expression_view(es2@[i]) by {
                assert(va[i] == vb[i]);
            }
            lemma_group_agree(es1@, es2@, es1@.len() as int, g1, g2, rv1, rv2, c, line);
        },
        Expression::Or(l1, r1) => {
            let l2 = e2->Or_0;
            let r2 = e2->Or_1;
            assert(decreases_to!(e1 => *l1));
            assert(decreases_to!(e1 => *r1));
            lemma_expression_agree(*l1, *l2, g1, g2, rv1, rv2, c, line);
            let el1 = emit_spec(rv1, c, line, *l1);
            let el2 = emit_spec(rv2, c, line, *l2);
            lemma_names_concat(g1, g2, captures_of(*l1), captures_of(*l2));
            if compiles(*l1, g1) {
                lemma_expression_agree(*r1, *r2, g1 + captures_of(*l1), g2 + captures_of(*l2), el1.route, el2.route, el1.counters, line);
            } else {
                lemma_expression_agree(*r1, *r2, g1 + captures_of(*l1), g2 + captures_of(*l2), rv1, rv2, c, line);
            }
            lemma_names_concat(captures_of(*l1), captures_of(*l2), captures_of(*r1), captures_of(*r2));
        },
        Expression::FunctionCall(call1) => {
            let call2 = e2->FunctionCall_0;
            assert(decreases_to!(e1 => *call1));
            lemma_call_agree(*call1, *call2, g1, g2, rv1, rv2, c, line);
        },
    }
}

#[verifier::rlimit(40)]
proof fn lemma_group_agree(
    es1: Seq<Expression>,
    es2: Seq<Expression>,
    k: int,
    g1: Seq<Option<String>>,
    g2: Seq<Option<String>>,
    rv1: RouteView,
    rv2: RouteView,
    c: usize,
    line: int,
)
    requires
        es1.len() == es2.len(),
        0 <= k <= es1.len(),
        forall|i: int| 0 <= i < es1.len() ==> expression_view(#[trigger] es1[i]) == expression_view(es2[i]),
        names_alike(g1, g2),
        views_alike(rv1, rv2),
    ensures
        fixed_len_group(es1, k) == fixed_len_group(es2, k),
        names_alike(captures_of_group(es1, k), captures_of_group(es2, k)),
        group_compiles(es1, k, g1) == group_compiles(es2, k, g2),
        k >= 1 && group_compiles(es1, k, g1) ==> emitted_alike(
            group_spec(rv1, c, line, es1, k),
            group_spec(rv2, c, line, es2, k),
        ),
    decreases es1, if k > 0 { k as nat } else { 0nat },
{
    if k <= 0 {
        assert(names_alike(captures_of_group(es1, k), captures_of_group(es2, k)));
    } else {
        lemma_group_agree(es1, es2, k - 1, g1, g2, rv1, rv2, c, line);
        let ga = g1 + captures_of_group(es1, k - 1);
        let gb = g2 + captures_of_group(es2, k - 1);
        lemma_names_concat(g1, g2, captures_of_group(es1, k - 1), captures_of_group(es2, k - 1));
        assert(expression_view(es1[k - 1]) == expression_view(es2[k - 1]));
        if k == 1 {
            lemma_expression_agree(es1[0], es2[0], ga, gb, rv1, rv2, c, line);
        } else {
            let p1 = group_spec(rv1, c, line, es1, k - 1);
            let p2 = group_spec(rv2, c, line, es2, k - 1);
            if group_compiles(es1, k - 1, g1) {
                lemma_expression_agree(es1[k - 1], es2[k - 1], ga, gb, p1.route, p2.route, p1.counters, line);
            } else {
                lemma_expression_agree(es1[k - 1], es2[k - 1], ga, gb, rv1, rv2, c, line);
            }
        }
        lemma_names_concat(captures_of_group(es1, k - 1), captures_of_group(es2, k - 1), captures_of(es1[k - 1]), captures_of(es2[k - 1]));
    }
}

#[verifier::rlimit(80)]
proof fn lemma_call_agree(
    c1: FunctionCall,
    c2: FunctionCall,
    g1: Seq<Option<String>>,
    g2: Seq<Option<String>>,
    rv1: RouteView,
    rv2: RouteView,
    cnt: usize,
    line: int,
)
    requires
        expression_view(Expression::FunctionCall(Box::new(c1))) == expression_view(
            Expression::FunctionCall(Box::new(c2)),
        ),
        names_alike(g1, g2),
        views_alike(rv1, rv2),
    ensures
        fixed_len_call(c1) == fixed_len_call(c2),
        names_alike(captures_of_call(c1), captures_of_call(c2)),
        call_compiles(c1, g1) == call_compiles(c2, g2),
        call_compiles(c1, g1) ==> emitted_alike(call_spec(rv1, cnt, line, c1), call_spec(rv2, cnt, line, c2)),
    decreases c1, 0nat,
{
    let a1 = c1.args@;
    let a2 = c2.args@;
    assert(c1.name == c2.name);
    lemma_args_view_pointwise(a1, a1.len() as int);
    lemma_args_view_pointwise(a2, a2.len() as int);
    let va = args_view(a1, a1.len() as int);
    let vb = args_view(a2, a2.len() as int);
    assert(va == vb);
    assert(a1.len() == a2.len());
    assert forall|i: int| 0 <= i < a1.len() implies arg_view(#[trigger] a1[i]) == arg_view(a2[i]) by {
        assert(va[i] == vb[i]);
    }
    if a1.len() > 0 {
        assert(arg_view(a1[0]) == arg_view(a2[0]));
    }
    if a1.len() > 1 {
        assert(arg_view(a1[1]) == arg_view(a2[1]));
    }
    if a1.len() > 2 {
        assert(arg_view(a1[2]) == arg_view(a2[2]));
    }
    assert(number_arg_at(a1, 1) == number_arg_at(a2, 1));
    assert(number_arg_at(a1, 2) == number_arg_at(a2, 2));
    if a1.len() > 0 && a1[0] is Expression {
        assert(decreases_to!(c1 => c1.args@[0]));
        let e1 = a1[0]->Expression_0;
        let e2 = a2[0]->Expression_0;
        assert(expression_view(e1) == expression_view(e2));
        let second = a1.len() > 1 && a1[1] is Expression;
        match c1.name {
            FunctionName::Index => {
                lemma_names_push(g1, g2, None, None);
                lemma_names_push(rv1.groups, rv2.groups, None, None);
                lemma_expression_agree(e1, e2, g1.push(None), g2.push(None), with_group(rv1, None), with_group(rv2, None), cnt, line);
                lemma_names_concat(seq![None], seq![None], captures_of(e1), captures_of(e2));
            },
            FunctionName::Name => {
                if a1.len() > 1 && a1[1] is Identifier {
                    let n1 = Some(a1[1]->Identifier_0);
                    let n2 = Some(a2[1]->Identifier_0);
                    assert(name_view(n1) == name_view(n2));
                    lemma_names_push(g1, g2, n1, n2);
                    lemma_names_push(rv1.groups, rv2.groups, n1, n2);
                    lemma_expression_agree(e1, e2, g1.push(n1), g2.push(n2), with_group(rv1, n1), with_group(rv2, n2), cnt, line);
                    lemma_names_concat(seq![n1], seq![n2], captures_of(e1), captures_of(e2));
                } else {
                    lemma_expression_agree(e1, e2, g1, g2, rv1, rv2, cnt, line);
                    lemma_names_concat(seq![None::<String>], seq![None::<String>], captures_of(e1), captures_of(e2));
                }
            },
            FunctionName::IsBefore | FunctionName::IsNotBefore => {
                lemma_expression_agree(e1, e2, g1, g2, rv1, rv2, cnt, line);
                if second {
                    assert(decreases_to!(c1 => c1.args@[1]));
                    let d1 = a1[1]->Expression_0;
                    let d2 = a2[1]->Expression_0;
                    assert(expression_view(d1) == expression_view(d2));
                    let s1 = emit_spec(rv1, cnt, line, e1);
                    let s2 = emit_spec(rv2, cnt, line, e2);
                    lemma_names_concat(g1, g2, captures_of(e1), captures_of(e2));
                    if compiles(e1, g1) {
                        lemma_expression_agree(d1, d2, g1 + captures_of(e1), g2 + captures_of(e2), with_line(s1.route), with_line(s2.route), s1.counters, s1.route.lines.len() as int);
                    } else {
                        lemma_expression_agree(d1, d2, g1 + captures_of(e1), g2 + captures_of(e2), rv1, rv2, cnt, line);
                    }
                    lemma_names_concat(captures_of(e1), captures_of(e2), captures_of(d1), captures_of(d2));
                }
            },
            FunctionName::IsAfter | FunctionName::IsNotAfter => {
                if second {
                    assert(decreases_to!(c1 => c1.args@[1]));
                    let d1 = a1[1]->Expression_0;
                    let d2 = a2[1]->Expression_0;
                    assert(expression_view(d1) == expression_view(d2));
                    lemma_expression_agree(d1, d2, g1, g2, with_line(rv1), with_line(rv2), cnt, rv1.lines.len() as int);
                    let sub1 = sub_line_spec(rv1, cnt, d1, true);
                    let sub2 = sub_line_spec(rv2, cnt, d2, true);
                    lemma_names_concat(g1, g2, captures_of(d1), captures_of(d2));
                    if compiles(d1, g1) {
                        lemma_expression_agree(e1, e2, g1 + captures_of(d1), g2 + captures_of(d2), sub1.0, sub2.0, sub1.1, line);
                    } else {
                        lemma_expression_agree(e1, e2, g1 + captures_of(d1), g2 + captures_of(d2), rv1, rv2, cnt, line);
                    }
                    lemma_names_concat(captures_of(d1), captures_of(d2), captures_of(e1), captures_of(e2));
                } else {
                    lemma_expression_agree(e1, e2, g1, g2, rv1, rv2, cnt, line);
                }
            },
            _ => {
                lemma_expression_agree(e1, e2, g1, g2, rv1, rv2, cnt, line);
            },
        }
    } else {
        if a1.len() > 1 && a1[1] is Expression {
            assert(decreases_to!(c1 => c1.args@[1]));
            let d1 = a1[1]->Expression_0;
            let d2 = a2[1]->Expression_0;
            assert(expression_view(d1) == expression_view(d2));
            lemma_expression_agree(d1, d2, g1, g2, rv1, rv2, cnt, line);
            lemma_names_concat(seq![], seq![], captures_of(d1), captures_of(d2));
            lemma_names_concat(captures_of(d1), captures_of(d2), seq![], seq![]);
            assert(seq![] + captures_of(d1) =~= captures_of(d1));
            assert(captures_of(d1) + seq![] =~= captures_of(d1));
            assert(seq![] + captures_of(d2) =~= captures_of(d2));
            assert(captures_of(d2) + seq![] =~= captures_of(d2));
        }
        assert(names_alike(captures_of_call(c1), captures_of_call(c2)));
    }
}

/// Patterns that parse to the same program (whichever notation each is
/// written in) compile alike: both compile or neither does, and where they
/// do, their routes find the same leftmost match, with the same captures,
/// from every position of every text.
pub proof fn same_program_same_matches(
    v: ExpressionView,
    ok1: bool,
    r1: Route,
    ok2: bool,
    r2: Route,
    text: Seq<char>,
    from: int,
)
    requires
        compilation_of(v, ok1, r1),
        compilation_of(v, ok2, r2),
    ensures
        ok1 == ok2,
        ok1 ==> search(r1, text, from) == search(r2, text, from),
        ok1 ==> leftmost(r1, text, from) == leftmost(r2, text, from),
{
    let p1 = choose|p: Program|
        #![trigger p@]
        p@ == v && (ok1 <==> compiles(p.expression, seq![None::<String>])) && (ok1 ==> crate::compiler::group_names(
            r1,
        ) == seq![None::<String>] + captures_of(p.expression)) && (ok1 ==> route_view(r1)
            == route_of(p.expression));
    let p2 = choose|p: Program|
        #![trigger p@]
        p@ == v && (ok2 <==> compiles(p.expression, seq![None::<String>])) && (ok2 ==> crate::compiler::group_names(
            r2,
        ) == seq![None::<String>] + captures_of(p.expression)) && (ok2 ==> route_view(r2)
            == route_of(p.expression));
    let rv0 = with_group(with_line(RouteView { lines: seq![], groups: seq![] }), None);
    lemma_names_push(seq![], seq![], None, None);
    assert(seq![None::<String>] =~= Seq::<Option<String>>::empty().push(None));
    assert(names_alike(rv0.groups, rv0.groups));
    lemma_expression_agree(p1.expression, p2.expression, seq![None], seq![None], rv0, rv0, 0, 0);
    if ok1 {
        let a = route_view(r1);
        let b = route_view(r2);
        assert(a.lines == b.lines);
        assert(a.groups.len() == b.groups.len());
        assert(a.groups.len() == r1.capture_groups@.len());
        assert(b.groups.len() == r2.capture_groups@.len());
        assert(routes_alike(r1, r2));
        lemma_search_alike(r1, r2, text, from);
    }
}

} // verus!
