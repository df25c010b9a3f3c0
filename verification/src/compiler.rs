use vstd::prelude::*;

use crate::anre::printer::{function_name_str, preset_charset_str};
use crate::ast::{
    BackReference, CharSet, CharSetElement, Expression, FunctionCall, FunctionCallArg, FunctionName,
    Literal, PresetCharSetName, Program,
};
use crate::anre::parser::anre_program;
use crate::ast::ExpressionView;
use crate::compiled::{
    route_view, line_view, node_view, transition_view, with_node, with_item, with_line, with_group,
    with_ends, ItemView, Emitted, single, jump, literal_transition, charset_items, elements_items,
    element_items, emit_spec, group_spec, call_spec, optional_around, zero_or_more_around,
    one_or_more_around, repetition_around, capture_around, sub_line_spec, lookahead_around,
    lookbehind_around, main_around, route_of, RouteView, LineView, first_group_named, group_named, lemma_first_named, preset_items,
};
use crate::error::AnreError;
use crate::traditional::parser::regex_program;
use crate::route::{CaptureGroup, Line, Route, TransitionItem};
use crate::text::{message_with_text, push_decimal, push_str, string_from_str};
use crate::transition::{
    add_char, add_preset_digit, add_preset_space, add_preset_word, add_range,
    AnyCharTransition, BackReferenceTransition, CaptureEndTransition, CaptureStartTransition,
    CharSetItem, CharSetTransition, CharTransition, CounterIncrementTransition,
    CounterResetTransition, JumpTransition, LineBoundaryAssertionTransition,
    LookAheadAssertionTransition, LookBehindAssertionTransition, RepetitionBackTransition,
    RepetitionForwardTransition, RepetitionType, StringTransition, Transition,
    WordBoundaryAssertionTransition,
};

verus! {

/// The indices that a transition item holds point into the route: its
/// target into the nodes of its line, its capture group into the capture
/// groups, its look-around line into the lines.
pub open spec fn item_wf(item: TransitionItem, nodes: nat, groups: nat, lines: nat) -> bool {
    &&& item.target_node_index < nodes
    &&& match item.transition {
        Transition::BackReference(t) => t.capture_group_index < groups,
        Transition::CaptureStart(t) => t.capture_group_index < groups,
        Transition::CaptureEnd(t) => t.capture_group_index < groups,
        Transition::LookAheadAssertion(t) => t.route_index < lines,
        Transition::LookBehindAssertion(t) => t.route_index < lines,
        _ => true,
    }
}

/// Every transition item of the line is well formed.
pub open spec fn line_items_wf(line: Line, groups: nat, lines: nat) -> bool {
    forall|i: int, k: int|
        0 <= i < line.nodes@.len() && 0 <= k < line.nodes@[i].transition_items@.len() ==> item_wf(
            #[trigger] line.nodes@[i].transition_items@[k],
            line.nodes@.len(),
            groups,
            lines,
        )
}

/// The start node and the end node of the line are nodes of it.
pub open spec fn line_finished(line: Line) -> bool {
    &&& line.start_node_index < line.nodes@.len()
    &&& line.end_node_index < line.nodes@.len()
}

/// Every transition item of the route is well formed.
pub open spec fn items_wf(route: Route) -> bool {
    forall|j: int|
        0 <= j < route.lines@.len() ==> line_items_wf(
            #[trigger] route.lines@[j],
            route.capture_groups@.len(),
            route.lines@.len(),
        )
}

/// A route that the matching machine can run: it has a main line and the
/// capture group of the whole match, every line has its start and end
/// nodes, and every index in it points into the route.
pub open spec fn route_wf(route: Route) -> bool {
    &&& route.lines@.len() >= 1
    &&& route.capture_groups@.len() >= 1
    &&& route.capture_groups@[0].name is None
    &&& items_wf(route)
    &&& forall|j: int| 0 <= j < route.lines@.len() ==> line_finished(#[trigger] route.lines@[j])
    &&& main_line_shaped(route)
}

/// The transition neither starts nor ends capture group 0, the group of the
/// whole match.
pub open spec fn zero_free(t: Transition) -> bool {
    match t {
        Transition::CaptureStart(c) => c.capture_group_index != 0,
        Transition::CaptureEnd(c) => c.capture_group_index != 0,
        _ => true,
    }
}

/// No transition of the line starts or ends capture group 0.
pub open spec fn line_zero_free(line: Line) -> bool {
    forall|i: int, k: int|
        0 <= i < line.nodes@.len() && 0 <= k < line.nodes@[i].transition_items@.len() ==> zero_free(
            (#[trigger] line.nodes@[i].transition_items@[k]).transition,
        )
}

/// No transition of the route starts or ends capture group 0.
pub open spec fn items_zero_free(route: Route) -> bool {
    forall|j: int| 0 <= j < route.lines@.len() ==> line_zero_free(#[trigger] route.lines@[j])
}

/// The transition that starts capture group 0.
pub open spec fn capture_start_zero() -> Transition {
    Transition::CaptureStart(CaptureStartTransition { capture_group_index: 0 })
}

/// The transition that ends capture group 0.
pub open spec fn capture_end_zero() -> Transition {
    Transition::CaptureEnd(CaptureEndTransition { capture_group_index: 0 })
}

/// The main line captures the whole match as capture group 0: the only
/// transition from its start node starts group 0 and no transition leads
/// back to that node; exactly the transitions that end group 0 lead to the
/// end node, which has no transitions; no other transition starts or ends
/// group 0, in the main line or in any other.
pub open spec fn main_line_shaped(route: Route) -> bool {
    let l = route.lines@[0];
    let s = l.start_node_index as int;
    let e = l.end_node_index as int;
    &&& s != e
    &&& l.nodes@[s].transition_items@.len() == 1
    &&& l.nodes@[s].transition_items@[0].transition == capture_start_zero()
    &&& l.nodes@[e].transition_items@.len() == 0
    &&& forall|i: int, k: int|
        0 <= i < l.nodes@.len() && 0 <= k < l.nodes@[i].transition_items@.len() ==> {
            let item = #[trigger] l.nodes@[i].transition_items@[k];
            &&& item.target_node_index != s
            &&& (item.target_node_index == e <==> item.transition == capture_end_zero())
            &&& (zero_free(item.transition) || item.transition == capture_end_zero() || i == s)
        }
    &&& forall|j: int| 1 <= j < route.lines@.len() ==> line_zero_free(#[trigger] route.lines@[j])
}

/// `b` is `a` with more nodes, transitions, lines or capture groups; the
/// lines added are finished, and the old lines keep their start and end.
pub open spec fn grows(a: Route, b: Route) -> bool {
    &&& a.lines@.len() <= b.lines@.len()
    &&& a.capture_groups@.len() <= b.capture_groups@.len()
    &&& forall|k: int| 0 <= k < a.capture_groups@.len() ==> b.capture_groups@[k] == a.capture_groups@[k]
    &&& forall|j: int|
        0 <= j < a.lines@.len() ==> {
            &&& (#[trigger] b.lines@[j]).nodes@.len() >= a.lines@[j].nodes@.len()
            &&& b.lines@[j].start_node_index == a.lines@[j].start_node_index
            &&& b.lines@[j].end_node_index == a.lines@[j].end_node_index
        }
    &&& forall|j: int| a.lines@.len() <= j < b.lines@.len() ==> line_finished(#[trigger] b.lines@[j])
}

broadcast proof fn lemma_grows_trans(a: Route, b: Route, c: Route)
    requires
        #[trigger] grows(a, b),
        #[trigger] grows(b, c),
    ensures
        grows(a, c),
{
    assert forall|j: int| a.lines@.len() <= j < c.lines@.len() implies line_finished(
        #[trigger] c.lines@[j],
    ) by {
        if j < b.lines@.len() {
            assert(line_finished(b.lines@[j]));
            assert(c.lines@[j].nodes@.len() >= b.lines@[j].nodes@.len());
        }
    }
    assert forall|j: int| 0 <= j < a.lines@.len() implies {
        &&& (#[trigger] c.lines@[j]).nodes@.len() >= a.lines@[j].nodes@.len()
        &&& c.lines@[j].start_node_index == a.lines@[j].start_node_index
        &&& c.lines@[j].end_node_index == a.lines@[j].end_node_index
    } by {
        assert(b.lines@[j].nodes@.len() >= a.lines@[j].nodes@.len());
    }
}

proof fn lemma_item_wf_mono(item: TransitionItem, n1: nat, g1: nat, l1: nat, n2: nat, g2: nat, l2: nat)
    requires
        item_wf(item, n1, g1, l1),
        n1 <= n2,
        g1 <= g2,
        l1 <= l2,
    ensures
        item_wf(item, n2, g2, l2),
{
}

/// The names of the route's capture groups, in order.
pub open spec fn group_names(route: Route) -> Seq<Option<String>> {
    route.capture_groups@.map_values(|g: CaptureGroup| g.name)
}

/// The capture groups that a pattern opens, in the order in which they
/// open, each by its name (`None` for an indexed group): a capture opens
/// its group before those inside it, a look-ahead holds the groups of its
/// expression before those of its condition, a look-behind those of its
/// condition before those of its expression.
pub open spec fn captures_of(e: Expression) -> Seq<Option<String>>
    decreases e, 0nat,
{
    match e {
        Expression::Literal(_) => seq![],
        Expression::BackReference(_) => seq![],
        Expression::Group(es) => captures_of_group(es@, es@.len() as int),
        Expression::Or(l, r) => captures_of(*l) + captures_of(*r),
        Expression::FunctionCall(call) => captures_of_call(*call),
    }
}

/// The capture groups that the first `k` expressions open.
pub open spec fn captures_of_group(es: Seq<Expression>, k: int) -> Seq<Option<String>>
    decreases es, if k > 0 { k as nat } else { 0nat },
{
    if k <= 0 || k > es.len() {
        seq![]
    } else {
        captures_of_group(es, k - 1) + captures_of(es[k - 1])
    }
}

/// The capture groups that a function call opens.
pub open spec fn captures_of_call(call: FunctionCall) -> Seq<Option<String>>
    decreases call, 0nat,
{
    let args = call.args@;
    let first = if args.len() > 0 && args[0] is Expression {
        proof {
            assert(decreases_to!(call => call.args@[0]));
        }
        captures_of(args[0]->Expression_0)
    } else {
        seq![]
    };
    let second = if args.len() > 1 && args[1] is Expression {
        proof {
            assert(decreases_to!(call => call.args@[1]));
        }
        captures_of(args[1]->Expression_0)
    } else {
        seq![]
    };
    match call.name {
        FunctionName::IsStart | FunctionName::IsEnd | FunctionName::IsBound
        | FunctionName::IsNotBound => seq![],
        FunctionName::Index => seq![None] + first,
        FunctionName::Name => seq![
            if args.len() > 1 && args[1] is Identifier {
                Some(args[1]->Identifier_0)
            } else {
                None
            },
        ] + first,
        FunctionName::IsBefore | FunctionName::IsNotBefore => first + second,
        FunctionName::IsAfter | FunctionName::IsNotAfter => second + first,
        _ => first,
    }
}

/// A preset character set that may stand inside a character set: a
/// positive one.
pub open spec fn preset_appendable(name: PresetCharSetName) -> bool {
    name is CharWord || name is CharSpace || name is CharDigit
}

/// The character set compiles: every preset set in it is positive and every
/// nested set is positive and compiles.
pub open spec fn charset_compiles(set: CharSet) -> bool
    decreases set, 0nat,
{
    elements_compile(set.elements@, set.elements@.len() as int)
}

/// The first `k` elements of a character set compile.
pub open spec fn elements_compile(els: Seq<CharSetElement>, k: int) -> bool
    decreases els, if k > 0 { k as nat } else { 0nat },
{
    if k <= 0 || k > els.len() {
        true
    } else {
        elements_compile(els, k - 1) && element_compiles(els[k - 1])
    }
}

/// One element of a character set compiles.
pub open spec fn element_compiles(el: CharSetElement) -> bool
    decreases el, 0nat,
{
    match el {
        CharSetElement::PresetCharSet(name) => preset_appendable(name),
        CharSetElement::CharSet(inner) => !inner.negative && charset_compiles(*inner),
        _ => true,
    }
}

/// One of the groups is named `name`.
pub open spec fn names_contain(groups: Seq<Option<String>>, name: Seq<char>) -> bool {
    exists|k: int| 0 <= k < groups.len() && ((#[trigger] groups[k]) matches Some(s) && s@ == name)
}

/// The expression compiles after the capture groups `groups` have opened:
/// a back reference names a group that opened before it, a character set
/// holds only positive sets, every function has the arguments it takes, a
/// repetition range runs from small to large, and the condition of a
/// look-behind has a fixed length.
pub open spec fn compiles(e: Expression, groups: Seq<Option<String>>) -> bool
    decreases e, 0nat,
{
    match e {
        Expression::Literal(Literal::CharSet(set)) => charset_compiles(set),
        Expression::Literal(_) => true,
        Expression::BackReference(BackReference::Index(i)) => i < groups.len(),
        Expression::BackReference(BackReference::Name(n)) => names_contain(groups, n@),
        Expression::Group(es) => group_compiles(es@, es@.len() as int, groups),
        Expression::Or(l, r) => compiles(*l, groups) && compiles(*r, groups + captures_of(*l)),
        Expression::FunctionCall(call) => call_compiles(*call, groups),
    }
}

/// The first `k` expressions compile one after the other.
pub open spec fn group_compiles(es: Seq<Expression>, k: int, groups: Seq<Option<String>>) -> bool
    decreases es, if k > 0 { k as nat } else { 0nat },
{
    if k <= 0 || k > es.len() {
        true
    } else {
        group_compiles(es, k - 1, groups) && compiles(es[k - 1], groups + captures_of_group(es, k - 1))
    }
}

/// The function call compiles.
pub open spec fn call_compiles(call: FunctionCall, groups: Seq<Option<String>>) -> bool
    decreases call, 0nat,
{
    let args = call.args@;
    let n = args.len();
    match call.name {
        FunctionName::IsStart | FunctionName::IsEnd | FunctionName::IsBound
        | FunctionName::IsNotBound => n == 0,
        _ => if n > 0 && args[0] is Expression {
            proof {
                assert(decreases_to!(call => call.args@[0]));
            }
            let e = args[0]->Expression_0;
            match call.name {
                FunctionName::Optional | FunctionName::LazyOptional | FunctionName::ZeroOrMore
                | FunctionName::LazyZeroOrMore | FunctionName::OneOrMore
                | FunctionName::LazyOneOrMore => n == 1 && compiles(e, groups),
                FunctionName::Repeat | FunctionName::LazyRepeat | FunctionName::RepeatFrom
                | FunctionName::LazyRepeatFrom => n == 2 && args[1] is Number && compiles(e, groups),
                FunctionName::RepeatRange | FunctionName::LazyRepeatRange => {
                    &&& n == 3
                    &&& args[1] is Number
                    &&& args[2] is Number
                    &&& args[1]->Number_0 <= args[2]->Number_0
                    &&& compiles(e, groups)
                },
                FunctionName::Index => n == 1 && compiles(e, groups.push(None)),
                FunctionName::Name => n == 2 && args[1] is Identifier && compiles(
                    e,
                    groups.push(Some(args[1]->Identifier_0)),
                ),
                _ => if n == 2 && args[1] is Expression {
                    proof {
                        assert(decreases_to!(call => call.args@[1]));
                    }
                    let c = args[1]->Expression_0;
                    match call.name {
                        FunctionName::IsBefore | FunctionName::IsNotBefore => compiles(e, groups)
                            && compiles(c, groups + captures_of(e)),
                        _ => fixed_len(c) is Some && compiles(c, groups) && compiles(
                            e,
                            groups + captures_of(c),
                        ),
                    }
                } else {
                    false
                },
            }
        } else {
            false
        },
    }
}

/// The entry and the exit node of a compiled piece of a pattern.
pub struct Port {
    pub in_node_index: usize,
    pub out_node_index: usize,
}

/// Compiles patterns into routes.
pub struct Compiler {
    pub route: Route,
    /// The number of repetition counters allocated so far.
    counters: usize,
}

/// The port's nodes are nodes of the line.
pub open spec fn port_in(route: Route, line: int, p: Port) -> bool {
    &&& p.in_node_index < route.lines@[line].nodes@.len()
    &&& p.out_node_index < route.lines@[line].nodes@.len()
}

impl Compiler {
    /// Adds a node to a line.
    fn new_node(&mut self, line: usize) -> (idx: usize)
        requires
            line < old(self).route.lines@.len(),
            items_wf(old(self).route),
            items_zero_free(old(self).route),
        ensures
            final(self).route.capture_groups@ == old(self).route.capture_groups@,
            items_wf(final(self).route),
            items_zero_free(final(self).route),
            grows(old(self).route, final(self).route),
            final(self).route.lines@.len() == old(self).route.lines@.len(),
            idx == old(self).route.lines@[line as int].nodes@.len(),
            final(self).route.lines@[line as int].nodes@.len() == idx + 1,
            forall|j: int|
                0 <= j < old(self).route.lines@.len() && j != line ==> final(self).route.lines@[j]
                    == old(self).route.lines@[j],
            route_view(final(self).route) == with_node(route_view(old(self).route), line as int),
            final(self).counters == old(self).counters,
    {
        let ghost old_route = self.route;
        let idx = self.route.lines[line].new_node();
        proof {
            let l0 = old_route.lines@[line as int];
            let l1 = self.route.lines@[line as int];
            assert(node_view(l1.nodes@[idx as int]) =~= Seq::<ItemView>::empty());
            assert(line_view(l1).nodes =~= line_view(l0).nodes.push(seq![]));
            assert(route_view(self.route).lines =~= with_node(route_view(old_route), line as int).lines);
            assert(route_view(self.route).groups =~= route_view(old_route).groups);
        }
        proof {
            let r = self.route;
            assert forall|j: int| 0 <= j < r.lines@.len() implies line_items_wf(
                #[trigger] r.lines@[j],
                r.capture_groups@.len(),
                r.lines@.len(),
            ) by {
                if j == line {
                    let l0 = old_route.lines@[j];
                    let l1 = r.lines@[j];
                    assert forall|i: int, k: int|
                        0 <= i < l1.nodes@.len() && 0 <= k < l1.nodes@[i].transition_items@.len()
                            implies item_wf(
                        #[trigger] l1.nodes@[i].transition_items@[k],
                        l1.nodes@.len(),
                        r.capture_groups@.len(),
                        r.lines@.len(),
                    ) by {
                        assert(i < l0.nodes@.len());
                        assert(l1.nodes@[i] == l0.nodes@[i]);
                        assert(line_items_wf(l0, old_route.capture_groups@.len(), old_route.lines@.len()));
                        lemma_item_wf_mono(
                            l0.nodes@[i].transition_items@[k],
                            l0.nodes@.len(),
                            old_route.capture_groups@.len(),
                            old_route.lines@.len(),
                            l1.nodes@.len(),
                            r.capture_groups@.len(),
                            r.lines@.len(),
                        );
                    }
                } else {
                    assert(r.lines@[j] == old_route.lines@[j]);
                }
            }
        }
        idx
    }

    /// Adds a transition to a line.
    fn append(&mut self, line: usize, from: usize, to: usize, transition: Transition)
        requires
            line < old(self).route.lines@.len(),
            items_wf(old(self).route),
            items_zero_free(old(self).route),
            zero_free(transition),
            from < old(self).route.lines@[line as int].nodes@.len(),
            item_wf(
                TransitionItem { transition, target_node_index: to },
                old(self).route.lines@[line as int].nodes@.len(),
                old(self).route.capture_groups@.len(),
                old(self).route.lines@.len(),
            ),
        ensures
            final(self).route.capture_groups@ == old(self).route.capture_groups@,
            items_wf(final(self).route),
            items_zero_free(final(self).route),
            grows(old(self).route, final(self).route),
            final(self).route.lines@.len() == old(self).route.lines@.len(),
            final(self).route.lines@[line as int].nodes@.len() == old(self).route.lines@[line as int].nodes@.len(),
            final(self).counters == old(self).counters,
            forall|j: int|
                0 <= j < old(self).route.lines@.len() && j != line ==> final(self).route.lines@[j]
                    == old(self).route.lines@[j],
            forall|i: int|
                0 <= i < old(self).route.lines@[line as int].nodes@.len() && i != from
                    ==> final(self).route.lines@[line as int].nodes@[i] == old(
                    self,
                ).route.lines@[line as int].nodes@[i],
            final(self).route.lines@[line as int].nodes@[from as int].transition_items@ == old(
                self,
            ).route.lines@[line as int].nodes@[from as int].transition_items@.push(
                TransitionItem { transition, target_node_index: to },
            ),
            final(self).route.lines@[line as int].start_node_index == old(self).route.lines@[line as int].start_node_index,
            final(self).route.lines@[line as int].end_node_index == old(self).route.lines@[line as int].end_node_index,
            final(self).route.lines@[line as int].fixed_start == old(self).route.lines@[line as int].fixed_start,
            final(self).route.lines@[line as int].fixed_end == old(self).route.lines@[line as int].fixed_end,
            route_view(final(self).route) == with_item(
                route_view(old(self).route),
                line as int,
                from as int,
                to,
                transition_view(transition),
            ),
    {
        let ghost old_route = self.route;
        let ghost item = TransitionItem { transition, target_node_index: to };
        let ghost tv = transition_view(transition);
        self.route.lines[line].append_transition(from, to, transition);
        proof {
            let l0 = old_route.lines@[line as int];
            let l1 = self.route.lines@[line as int];
            assert(node_view(l1.nodes@[from as int]) =~= node_view(l0.nodes@[from as int]).push(
                ItemView { transition: tv, target: to },
            ));
            assert(line_view(l1).nodes =~= line_view(l0).nodes.update(
                from as int,
                line_view(l0).nodes[from as int].push(ItemView { transition: tv, target: to }),
            ));
            assert(route_view(self.route).lines =~= with_item(route_view(old_route), line as int, from as int, to, tv).lines);
            assert(route_view(self.route).groups =~= route_view(old_route).groups);
        }
        proof {
            let r = self.route;
            assert forall|j: int| 0 <= j < r.lines@.len() implies line_items_wf(
                #[trigger] r.lines@[j],
                r.capture_groups@.len(),
                r.lines@.len(),
            ) by {
                if j == line {
                    let l0 = old_route.lines@[j];
                    let l1 = r.lines@[j];
                    assert forall|i: int, k: int|
                        0 <= i < l1.nodes@.len() && 0 <= k < l1.nodes@[i].transition_items@.len()
                            implies item_wf(
                        #[trigger] l1.nodes@[i].transition_items@[k],
                        l1.nodes@.len(),
                        r.capture_groups@.len(),
                        r.lines@.len(),
                    ) by {
                        assert(line_items_wf(l0, old_route.capture_groups@.len(), old_route.lines@.len()));
                        if i == from && k == l0.nodes@[i].transition_items@.len() {
                            assert(l1.nodes@[i].transition_items@[k] == item);
                        } else {
                            assert(l1.nodes@[i].transition_items@[k] == l0.nodes@[i].transition_items@[k]);
                        }
                    }
                } else {
                    assert(r.lines@[j] == old_route.lines@[j]);
                }
            }
        }
    }
}

/// The route and the counters of the compiler, and the port `p`.
spec fn built(c: Compiler, p: Port) -> Emitted {
    Emitted { route: route_view(c.route), counters: c.counters, port: p }
}

/// `b` is the compiler `a` after emitting a piece of pattern into a line:
/// the route grew and stays well formed, and the port, when the piece
/// compiled, lies in the line.
spec fn emitted(a: Compiler, b: Compiler, line: int, r: Result<Port, AnreError>) -> bool {
    &&& r matches Err(e) ==> e is Message
    &&& items_wf(b.route)
    &&& items_zero_free(b.route)
    &&& r matches Ok(p) ==> grows(a.route, b.route) && port_in(b.route, line, p)
}

broadcast proof fn lemma_port_stays(a: Route, b: Route, line: int, p: Port)
    requires
        #[trigger] grows(a, b),
        0 <= line < a.lines@.len(),
        #[trigger] port_in(a, line, p),
    ensures
        port_in(b, line, p),
{
    assert(b.lines@[line].nodes@.len() >= a.lines@[line].nodes@.len());
}

impl Compiler {
    /// Adds a line without nodes.
    fn add_line(&mut self) -> (idx: usize)
        requires
            items_wf(old(self).route),
            items_zero_free(old(self).route),
        ensures
            items_wf(final(self).route),
            items_zero_free(final(self).route),
            idx == old(self).route.lines@.len(),
            final(self).route.lines@.len() == idx + 1,
            final(self).route.lines@[idx as int].nodes@.len() == 0,
            final(self).route.capture_groups@ == old(self).route.capture_groups@,
            forall|j: int| 0 <= j < idx ==> final(self).route.lines@[j] == old(self).route.lines@[j],
            route_view(final(self).route) == with_line(route_view(old(self).route)),
            final(self).counters == old(self).counters,
    {
        let ghost old_route = self.route;
        let idx = self.route.new_line();
        proof {
            assert(line_view(self.route.lines@[idx as int]).nodes =~= Seq::<Seq<ItemView>>::empty());
            assert(route_view(self.route).lines =~= with_line(route_view(old_route)).lines);
            assert(route_view(self.route).groups =~= route_view(old_route).groups);
        }
        proof {
            let r = self.route;
            assert forall|j: int| 0 <= j < r.lines@.len() implies line_items_wf(
                #[trigger] r.lines@[j],
                r.capture_groups@.len(),
                r.lines@.len(),
            ) by {
                if j < idx {
                    let l = r.lines@[j];
                    assert(l == old_route.lines@[j]);
                    assert(line_items_wf(l, old_route.capture_groups@.len(), old_route.lines@.len()));
                    assert forall|i: int, k: int|
                        0 <= i < l.nodes@.len() && 0 <= k < l.nodes@[i].transition_items@.len()
                            implies item_wf(
                        #[trigger] l.nodes@[i].transition_items@[k],
                        l.nodes@.len(),
                        r.capture_groups@.len(),
                        r.lines@.len(),
                    ) by {
                        lemma_item_wf_mono(
                            l.nodes@[i].transition_items@[k],
                            l.nodes@.len(),
                            old_route.capture_groups@.len(),
                            old_route.lines@.len(),
                            l.nodes@.len(),
                            r.capture_groups@.len(),
                            r.lines@.len(),
                        );
                    }
                }
            }
        }
        idx
    }

    /// Adds a capture group.
    fn add_group(&mut self, name: Option<String>) -> (idx: usize)
        requires
            items_wf(old(self).route),
            items_zero_free(old(self).route),
        ensures
            group_names(final(self).route) == group_names(old(self).route).push(name),
            items_wf(final(self).route),
            items_zero_free(final(self).route),
            grows(old(self).route, final(self).route),
            idx == old(self).route.capture_groups@.len(),
            final(self).route.lines@ == old(self).route.lines@ ==> items_zero_free(final(self).route),
            final(self).route.capture_groups@.len() == idx + 1,
            final(self).route.lines@ == old(self).route.lines@,
            final(self).route.capture_groups@[idx as int].name == name,
            route_view(final(self).route) == with_group(route_view(old(self).route), name),
            final(self).counters == old(self).counters,
    {
        let ghost old_route = self.route;
        let ghost name0 = name;
        let idx = self.route.new_capture_group(name);
        proof {
            assert(route_view(self.route).lines =~= route_view(old_route).lines);
            assert(route_view(self.route).groups =~= route_view(old_route).groups.push(name0));
        }
        proof {
            let r = self.route;
            assert forall|j: int| 0 <= j < r.lines@.len() implies line_items_wf(
                #[trigger] r.lines@[j],
                r.capture_groups@.len(),
                r.lines@.len(),
            ) by {
                let l = r.lines@[j];
                assert(line_items_wf(l, old_route.capture_groups@.len(), old_route.lines@.len()));
                assert forall|i: int, k: int|
                    0 <= i < l.nodes@.len() && 0 <= k < l.nodes@[i].transition_items@.len() implies item_wf(
                    #[trigger] l.nodes@[i].transition_items@[k],
                    l.nodes@.len(),
                    r.capture_groups@.len(),
                    r.lines@.len(),
                ) by {
                    lemma_item_wf_mono(
                        l.nodes@[i].transition_items@[k],
                        l.nodes@.len(),
                        old_route.capture_groups@.len(),
                        old_route.lines@.len(),
                        l.nodes@.len(),
                        r.capture_groups@.len(),
                        r.lines@.len(),
                    );
                }
            }
        }
        idx
    }

    /// Sets the start node and the end node of a line.
    fn finish_line(&mut self, line: usize, start: usize, end: usize, fixed_start: bool, fixed_end: bool)
        requires
            items_wf(old(self).route),
            items_zero_free(old(self).route),
            line < old(self).route.lines@.len(),
            start < old(self).route.lines@[line as int].nodes@.len(),
            end < old(self).route.lines@[line as int].nodes@.len(),
        ensures
            items_wf(final(self).route),
            items_zero_free(final(self).route),
            final(self).route.capture_groups@ == old(self).route.capture_groups@,
            final(self).route.lines@.len() == old(self).route.lines@.len(),
            final(self).route.lines@[line as int].nodes@ == old(self).route.lines@[line as int].nodes@,
            final(self).route.lines@[line as int].start_node_index == start,
            final(self).route.lines@[line as int].end_node_index == end,
            forall|j: int| 0 <= j < old(self).route.lines@.len() && j != line ==> final(self).route.lines@[j]
                == old(self).route.lines@[j],
            route_view(final(self).route) == with_ends(
                route_view(old(self).route),
                line as int,
                start,
                end,
                fixed_start,
                fixed_end,
            ),
            final(self).counters == old(self).counters,
    {
        let ghost old_route = self.route;
        self.route.lines[line].start_node_index = start;
        self.route.lines[line].end_node_index = end;
        self.route.lines[line].fixed_start = fixed_start;
        self.route.lines[line].fixed_end = fixed_end;
        proof {
            let r = self.route;
            assert forall|j: int| 0 <= j < r.lines@.len() implies line_items_wf(
                #[trigger] r.lines@[j],
                r.capture_groups@.len(),
                r.lines@.len(),
            ) by {
                assert(r.lines@[j].nodes@ == old_route.lines@[j].nodes@);
                assert(line_items_wf(old_route.lines@[j], old_route.capture_groups@.len(), old_route.lines@.len()));
            }
            assert(line_view(r.lines@[line as int]).nodes =~= line_view(old_route.lines@[line as int]).nodes);
            assert(route_view(r).lines =~= with_ends(route_view(old_route), line as int, start, end, fixed_start, fixed_end).lines);
            assert(route_view(r).groups =~= route_view(old_route).groups);
        }
    }

    /// Two new nodes joined by one transition.
    fn emit_single(&mut self, line: usize, transition: Transition) -> (r: Result<Port, AnreError>)
        requires
            line < old(self).route.lines@.len(),
            items_wf(old(self).route),
            items_zero_free(old(self).route),
            old(self).route.capture_groups@.len() >= 1,
            zero_free(transition),
            item_wf(
                TransitionItem { transition, target_node_index: 0 },
                1,
                old(self).route.capture_groups@.len(),
                old(self).route.lines@.len(),
            ),
        ensures
            final(self).route.capture_groups@ == old(self).route.capture_groups@,
            emitted(*old(self), *final(self), line as int, r),
            r is Ok,
            final(self).route.lines@.len() == old(self).route.lines@.len(),
            r matches Ok(p) ==> built(*final(self), p) == single(
                route_view(old(self).route),
                old(self).counters,
                line as int,
                transition_view(transition),
            ),
    {
        let ghost r0 = self.route;
        let a = self.new_node(line);
        let ghost r1 = self.route;
        let b = self.new_node(line);
        let ghost r2 = self.route;
        self.append(line, a, b, transition);
        proof {
            lemma_grows_trans(r0, r1, r2);
            lemma_grows_trans(r0, r2, self.route);
        }
        Ok(Port { in_node_index: a, out_node_index: b })
    }
}

/// The expression argument at index `i`, if it is one.
fn expression_arg(args: &Vec<FunctionCallArg>, i: usize) -> (r: Option<&Expression>)
    ensures
        r is Some <==> i < args@.len() && args@[i as int] is Expression,
        r matches Some(e) ==> i < args@.len() && args@[i as int] == FunctionCallArg::Expression(*e),
{
    if i < args.len() {
        match &args[i] {
            FunctionCallArg::Expression(e) => Some(e),
            _ => None,
        }
    } else {
        None
    }
}

/// The number argument at index `i`, if it is one.
fn number_arg(args: &Vec<FunctionCallArg>, i: usize) -> (r: Option<usize>)
    ensures
        r == number_arg_at(args@, i as int),
{
    if i < args.len() {
        match &args[i] {
            FunctionCallArg::Number(n) => Some(*n),
            _ => None,
        }
    } else {
        None
    }
}

/// The name argument at index `i`, if it is one.
fn identifier_arg(args: &Vec<FunctionCallArg>, i: usize) -> (r: Option<&String>)
    ensures
        r is Some <==> i < args@.len() && args@[i as int] is Identifier,
        r matches Some(s) ==> i < args@.len() && args@[i as int] == FunctionCallArg::Identifier(*s),
{
    if i < args.len() {
        match &args[i] {
            FunctionCallArg::Identifier(s) => Some(s),
            _ => None,
        }
    } else {
        None
    }
}

/// The error for arguments that do not fit a function.
fn invalid_arguments(name: FunctionName) -> (e: AnreError)
    ensures
        e is Message,
{
    AnreError::Message(
        message_with_text("Invalid arguments for function \"", function_name_str(name), "\"."),
    )
}

/// Adds the items of a positive preset character set.
fn append_preset(name: PresetCharSetName, items: &mut Vec<CharSetItem>) -> (r: Result<(), AnreError>)
    ensures
        r is Ok <==> preset_appendable(name),
        r matches Err(e) ==> e is Message,
        r is Ok ==> final(items)@ == old(items)@ + preset_items(name),
{
    match name {
        PresetCharSetName::CharWord => {
            add_preset_word(items);
            Ok(())
        },
        PresetCharSetName::CharSpace => {
            add_preset_space(items);
            Ok(())
        },
        PresetCharSetName::CharDigit => {
            add_preset_digit(items);
            Ok(())
        },
        _ => Err(
            AnreError::Message(
                message_with_text(
                    "Can not append negative preset charset \"",
                    preset_charset_str(name),
                    "\" into charset.",
                ),
            ),
        ),
    }
}

/// Once a prefix of the elements fails to compile, the whole set fails.
proof fn lemma_elements_fail_stays(els: Seq<CharSetElement>, k: int)
    requires
        1 <= k <= els.len(),
        !elements_compile(els, k),
    ensures
        !elements_compile(els, els.len() as int),
    decreases els.len() - k,
{
    if k < els.len() {
        lemma_elements_fail_stays(els, k + 1);
    }
}

/// Adds the items of a character set, nested sets included.
fn append_charset(set: &CharSet, items: &mut Vec<CharSetItem>) -> (r: Result<(), AnreError>)
    ensures
        r is Ok <==> charset_compiles(*set),
        r matches Err(e) ==> e is Message,
        r is Ok ==> final(items)@ == old(items)@ + charset_items(*set),
    decreases set,
{
    let ghost els = set.elements@;
    let ghost items0 = items@;
    let mut i: usize = 0;
    assert(items0 + elements_items(els, 0) =~= items0);
    while i < set.elements.len()
        invariant
            i <= set.elements@.len(),
            els == set.elements@,
            elements_compile(els, i as int),
            items@ == items0 + elements_items(els, i as int),
            items0 == old(items)@,
        decreases set.elements.len() - i,
    {
        let ghost before = items@;
        let ghost el = els[i as int];
        match &set.elements[i] {
            CharSetElement::Char(c) => add_char(items, *c),
            CharSetElement::CharRange(r) => add_range(items, r.start, r.end_inclusive),
            CharSetElement::PresetCharSet(name) => {
                match append_preset(*name, items) {
                    Ok(()) => {},
                    Err(e) => {
                        proof {
                            assert(!element_compiles(el));
                            lemma_elements_fail_stays(els, i + 1);
                        }
                        return Err(e);
                    },
                }
            },
            CharSetElement::CharSet(inner) => {
                if inner.negative {
                    proof {
                        assert(!element_compiles(el));
                        lemma_elements_fail_stays(els, i + 1);
                    }
                    return Err(
                        AnreError::Message(string_from_str("Can not append negative charset into charset.")),
                    );
                }
                assert(decreases_to!(set => set.elements@[i as int]));
                match append_charset(inner, items) {
                    Ok(()) => {},
                    Err(e) => {
                        proof {
                            assert(!element_compiles(el));
                            lemma_elements_fail_stays(els, i + 1);
                        }
                        return Err(e);
                    },
                }
            },
        }
        assert(element_compiles(el));
        assert(elements_compile(els, i + 1));
        assert(items@ =~= before + element_items(el));
        assert(items0 + elements_items(els, i + 1) =~= items0 + elements_items(els, i as int) + element_items(el));
        i = i + 1;
    }
    Ok(())
}

broadcast group group_compiler {
    lemma_grows_trans,
    lemma_port_stays,
}

impl Compiler {
    /// A piece that matches the empty string.
    fn emit_empty(&mut self, line: usize) -> (r: Result<Port, AnreError>)
        requires
            line < old(self).route.lines@.len(),
            items_wf(old(self).route),
            items_zero_free(old(self).route),
            old(self).route.capture_groups@.len() >= 1,
        ensures
            final(self).route.capture_groups@ == old(self).route.capture_groups@,
            emitted(*old(self), *final(self), line as int, r),
            r is Ok,
            r matches Ok(p) ==> built(*final(self), p) == single(
                route_view(old(self).route),
                old(self).counters,
                line as int,
                jump(),
            ),
    {
        self.emit_single(line, Transition::Jump(JumpTransition))
    }

    fn emit_literal(&mut self, line: usize, literal: &Literal) -> (r: Result<Port, AnreError>)
        requires
            line < old(self).route.lines@.len(),
            items_wf(old(self).route),
            items_zero_free(old(self).route),
            old(self).route.capture_groups@.len() >= 1,
        ensures
            r is Ok <==> (*literal matches Literal::CharSet(set) ==> charset_compiles(set)),
            final(self).route.capture_groups@ == old(self).route.capture_groups@,
            emitted(*old(self), *final(self), line as int, r),
            r matches Ok(p) ==> built(*final(self), p) == single(
                route_view(old(self).route),
                old(self).counters,
                line as int,
                literal_transition(*literal),
            ),
    {
        let transition = match literal {
            Literal::AnyChar => Transition::AnyChar(AnyCharTransition),
            Literal::Char(c) => Transition::Char(CharTransition::new(*c)),
            Literal::String(s) => {
                let t = StringTransition::new(s.as_str());
                assert(t.codepoints@ =~= s@.map_values(|c: char| c as u32));
                Transition::String(t)
            },
            Literal::CharSet(set) => {
                let mut items: Vec<CharSetItem> = Vec::new();
                match append_charset(set, &mut items) {
                    Ok(()) => {},
                    Err(e) => {
                        return Err(e);
                    },
                }
                Transition::CharSet(CharSetTransition::new(items, set.negative))
            },
            Literal::PresetCharSet(name) => Transition::CharSet(
                match name {
                    PresetCharSetName::CharWord => CharSetTransition::new_preset_charset_word(),
                    PresetCharSetName::CharNotWord => CharSetTransition::new_preset_charset_not_word(),
                    PresetCharSetName::CharDigit => CharSetTransition::new_preset_charset_digit(),
                    PresetCharSetName::CharNotDigit => CharSetTransition::new_preset_charset_not_digit(),
                    PresetCharSetName::CharSpace => CharSetTransition::new_preset_charset_space(),
                    PresetCharSetName::CharNotSpace => CharSetTransition::new_preset_charset_not_space(),
                },
            ),
        };
        self.emit_single(line, transition)
    }

    fn emit_expression(&mut self, line: usize, expression: &Expression) -> (r: Result<Port, AnreError>)
        requires
            line < old(self).route.lines@.len(),
            items_wf(old(self).route),
            items_zero_free(old(self).route),
            old(self).route.capture_groups@.len() >= 1,
        ensures
            r is Ok <==> compiles(*expression, group_names(old(self).route)),
            r is Ok ==> group_names(final(self).route) == group_names(old(self).route) + captures_of(*expression),
            emitted(*old(self), *final(self), line as int, r),
            r matches Ok(p) ==> built(*final(self), p) == emit_spec(
                route_view(old(self).route),
                old(self).counters,
                line as int,
                *expression,
            ),
        decreases expression, 1nat,
    {
        match expression {
            Expression::Literal(literal) => {
                let ghost v0 = route_view(self.route);
                let ghost c0 = self.counters;
                let r = self.emit_literal(line, literal);
                assert(emit_spec(v0, c0, line as int, *expression) == single(
                    v0,
                    c0,
                    line as int,
                    literal_transition(*literal),
                ));
                r
            },
            Expression::BackReference(BackReference::Index(i)) => {
                assert(group_names(self.route).len() == self.route.capture_groups@.len());
                if *i < self.route.capture_groups.len() {
                    self.emit_single(line, Transition::BackReference(BackReferenceTransition::new(*i)))
                } else {
                    let mut m = string_from_str("Cannot find the capture group with index ");
                    push_decimal(&mut m, *i);
                    push_str(&mut m, ".");
                    Err(AnreError::Message(m))
                }
            },
            Expression::BackReference(BackReference::Name(name)) => {
                let ghost g = group_names(self.route);
                match self.route.get_capture_group_index_by_name(name.as_str()) {
                    Some(i) => {
                        assert(g[i as int] == self.route.capture_groups@[i as int].name);
                        proof {
                            let gv = route_view(self.route).groups;
                            assert(gv == g);
                            assert forall|j: int| 0 <= j < gv.len() implies (group_named(#[trigger] gv[j], name@)
                                <==> crate::route::has_name(self.route.capture_groups@[j], name@)) by {
                                assert(gv[j] == self.route.capture_groups@[j].name);
                            }
                            lemma_first_named(gv, name@, 0, i as int);
                        }
                        self.emit_single(
                            line,
                            Transition::BackReference(BackReferenceTransition::new(i)),
                        )
                    },
                    None => {
                        proof {
                            assert forall|k: int| 0 <= k < g.len() implies !((#[trigger] g[k]) matches Some(x)
                                && x@ == name@) by {
                                assert(g[k] == self.route.capture_groups@[k].name);
                                assert(!crate::route::has_name(self.route.capture_groups@[k], name@));
                            }
                        }
                        Err(
                            AnreError::Message(
                                message_with_text("Cannot find the capture group named \"", name.as_str(), "\"."),
                            ),
                        )
                    },
                }
            },
            Expression::Group(expressions) => self.emit_group(line, expressions),
            Expression::FunctionCall(call) => self.emit_function_call(line, call),
            Expression::Or(_, _) => self.emit_logic_or(line, expression),
        }
    }

    /// Once a prefix of a group fails to compile, the whole group fails.
    proof fn lemma_group_fail_stays(es: Seq<Expression>, k: int, groups: Seq<Option<String>>)
        requires
            1 <= k <= es.len(),
            !group_compiles(es, k, groups),
        ensures
            !group_compiles(es, es.len() as int, groups),
        decreases es.len() - k,
    {
        if k < es.len() {
            Self::lemma_group_fail_stays(es, k + 1, groups);
        }
    }

    /// The expressions one after the other.
    fn emit_group(&mut self, line: usize, expressions: &Vec<Expression>) -> (r: Result<Port, AnreError>)
        requires
            line < old(self).route.lines@.len(),
            items_wf(old(self).route),
            items_zero_free(old(self).route),
            old(self).route.capture_groups@.len() >= 1,
        ensures
            r is Ok <==> group_compiles(expressions@, expressions@.len() as int, group_names(old(self).route)),
            r is Ok ==> group_names(final(self).route) == group_names(old(self).route) + captures_of_group(expressions@, expressions@.len() as int),
            emitted(*old(self), *final(self), line as int, r),
            r matches Ok(p) ==> built(*final(self), p) == (if expressions@.len() == 0 {
                single(route_view(old(self).route), old(self).counters, line as int, jump())
            } else {
                group_spec(
                    route_view(old(self).route),
                    old(self).counters,
                    line as int,
                    expressions@,
                    expressions@.len() as int,
                )
            }),
        decreases expressions, 1nat,
    {
        if expressions.len() == 0 {
            let r = self.emit_empty(line);
            assert(group_names(self.route) =~= group_names(old(self).route) + captures_of_group(expressions@, 0));
            return r;
        }
        let ghost r0 = self.route;
        let ghost g0 = group_names(r0);
        let ghost es = expressions@;
        assert(captures_of_group(es, 0) =~= Seq::<Option<String>>::empty());
        assert(g0 + captures_of_group(es, 0) =~= g0);
        assert(decreases_to!(expressions => expressions@[0]));
        let first = match self.emit_expression(line, &expressions[0]) {
            Ok(p) => p,
            Err(e) => {
                proof {
                    Self::lemma_group_fail_stays(es, 1, g0);
                }
                return Err(e);
            },
        };
        let mut last_out = first.out_node_index;
        let mut i: usize = 1;
        assert(group_compiles(es, 0, g0));
        assert(compiles(es[0], g0 + captures_of_group(es, 0)));
        assert(group_compiles(es, 1, g0));
        assert(captures_of_group(expressions@, 0) =~= Seq::<Option<String>>::empty());
        assert(captures_of_group(expressions@, 1) =~= captures_of(expressions@[0]));
        while i < expressions.len()
            invariant
                line < self.route.lines@.len(),
                items_wf(self.route),
                items_zero_free(self.route),
                self.route.capture_groups@.len() >= 1,
                grows(r0, self.route),
                r0 == old(self).route,
                port_in(self.route, line as int, Port { in_node_index: first.in_node_index, out_node_index: last_out }),
                1 <= i <= expressions@.len(),
                group_names(self.route) == group_names(r0) + captures_of_group(expressions@, i as int),
                g0 == group_names(r0),
                es == expressions@,
                group_compiles(es, i as int, g0),
                built(*self, Port { in_node_index: first.in_node_index, out_node_index: last_out })
                    == group_spec(route_view(r0), old(self).counters, line as int, es, i as int),
            decreases expressions.len() - i,
        {
            let ghost r1 = self.route;
            assert(decreases_to!(expressions => expressions@[i as int]));
            let p = match self.emit_expression(line, &expressions[i]) {
                Ok(p) => p,
                Err(e) => {
                    proof {
                        Self::lemma_group_fail_stays(es, i + 1, g0);
                    }
                    return Err(e);
                },
            };
            proof {
                lemma_grows_trans(r0, r1, self.route);
                lemma_port_stays(r1, self.route, line as int, Port { in_node_index: first.in_node_index, out_node_index: last_out });
            }
            let ghost r2 = self.route;
            self.append(line, last_out, p.in_node_index, Transition::Jump(JumpTransition));
            proof {
                lemma_grows_trans(r0, r2, self.route);
            }
            last_out = p.out_node_index;
            assert(group_names(r0) + captures_of_group(expressions@, i + 1) =~= group_names(r0)
                + captures_of_group(expressions@, i as int) + captures_of(expressions@[i as int]));
            i = i + 1;
        }
        Ok(Port { in_node_index: first.in_node_index, out_node_index: last_out })
    }

    /// The left expression, or else the right one.
    fn emit_logic_or(&mut self, line: usize, expression: &Expression) -> (r: Result<Port, AnreError>)
        requires
            *expression is Or,
            line < old(self).route.lines@.len(),
            items_wf(old(self).route),
            items_zero_free(old(self).route),
            old(self).route.capture_groups@.len() >= 1,
        ensures
            r is Ok <==> compiles(*expression, group_names(old(self).route)),
            r is Ok ==> group_names(final(self).route) == group_names(old(self).route) + captures_of(*expression),
            emitted(*old(self), *final(self), line as int, r),
            r matches Ok(p) ==> built(*final(self), p) == emit_spec(
                route_view(old(self).route),
                old(self).counters,
                line as int,
                *expression,
            ),
        decreases expression, 0nat,
    {
        broadcast use group_compiler;
        let (left, right) = match expression {
            Expression::Or(l, r) => (l, r),
            _ => {
                return self.emit_empty(line);
            },
        };
        let pl = match self.emit_expression(line, left) {
            Ok(p) => p,
            Err(e) => {
                return Err(e);
            },
        };
        let pr = match self.emit_expression(line, right) {
            Ok(p) => p,
            Err(e) => {
                return Err(e);
            },
        };
        let a = self.new_node(line);
        let b = self.new_node(line);
        self.append(line, a, pl.in_node_index, Transition::Jump(JumpTransition));
        self.append(line, a, pr.in_node_index, Transition::Jump(JumpTransition));
        self.append(line, pl.out_node_index, b, Transition::Jump(JumpTransition));
        self.append(line, pr.out_node_index, b, Transition::Jump(JumpTransition));
        Ok(Port { in_node_index: a, out_node_index: b })
    }
}

/// `len * n`, where it fits in a `usize`.
pub open spec fn times_fitting(len: nat, n: nat) -> Option<nat> {
    if len * n <= usize::MAX {
        Some(len * n)
    } else {
        None
    }
}

/// The number of characters that every match of the expression has, where
/// the rules below find one and it, and the length of each part, fits in a
/// `usize`: a literal string has its length, any other literal one
/// character, a back reference none; a group has the sum of its parts, a
/// disjunction the length its sides share.
pub open spec fn fixed_len(e: Expression) -> Option<nat>
    decreases e, 0nat,
{
    match e {
        Expression::Literal(Literal::String(s)) => if s@.len() <= usize::MAX {
            Some(s@.len())
        } else {
            None
        },
        Expression::Literal(_) => Some(1),
        Expression::BackReference(_) => None,
        Expression::Group(es) => fixed_len_group(es@, es@.len() as int),
        Expression::Or(l, r) => match (fixed_len(*l), fixed_len(*r)) {
            (Some(x), Some(y)) => if x == y {
                Some(x)
            } else {
                None
            },
            _ => None,
        },
        Expression::FunctionCall(call) => fixed_len_call(*call),
    }
}

/// The summed length of the first `k` expressions, where each has one and
/// every partial sum fits in a `usize`.
pub open spec fn fixed_len_group(es: Seq<Expression>, k: int) -> Option<nat>
    decreases es, if k > 0 { k as nat } else { 0nat },
{
    if k <= 0 || k > es.len() {
        Some(0)
    } else {
        match (fixed_len_group(es, k - 1), fixed_len(es[k - 1])) {
            (Some(t), Some(n)) => if t + n <= usize::MAX {
                Some(t + n)
            } else {
                None
            },
            _ => None,
        }
    }
}

/// The number argument at index `i`, if it is one.
pub open spec fn number_arg_at(args: Seq<FunctionCallArg>, i: int) -> Option<usize> {
    if 0 <= i < args.len() {
        match args[i] {
            FunctionCallArg::Number(n) => Some(n),
            _ => None,
        }
    } else {
        None
    }
}

/// The fixed length of a call: none for an assertion on the position, that
/// of the first argument for a capture or a look-around, that times the
/// count for an exact repetition; none otherwise.
pub open spec fn fixed_len_call(call: FunctionCall) -> Option<nat>
    decreases call, 0nat,
{
    let first = if call.args@.len() > 0 && call.args@[0] is Expression {
        proof {
            assert(decreases_to!(call => call.args@[0]));
        }
        fixed_len(call.args@[0]->Expression_0)
    } else {
        None
    };
    match call.name {
        FunctionName::IsStart | FunctionName::IsEnd | FunctionName::IsBound
        | FunctionName::IsNotBound => Some(0),
        FunctionName::Index | FunctionName::Name | FunctionName::IsBefore
        | FunctionName::IsNotBefore | FunctionName::IsAfter | FunctionName::IsNotAfter => first,
        FunctionName::Repeat | FunctionName::LazyRepeat => match (first, number_arg_at(call.args@, 1)) {
            (Some(len), Some(n)) => times_fitting(len, n as nat),
            _ => None,
        },
        FunctionName::RepeatRange | FunctionName::LazyRepeatRange => match (
            first,
            number_arg_at(call.args@, 1),
            number_arg_at(call.args@, 2),
        ) {
            (Some(len), Some(m), Some(n)) => if m == n {
                times_fitting(len, n as nat)
            } else {
                None
            },
            _ => None,
        },
        _ => None,
    }
}

/// The number of characters that every match of the expression has, if it
/// is the same for all of them.
pub fn fixed_length(expression: &Expression) -> (r: Option<usize>)
    ensures
        r is Some <==> fixed_len(*expression) is Some,
        r matches Some(n) ==> fixed_len(*expression) == Some(n as nat),
    decreases expression, 1nat,
{
    match expression {
        Expression::Literal(Literal::String(s)) => Some(crate::text::chars_of(s.as_str()).len()),
        Expression::Literal(_) => Some(1),
        Expression::BackReference(_) => None,
        Expression::Group(expressions) => fixed_length_of_group(expressions),
        Expression::Or(left, right) => {
            let a = fixed_length(left);
            let b = fixed_length(right);
            match (a, b) {
                (Some(x), Some(y)) => if x == y {
                    Some(x)
                } else {
                    None
                },
                _ => None,
            }
        },
        Expression::FunctionCall(call) => fixed_length_of_call(call),
    }
}

/// The fixed length of expressions one after the other, if they have one.
fn fixed_length_of_group(expressions: &Vec<Expression>) -> (r: Option<usize>)
    ensures
        r is Some <==> fixed_len_group(expressions@, expressions@.len() as int) is Some,
        r matches Some(n) ==> fixed_len_group(expressions@, expressions@.len() as int) == Some(
            n as nat,
        ),
    decreases expressions, 0nat,
{
    let mut total: usize = 0;
    let mut i: usize = 0;
    while i < expressions.len()
        invariant
            i <= expressions@.len(),
            fixed_len_group(expressions@, i as int) == Some(total as nat),
        decreases expressions.len() - i,
    {
        assert(decreases_to!(expressions => expressions@[i as int]));
        match fixed_length(&expressions[i]) {
            Some(n) => {
                if n > usize::MAX - total {
                    proof {
                        lemma_group_none_stays(expressions@, i as int + 1);
                    }
                    return None;
                }
                total = total + n;
            },
            None => {
                proof {
                    lemma_group_none_stays(expressions@, i as int + 1);
                }
                return None;
            },
        }
        i = i + 1;
    }
    Some(total)
}

/// Once a prefix of a group has no fixed length, no longer prefix has one.
proof fn lemma_group_none_stays(es: Seq<Expression>, k: int)
    requires
        1 <= k <= es.len(),
        fixed_len_group(es, k) is None,
    ensures
        fixed_len_group(es, es.len() as int) is None,
    decreases es.len() - k,
{
    if k < es.len() {
        lemma_group_none_stays(es, k + 1);
    }
}

/// The fixed length of a function call, if it has one.
fn fixed_length_of_call(call: &FunctionCall) -> (r: Option<usize>)
    ensures
        r is Some <==> fixed_len_call(*call) is Some,
        r matches Some(n) ==> fixed_len_call(*call) == Some(n as nat),
    decreases call, 0nat,
{
    let first = match expression_arg(&call.args, 0) {
        Some(e) => {
            assert(decreases_to!(call => call.args@[0]));
            assert(decreases_to!(call.args@[0] => call.args@[0]->Expression_0));
            fixed_length(e)
        },
        None => None,
    };
    match call.name {
        FunctionName::IsStart | FunctionName::IsEnd | FunctionName::IsBound
        | FunctionName::IsNotBound => Some(0),
        FunctionName::Index | FunctionName::Name | FunctionName::IsBefore
        | FunctionName::IsNotBefore | FunctionName::IsAfter | FunctionName::IsNotAfter => first,
        FunctionName::Repeat | FunctionName::LazyRepeat => match (first, number_arg(&call.args, 1)) {
            (Some(len), Some(n)) => len.checked_mul(n),
            _ => None,
        },
        FunctionName::RepeatRange | FunctionName::LazyRepeatRange => match (
            first,
            number_arg(&call.args, 1),
            number_arg(&call.args, 2),
        ) {
            (Some(len), Some(m), Some(n)) => if m == n {
                len.checked_mul(n)
            } else {
                None
            },
            _ => None,
        },
        _ => None,
    }
}

impl Compiler {
    fn emit_function_call(&mut self, line: usize, call: &FunctionCall) -> (r: Result<Port, AnreError>)
        requires
            line < old(self).route.lines@.len(),
            items_wf(old(self).route),
            items_zero_free(old(self).route),
            old(self).route.capture_groups@.len() >= 1,
        ensures
            r is Ok <==> call_compiles(*call, group_names(old(self).route)),
            r is Ok ==> group_names(final(self).route) == group_names(old(self).route) + captures_of_call(*call),
            emitted(*old(self), *final(self), line as int, r),
            r matches Ok(p) ==> built(*final(self), p) == call_spec(
                route_view(old(self).route),
                old(self).counters,
                line as int,
                *call,
            ),
        decreases call, 1nat,
    {
        let name = call.name;
        let args = &call.args;
        let n = args.len();
        let lazy = match name {
            FunctionName::LazyOptional | FunctionName::LazyOneOrMore | FunctionName::LazyZeroOrMore
            | FunctionName::LazyRepeat | FunctionName::LazyRepeatRange | FunctionName::LazyRepeatFrom => true,
            _ => false,
        };
        match name {
            FunctionName::IsStart | FunctionName::IsEnd => {
                if n != 0 {
                    return Err(invalid_arguments(name));
                }
                let is_end = match name {
                    FunctionName::IsEnd => true,
                    _ => false,
                };
                self.emit_single(
                    line,
                    Transition::LineBoundaryAssertion(LineBoundaryAssertionTransition::new(is_end)),
                )
            },
            FunctionName::IsBound | FunctionName::IsNotBound => {
                if n != 0 {
                    return Err(invalid_arguments(name));
                }
                let negative = match name {
                    FunctionName::IsNotBound => true,
                    _ => false,
                };
                self.emit_single(
                    line,
                    Transition::WordBoundaryAssertion(WordBoundaryAssertionTransition::new(negative)),
                )
            },
            _ => {
                let e = match expression_arg(args, 0) {
                    Some(e) => e,
                    None => {
                        return Err(invalid_arguments(name));
                    },
                };
                assert(decreases_to!(call => call.args@[0]));
                assert(decreases_to!(call.args@[0] => call.args@[0]->Expression_0));
                match name {
                    FunctionName::Optional | FunctionName::LazyOptional => {
                        if n != 1 {
                            return Err(invalid_arguments(name));
                        }
                        self.emit_optional(line, e, lazy)
                    },
                    FunctionName::ZeroOrMore | FunctionName::LazyZeroOrMore => {
                        if n != 1 {
                            return Err(invalid_arguments(name));
                        }
                        self.emit_zero_or_more(line, e, lazy)
                    },
                    FunctionName::OneOrMore | FunctionName::LazyOneOrMore => {
                        if n != 1 {
                            return Err(invalid_arguments(name));
                        }
                        self.emit_one_or_more(line, e, lazy)
                    },
                    FunctionName::Repeat | FunctionName::LazyRepeat => {
                        match number_arg(args, 1) {
                            Some(times) => {
                                if n != 2 {
                                    return Err(invalid_arguments(name));
                                }
                                self.emit_repetition(line, e, RepetitionType::Repeat(times), lazy)
                            },
                            None => Err(invalid_arguments(name)),
                        }
                    },
                    FunctionName::RepeatFrom | FunctionName::LazyRepeatFrom => {
                        match number_arg(args, 1) {
                            Some(from) => {
                                if n != 2 {
                                    return Err(invalid_arguments(name));
                                }
                                self.emit_repetition(line, e, RepetitionType::RepeatFrom(from), lazy)
                            },
                            None => Err(invalid_arguments(name)),
                        }
                    },
                    FunctionName::RepeatRange | FunctionName::LazyRepeatRange => {
                        match (number_arg(args, 1), number_arg(args, 2)) {
                            (Some(from), Some(to)) => {
                                if n != 3 {
                                    return Err(invalid_arguments(name));
                                }
                                if from > to {
                                    return Err(
                                        AnreError::Message(
                                            string_from_str(
                                                "Repeated range values should be from small to large.",
                                            ),
                                        ),
                                    );
                                }
                                self.emit_repetition(line, e, RepetitionType::RepeatRange(from, to), lazy)
                            },
                            _ => Err(invalid_arguments(name)),
                        }
                    },
                    FunctionName::Index => {
                        if n != 1 {
                            return Err(invalid_arguments(name));
                        }
                        self.emit_capture(line, e, None)
                    },
                    FunctionName::Name => {
                        match identifier_arg(args, 1) {
                            Some(id) => {
                                if n != 2 {
                                    return Err(invalid_arguments(name));
                                }
                                self.emit_capture(line, e, Some(id.clone()))
                            },
                            None => Err(invalid_arguments(name)),
                        }
                    },
                    _ => {
                        // The look-around assertions.
                        let condition = match expression_arg(args, 1) {
                            Some(c) => c,
                            None => {
                                return Err(invalid_arguments(name));
                            },
                        };
                        if n != 2 {
                            return Err(invalid_arguments(name));
                        }
                        assert(decreases_to!(call => call.args@[1]));
                        assert(decreases_to!(call.args@[1] => call.args@[1]->Expression_0));
                        match name {
                            FunctionName::IsBefore => self.emit_lookahead(line, call, e, condition, false),
                            FunctionName::IsNotBefore => self.emit_lookahead(line, call, e, condition, true),
                            FunctionName::IsAfter => self.emit_lookbehind(line, call, e, condition, false),
                            _ => self.emit_lookbehind(line, call, e, condition, true),
                        }
                    },
                }
            },
        }
    }

    /// The expression, or nothing; a greedy option tries the expression first.
    fn emit_optional(&mut self, line: usize, e: &Expression, lazy: bool) -> (r: Result<Port, AnreError>)
        requires
            line < old(self).route.lines@.len(),
            items_wf(old(self).route),
            items_zero_free(old(self).route),
            old(self).route.capture_groups@.len() >= 1,
        ensures
            r is Ok <==> compiles(*e, group_names(old(self).route)),
            r is Ok ==> group_names(final(self).route) == group_names(old(self).route) + captures_of(*e),
            emitted(*old(self), *final(self), line as int, r),
            r matches Ok(p) ==> built(*final(self), p) == optional_around(
                emit_spec(route_view(old(self).route), old(self).counters, line as int, *e),
                line as int,
                lazy,
            ),
        decreases e, 2nat,
    {
        broadcast use group_compiler;
        let p = match self.emit_expression(line, e) {
            Ok(p) => p,
            Err(err) => {
                return Err(err);
            },
        };
        let a = self.new_node(line);
        let b = self.new_node(line);
        if lazy {
            self.append(line, a, b, Transition::Jump(JumpTransition));
            self.append(line, a, p.in_node_index, Transition::Jump(JumpTransition));
        } else {
            self.append(line, a, p.in_node_index, Transition::Jump(JumpTransition));
            self.append(line, a, b, Transition::Jump(JumpTransition));
        }
        self.append(line, p.out_node_index, b, Transition::Jump(JumpTransition));
        Ok(Port { in_node_index: a, out_node_index: b })
    }

    /// The expression any number of times.
    fn emit_zero_or_more(&mut self, line: usize, e: &Expression, lazy: bool) -> (r: Result<Port, AnreError>)
        requires
            line < old(self).route.lines@.len(),
            items_wf(old(self).route),
            items_zero_free(old(self).route),
            old(self).route.capture_groups@.len() >= 1,
        ensures
            r is Ok <==> compiles(*e, group_names(old(self).route)),
            r is Ok ==> group_names(final(self).route) == group_names(old(self).route) + captures_of(*e),
            emitted(*old(self), *final(self), line as int, r),
            r matches Ok(p) ==> built(*final(self), p) == zero_or_more_around(
                emit_spec(route_view(old(self).route), old(self).counters, line as int, *e),
                line as int,
                lazy,
            ),
        decreases e, 2nat,
    {
        broadcast use group_compiler;
        let p = match self.emit_expression(line, e) {
            Ok(p) => p,
            Err(err) => {
                return Err(err);
            },
        };
        let a = self.new_node(line);
        let b = self.new_node(line);
        if lazy {
            self.append(line, a, b, Transition::Jump(JumpTransition));
            self.append(line, a, p.in_node_index, Transition::Jump(JumpTransition));
        } else {
            self.append(line, a, p.in_node_index, Transition::Jump(JumpTransition));
            self.append(line, a, b, Transition::Jump(JumpTransition));
        }
        self.append(line, p.out_node_index, a, Transition::Jump(JumpTransition));
        Ok(Port { in_node_index: a, out_node_index: b })
    }

    /// The expression once or more times.
    fn emit_one_or_more(&mut self, line: usize, e: &Expression, lazy: bool) -> (r: Result<Port, AnreError>)
        requires
            line < old(self).route.lines@.len(),
            items_wf(old(self).route),
            items_zero_free(old(self).route),
            old(self).route.capture_groups@.len() >= 1,
        ensures
            r is Ok <==> compiles(*e, group_names(old(self).route)),
            r is Ok ==> group_names(final(self).route) == group_names(old(self).route) + captures_of(*e),
            emitted(*old(self), *final(self), line as int, r),
            r matches Ok(p) ==> built(*final(self), p) == one_or_more_around(
                emit_spec(route_view(old(self).route), old(self).counters, line as int, *e),
                line as int,
                lazy,
            ),
        decreases e, 2nat,
    {
        broadcast use group_compiler;
        let p = match self.emit_expression(line, e) {
            Ok(p) => p,
            Err(err) => {
                return Err(err);
            },
        };
        let a = self.new_node(line);
        let c = self.new_node(line);
        let b = self.new_node(line);
        self.append(line, a, p.in_node_index, Transition::Jump(JumpTransition));
        self.append(line, p.out_node_index, c, Transition::Jump(JumpTransition));
        if lazy {
            self.append(line, c, b, Transition::Jump(JumpTransition));
            self.append(line, c, p.in_node_index, Transition::Jump(JumpTransition));
        } else {
            self.append(line, c, p.in_node_index, Transition::Jump(JumpTransition));
            self.append(line, c, b, Transition::Jump(JumpTransition));
        }
        Ok(Port { in_node_index: a, out_node_index: b })
    }

    /// The expression a counted number of times: a counter opens, each
    /// repetition counts one, and the repetition type says when the
    /// machine may repeat again and when it may leave.
    fn emit_repetition(&mut self, line: usize, e: &Expression, repetition_type: RepetitionType, lazy: bool) -> (r: Result<Port, AnreError>)
        requires
            line < old(self).route.lines@.len(),
            items_wf(old(self).route),
            items_zero_free(old(self).route),
            old(self).route.capture_groups@.len() >= 1,
        ensures
            r is Ok <==> compiles(*e, group_names(old(self).route)),
            r is Ok ==> group_names(final(self).route) == group_names(old(self).route) + captures_of(*e),
            emitted(*old(self), *final(self), line as int, r),
            r matches Ok(p) ==> built(*final(self), p) == repetition_around(
                emit_spec(route_view(old(self).route), old(self).counters, line as int, *e),
                line as int,
                repetition_type,
                lazy,
            ),
        decreases e, 2nat,
    {
        broadcast use group_compiler;
        let p = match self.emit_expression(line, e) {
            Ok(p) => p,
            Err(err) => {
                return Err(err);
            },
        };
        let counter = self.counters;
        if self.counters < usize::MAX {
            self.counters = self.counters + 1;
        }
        let a = self.new_node(line);
        let head = self.new_node(line);
        let b = self.new_node(line);
        self.append(line, a, head, Transition::CounterReset(CounterResetTransition::new(counter)));
        if lazy {
            self.append(line, head, b, Transition::RepetitionForward(RepetitionForwardTransition::new(repetition_type)));
            self.append(line, head, p.in_node_index, Transition::RepetitionBack(RepetitionBackTransition::new(repetition_type)));
        } else {
            self.append(line, head, p.in_node_index, Transition::RepetitionBack(RepetitionBackTransition::new(repetition_type)));
            self.append(line, head, b, Transition::RepetitionForward(RepetitionForwardTransition::new(repetition_type)));
        }
        self.append(line, p.out_node_index, head, Transition::CounterIncrement(CounterIncrementTransition::new(counter)));
        Ok(Port { in_node_index: a, out_node_index: b })
    }

    /// The expression, captured in a new capture group.
    fn emit_capture(&mut self, line: usize, e: &Expression, name: Option<String>) -> (r: Result<Port, AnreError>)
        requires
            line < old(self).route.lines@.len(),
            items_wf(old(self).route),
            items_zero_free(old(self).route),
            old(self).route.capture_groups@.len() >= 1,
        ensures
            r is Ok <==> compiles(*e, group_names(old(self).route).push(name)),
            r is Ok ==> group_names(final(self).route) == group_names(old(self).route) + seq![name] + captures_of(*e),
            emitted(*old(self), *final(self), line as int, r),
            r matches Ok(p) ==> built(*final(self), p) == capture_around(
                emit_spec(with_group(route_view(old(self).route), name), old(self).counters, line as int, *e),
                line as int,
                old(self).route.capture_groups@.len() as usize,
            ),
        decreases e, 2nat,
    {
        broadcast use group_compiler;
        let group = self.add_group(name);
        let p = match self.emit_expression(line, e) {
            Ok(p) => p,
            Err(err) => {
                return Err(err);
            },
        };
        let a = self.new_node(line);
        let b = self.new_node(line);
        self.append(line, a, p.in_node_index, Transition::CaptureStart(CaptureStartTransition::new(group)));
        self.append(line, p.out_node_index, b, Transition::CaptureEnd(CaptureEndTransition::new(group)));
        Ok(Port { in_node_index: a, out_node_index: b })
    }

    /// The condition compiled into a line of its own.
    fn emit_sub_line(&mut self, condition: &Expression, fixed_end: bool) -> (r: Result<usize, AnreError>)
        requires
            items_wf(old(self).route),
            items_zero_free(old(self).route),
            old(self).route.capture_groups@.len() >= 1,
        ensures
            r matches Err(e) ==> e is Message,
            r is Ok <==> compiles(*condition, group_names(old(self).route)),
            r is Ok ==> group_names(final(self).route) == group_names(old(self).route) + captures_of(*condition),
            items_wf(final(self).route),
            items_zero_free(final(self).route),
            r matches Ok(k) ==> grows(old(self).route, final(self).route) && k < final(self).route.lines@.len(),
            r matches Ok(k) ==> k == old(self).route.lines@.len() && (route_view(final(self).route), final(self).counters)
                == sub_line_spec(route_view(old(self).route), old(self).counters, *condition, fixed_end),
        decreases condition, 2nat,
    {
        let ghost r0 = self.route;
        let sub = self.add_line();
        let ghost r1 = self.route;
        let p = match self.emit_expression(sub, condition) {
            Ok(p) => p,
            Err(err) => {
                return Err(err);
            },
        };
        let ghost r2 = self.route;
        self.finish_line(sub, p.in_node_index, p.out_node_index, true, fixed_end);
        proof {
            let r3 = self.route;
            assert forall|j: int| 0 <= j < r0.lines@.len() implies {
                &&& (#[trigger] r3.lines@[j]).nodes@.len() >= r0.lines@[j].nodes@.len()
                &&& r3.lines@[j].start_node_index == r0.lines@[j].start_node_index
                &&& r3.lines@[j].end_node_index == r0.lines@[j].end_node_index
            } by {
                assert(r1.lines@[j] == r0.lines@[j]);
                assert(r3.lines@[j] == r2.lines@[j]);
            }
            assert forall|j: int| r0.lines@.len() <= j < r3.lines@.len() implies line_finished(
                #[trigger] r3.lines@[j],
            ) by {
                if j != sub {
                    assert(r3.lines@[j] == r2.lines@[j]);
                    assert(line_finished(r2.lines@[j]));
                }
            }
        }
        Ok(sub)
    }

    /// `e` followed by a look-ahead assertion on the condition.
    fn emit_lookahead(&mut self, line: usize, call: &FunctionCall, e: &Expression, condition: &Expression, negative: bool) -> (r: Result<Port, AnreError>)
        requires
            line < old(self).route.lines@.len(),
            items_wf(old(self).route),
            items_zero_free(old(self).route),
            old(self).route.capture_groups@.len() >= 1,
            decreases_to!(*call => *e),
            decreases_to!(*call => *condition),
        ensures
            r is Ok <==> compiles(*e, group_names(old(self).route)) && compiles(*condition, group_names(old(self).route) + captures_of(*e)),
            r is Ok ==> group_names(final(self).route) == group_names(old(self).route) + captures_of(*e) + captures_of(*condition),
            emitted(*old(self), *final(self), line as int, r),
            r matches Ok(p) ==> built(*final(self), p) == lookahead_around(
                emit_spec(route_view(old(self).route), old(self).counters, line as int, *e),
                sub_line_spec(
                    emit_spec(route_view(old(self).route), old(self).counters, line as int, *e).route,
                    emit_spec(route_view(old(self).route), old(self).counters, line as int, *e).counters,
                    *condition,
                    false,
                ),
                line as int,
                negative,
            ),
        decreases call, 0nat,
    {
        broadcast use group_compiler;
        let p = match self.emit_expression(line, e) {
            Ok(p) => p,
            Err(err) => {
                return Err(err);
            },
        };
        let sub = match self.emit_sub_line(condition, false) {
            Ok(k) => k,
            Err(err) => {
                return Err(err);
            },
        };
        let b = self.new_node(line);
        self.append(line, p.out_node_index, b, Transition::LookAheadAssertion(LookAheadAssertionTransition::new(sub, negative)));
        Ok(Port { in_node_index: p.in_node_index, out_node_index: b })
    }

    /// A look-behind assertion on the condition, which must have a fixed
    /// length, followed by `e`.
    fn emit_lookbehind(&mut self, line: usize, call: &FunctionCall, e: &Expression, condition: &Expression, negative: bool) -> (r: Result<Port, AnreError>)
        requires
            line < old(self).route.lines@.len(),
            items_wf(old(self).route),
            items_zero_free(old(self).route),
            old(self).route.capture_groups@.len() >= 1,
            decreases_to!(*call => *e),
            decreases_to!(*call => *condition),
        ensures
            r is Ok <==> fixed_len(*condition) is Some && compiles(*condition, group_names(old(self).route)) && compiles(*e, group_names(old(self).route) + captures_of(*condition)),
            r is Ok ==> group_names(final(self).route) == group_names(old(self).route) + captures_of(*condition) + captures_of(*e),
            emitted(*old(self), *final(self), line as int, r),
            r matches Ok(p) ==> built(*final(self), p) == lookbehind_around(
                old(self).route.lines@.len() as usize,
                emit_spec(
                    sub_line_spec(route_view(old(self).route), old(self).counters, *condition, true).0,
                    sub_line_spec(route_view(old(self).route), old(self).counters, *condition, true).1,
                    line as int,
                    *e,
                ),
                line as int,
                negative,
                fixed_len(*condition)->Some_0 as usize,
            ),
        decreases call, 0nat,
    {
        broadcast use group_compiler;
        let length = match fixed_length(condition) {
            Some(n) => n,
            None => {
                return Err(
                    AnreError::Message(
                        string_from_str("The lookbehind assertion requires a pattern of fixed length."),
                    ),
                );
            },
        };
        let sub = match self.emit_sub_line(condition, true) {
            Ok(k) => k,
            Err(err) => {
                return Err(err);
            },
        };
        let p = match self.emit_expression(line, e) {
            Ok(p) => p,
            Err(err) => {
                return Err(err);
            },
        };
        let a = self.new_node(line);
        self.append(line, a, p.in_node_index, Transition::LookBehindAssertion(LookBehindAssertionTransition::new(sub, negative, length)));
        Ok(Port { in_node_index: a, out_node_index: p.out_node_index })
    }
}

impl Compiler {
    /// Wraps the compiled expression of the main line in capture group 0,
    /// between a new start node and a new end node.
    fn finish_main(&mut self, p: Port)
        requires
            old(self).route.lines@.len() >= 1,
            old(self).route.capture_groups@.len() >= 1,
            old(self).route.capture_groups@[0].name is None,
            items_wf(old(self).route),
            items_zero_free(old(self).route),
            port_in(old(self).route, 0, p),
            forall|j: int| 1 <= j < old(self).route.lines@.len() ==> line_finished(#[trigger] old(self).route.lines@[j]),
        ensures
            final(self).route.capture_groups@ == old(self).route.capture_groups@,
            route_wf(final(self).route),
            route_view(final(self).route) == main_around(route_view(old(self).route), p),
    {
        let ghost r0 = self.route;
        let ghost n0 = self.route.lines@[0].nodes@.len();
        let a = self.route.lines[0].new_node();
        let b = self.route.lines[0].new_node();
        self.route.lines[0].append_transition(a, p.in_node_index, Transition::CaptureStart(CaptureStartTransition::new(0)));
        self.route.lines[0].append_transition(p.out_node_index, b, Transition::CaptureEnd(CaptureEndTransition::new(0)));
        self.route.lines[0].start_node_index = a;
        self.route.lines[0].end_node_index = b;
        proof {
            let r = self.route;
            let l0 = r0.lines@[0];
            let l = r.lines@[0];
            assert(l.nodes@.len() == n0 + 2);
            assert(a == n0 && b == n0 + 1);
            assert forall|i: int| 0 <= i < n0 && i != p.out_node_index implies #[trigger] l.nodes@[i] == l0.nodes@[i] by {}
            assert(l.nodes@[p.out_node_index as int].transition_items@ == l0.nodes@[p.out_node_index as int].transition_items@.push(
                TransitionItem { transition: capture_end_zero(), target_node_index: b },
            ));
            assert(l.nodes@[a as int].transition_items@ == seq![
                TransitionItem { transition: capture_start_zero(), target_node_index: p.in_node_index },
            ]);
            assert(l.nodes@[b as int].transition_items@.len() == 0);
            assert(line_items_wf(l0, r0.capture_groups@.len(), r0.lines@.len()));
            assert(line_zero_free(l0));
            assert forall|i: int, k: int|
                0 <= i < l.nodes@.len() && 0 <= k < l.nodes@[i].transition_items@.len() implies {
                    let item = #[trigger] l.nodes@[i].transition_items@[k];
                    &&& item.target_node_index != a
                    &&& (item.target_node_index == b <==> item.transition == capture_end_zero())
                    &&& (zero_free(item.transition) || item.transition == capture_end_zero() || i == a)
                    &&& item_wf(item, l.nodes@.len(), r.capture_groups@.len(), r.lines@.len())
                } by {
                if i < n0 && k < l0.nodes@[i].transition_items@.len() {
                    assert(l.nodes@[i].transition_items@[k] == l0.nodes@[i].transition_items@[k]);
                    assert(item_wf(l0.nodes@[i].transition_items@[k], n0, r0.capture_groups@.len(), r0.lines@.len()));
                    assert(zero_free(l0.nodes@[i].transition_items@[k].transition));
                }
            }
            assert forall|j: int| 0 <= j < r.lines@.len() implies line_items_wf(
                #[trigger] r.lines@[j],
                r.capture_groups@.len(),
                r.lines@.len(),
            ) by {
                if j != 0 {
                    assert(r.lines@[j] == r0.lines@[j]);
                }
            }
            assert forall|j: int| 0 <= j < r.lines@.len() implies line_finished(#[trigger] r.lines@[j]) by {
                if j != 0 {
                    assert(r.lines@[j] == r0.lines@[j]);
                }
            }
            assert forall|j: int| 1 <= j < r.lines@.len() implies line_zero_free(#[trigger] r.lines@[j]) by {
                assert(r.lines@[j] == r0.lines@[j]);
            }
            let v0 = route_view(r0);
            let expect = main_around(v0, p);
            let cs = ItemView { transition: transition_view(capture_start_zero()), target: p.in_node_index };
            let ce = ItemView { transition: transition_view(capture_end_zero()), target: b };
            assert(node_view(l.nodes@[a as int]) =~= seq![cs]);
            assert(node_view(l.nodes@[b as int]) =~= Seq::<ItemView>::empty());
            assert(node_view(l.nodes@[p.out_node_index as int]) =~= node_view(l0.nodes@[p.out_node_index as int]).push(ce));
            assert(line_view(l).nodes =~= expect.lines[0].nodes);
            assert(route_view(r).lines =~= expect.lines);
            assert(route_view(r).groups =~= expect.groups);
        }
    }
}

/// Compiles a program into a route: line 0 matches the whole expression and
/// captures it as capture group 0.
pub fn compile(program: &Program) -> (r: Result<Route, AnreError>)
    ensures
        r matches Ok(route) ==> route_wf(route),
        r matches Ok(route) ==> group_names(route) == seq![None::<String>] + captures_of(program.expression),
        r is Ok <==> compiles(program.expression, seq![None::<String>]),
        r matches Err(e) ==> e is Message,
        r matches Ok(route) ==> route_view(route) == route_of(program.expression),
{
    broadcast use group_compiler;
    let mut c = Compiler { route: Route::new(), counters: 0 };
    assert(route_view(c.route) == RouteView { lines: seq![], groups: seq![] }) by {
        assert(route_view(c.route).lines =~= Seq::<LineView>::empty());
        assert(route_view(c.route).groups =~= Seq::<Option<String>>::empty());
    }
    let main = c.add_line();
    let group = c.add_group(None);
    let ghost r1 = c.route;
    assert(group_names(r1) =~= seq![None::<String>]);
    let p = match c.emit_expression(main, &program.expression) {
        Ok(p) => p,
        Err(e) => {
            return Err(e);
        },
    };
    proof {
        let r = c.route;
        assert forall|j: int| 1 <= j < r.lines@.len() implies line_finished(#[trigger] r.lines@[j]) by {}
        assert(r.capture_groups@[0] == r1.capture_groups@[0]);
    }
    c.finish_main(p);
    Ok(c.route)
}

/// Compiles a pattern in the ANRE notation.
pub fn compile_from_anre(s: &str) -> (r: Result<Route, AnreError>)
    ensures
        r matches Ok(route) ==> route_wf(route),
        match anre_program(s@) {
            Some(v) => compilation_of(v, r is Ok, r->Ok_0),
            None => r is Err,
        },
{
    match crate::anre::parser::parse_from_str(s) {
        Ok(program) => {
            let r = compile(&program);
            proof {
                assert(program@ == anre_program(s@)->0);
            }
            r
        },
        Err(e) => Err(e),
    }
}

/// What compiling a program whose view is `v` gives: a route exactly when
/// the program compiles (`ok`), which is the route of the program, and
/// whose capture groups are the whole match followed by the program's
/// captures in the order they open.
pub open spec fn compilation_of(v: ExpressionView, ok: bool, route: Route) -> bool {
    exists|p: Program|
        #![trigger p@]
        p@ == v && (ok <==> compiles(p.expression, seq![None::<String>])) && (ok ==> group_names(
            route,
        ) == seq![None::<String>] + captures_of(p.expression)) && (ok ==> route_view(route)
            == route_of(p.expression))
}

/// Compiles a pattern in the traditional notation.
pub fn compile_from_regex(s: &str) -> (r: Result<Route, AnreError>)
    ensures
        r matches Ok(route) ==> route_wf(route),
        match regex_program(s@) {
            Some(v) => compilation_of(v, r is Ok, r->Ok_0),
            None => r is Err,
        },
{
    match crate::traditional::parser::parse_from_str(s) {
        Ok(program) => {
            let r = compile(&program);
            proof {
                assert(program@ == regex_program(s@)->0);
            }
            r
        },
        Err(e) => Err(e),
    }
}

/// Compiles a pattern in the ANRE notation.
pub fn compile_from_str(s: &str) -> (r: Result<Route, AnreError>)
    ensures
        r matches Ok(route) ==> route_wf(route),
        match anre_program(s@) {
            Some(v) => compilation_of(v, r is Ok, r->Ok_0),
            None => r is Err,
        },
{
    compile_from_anre(s)
}

} // verus!
