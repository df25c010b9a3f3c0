use vstd::prelude::*;

use crate::ast::{
    BackReference, CharSet, CharSetElement, Expression, FunctionCall, FunctionName,
    Literal, PresetCharSetName,
};
use crate::compiler::{fixed_len, number_arg_at, Port};
use crate::process::{ends_line, initial_slots, line_start, run, search, step, FrameView, Slots, FUEL};
use crate::route::{CaptureGroup, Line, Node, Route, TransitionItem};
use crate::transition::{
    digit_items, space_items, utf8_len, utf8_len_of, word_items, AnyCharTransition,
    BackReferenceTransition, CaptureEndTransition, CaptureStartTransition, CharSetItem,
    CharTransition, CounterIncrementTransition, CounterResetTransition, JumpTransition,
    LineBoundaryAssertionTransition, LookAheadAssertionTransition, LookBehindAssertionTransition,
    RepetitionBackTransition, RepetitionForwardTransition, RepetitionType, Transition,
    WordBoundaryAssertionTransition,
};

verus! {

// The route that the compiler builds for a pattern, stated as the value
// of a route: each line with its nodes, the transitions that leave each
// node in the order in which the machine tries them, its start and end
// node, and the names of the capture groups.

/// A transition, with the code points of a string and the items of a
/// character set as sequences.
pub enum TransitionView {
    /// Any transition that holds no sequence.
    Plain(Transition),
    /// A string: its code points and its length in bytes.
    String(Seq<u32>, usize),
    /// A character set: its items and whether it is negated.
    CharSet(Seq<CharSetItem>, bool),
}

/// A transition and the node it leads to.
pub struct ItemView {
    pub transition: TransitionView,
    pub target: usize,
}

/// A line: the transitions of each node, its start and end node and its
/// anchoring.
pub struct LineView {
    pub nodes: Seq<Seq<ItemView>>,
    pub start: usize,
    pub end: usize,
    pub fixed_start: bool,
    pub fixed_end: bool,
}

/// A route: its lines and the names of its capture groups.
pub struct RouteView {
    pub lines: Seq<LineView>,
    pub groups: Seq<Option<String>>,
}

pub open spec fn transition_view(t: Transition) -> TransitionView {
    match t {
        Transition::String(s) => TransitionView::String(s.codepoints@, s.byte_length),
        Transition::CharSet(c) => TransitionView::CharSet(c.items@, c.negative),
        _ => TransitionView::Plain(t),
    }
}

pub open spec fn item_view(item: TransitionItem) -> ItemView {
    ItemView { transition: transition_view(item.transition), target: item.target_node_index }
}

pub open spec fn node_view(node: Node) -> Seq<ItemView> {
    node.transition_items@.map_values(|item: TransitionItem| item_view(item))
}

pub open spec fn line_view(line: Line) -> LineView {
    LineView {
        nodes: line.nodes@.map_values(|n: Node| node_view(n)),
        start: line.start_node_index,
        end: line.end_node_index,
        fixed_start: line.fixed_start,
        fixed_end: line.fixed_end,
    }
}

/// The value of a route.
pub open spec fn route_view(route: Route) -> RouteView {
    RouteView {
        lines: route.lines@.map_values(|l: Line| line_view(l)),
        groups: route.capture_groups@.map_values(|g: CaptureGroup| g.name),
    }
}

// The steps by which the compiler builds a route.

/// The number of nodes of a line.
pub open spec fn node_count(rv: RouteView, line: int) -> int {
    rv.lines[line].nodes.len() as int
}

/// A new node, without transitions, at the end of a line.
pub open spec fn with_node(rv: RouteView, line: int) -> RouteView {
    let l = rv.lines[line];
    RouteView { lines: rv.lines.update(line, LineView { nodes: l.nodes.push(seq![]), ..l }), ..rv }
}

/// A transition from node `from` to node `to` of a line, tried after those
/// that leave `from` already (nothing where `from` is no node of the line).
pub open spec fn with_item(rv: RouteView, line: int, from: int, to: usize, t: TransitionView) -> RouteView {
    let l = rv.lines[line];
    if 0 <= from < l.nodes.len() {
        RouteView {
            lines: rv.lines.update(
                line,
                LineView {
                    nodes: l.nodes.update(from, l.nodes[from].push(ItemView { transition: t, target: to })),
                    ..l
                },
            ),
            ..rv
        }
    } else {
        rv
    }
}

/// A new line without nodes.
pub open spec fn with_line(rv: RouteView) -> RouteView {
    RouteView {
        lines: rv.lines.push(
            LineView { nodes: seq![], start: 0, end: 0, fixed_start: false, fixed_end: false },
        ),
        ..rv
    }
}

/// A new capture group.
pub open spec fn with_group(rv: RouteView, name: Option<String>) -> RouteView {
    RouteView { groups: rv.groups.push(name), ..rv }
}

/// A line given its start and end node and its anchoring.
pub open spec fn with_ends(rv: RouteView, line: int, start: usize, end: usize, fixed_start: bool, fixed_end: bool) -> RouteView {
    let l = rv.lines[line];
    RouteView {
        lines: rv.lines.update(
            line,
            LineView { start, end, fixed_start, fixed_end, ..l },
        ),
        ..rv
    }
}

/// What emitting a piece of pattern gives: the route, the number of
/// repetition counters and the entry and exit node of the piece.
pub struct Emitted {
    pub route: RouteView,
    pub counters: usize,
    pub port: Port,
}

pub open spec fn jump() -> TransitionView {
    TransitionView::Plain(Transition::Jump(JumpTransition))
}

/// Two new nodes joined by the transition `t`.
pub open spec fn single(rv: RouteView, counters: usize, line: int, t: TransitionView) -> Emitted {
    let a = node_count(rv, line);
    Emitted {
        route: with_item(with_node(with_node(rv, line), line), line, a, (a + 1) as usize, t),
        counters,
        port: Port { in_node_index: a as usize, out_node_index: (a + 1) as usize },
    }
}

/// The items of a preset character set.
pub open spec fn preset_items(name: PresetCharSetName) -> Seq<CharSetItem> {
    match name {
        PresetCharSetName::CharWord | PresetCharSetName::CharNotWord => word_items(),
        PresetCharSetName::CharSpace | PresetCharSetName::CharNotSpace => space_items(),
        PresetCharSetName::CharDigit | PresetCharSetName::CharNotDigit => digit_items(),
    }
}

/// The items of a character set, nested sets included.
pub open spec fn charset_items(set: CharSet) -> Seq<CharSetItem>
    decreases set, 0nat,
{
    elements_items(set.elements@, set.elements@.len() as int)
}

/// The items of the first `k` elements of a character set.
pub open spec fn elements_items(els: Seq<CharSetElement>, k: int) -> Seq<CharSetItem>
    decreases els, if k > 0 { k as nat } else { 0nat },
{
    if k <= 0 || k > els.len() {
        seq![]
    } else {
        elements_items(els, k - 1) + element_items(els[k - 1])
    }
}

/// The items of one element of a character set.
pub open spec fn element_items(el: CharSetElement) -> Seq<CharSetItem>
    decreases el, 0nat,
{
    match el {
        CharSetElement::Char(c) => seq![CharSetItem::Char(c as u32)],
        CharSetElement::CharRange(r) => seq![
            CharSetItem::Range(
                crate::transition::CharRange { start: r.start as u32, end_inclusive: r.end_inclusive as u32 },
            ),
        ],
        CharSetElement::PresetCharSet(name) => preset_items(name),
        CharSetElement::CharSet(inner) => charset_items(*inner),
    }
}

/// The transition of a literal.
pub open spec fn literal_transition(l: Literal) -> TransitionView {
    match l {
        Literal::AnyChar => TransitionView::Plain(Transition::AnyChar(AnyCharTransition)),
        Literal::Char(c) => TransitionView::Plain(
            Transition::Char(CharTransition { codepoint: c as u32, byte_length: utf8_len(c) as usize }),
        ),
        Literal::String(s) => TransitionView::String(
            s@.map_values(|c: char| c as u32),
            utf8_len_of(s@) as usize,
        ),
        Literal::CharSet(set) => TransitionView::CharSet(charset_items(set), set.negative),
        Literal::PresetCharSet(name) => TransitionView::CharSet(
            preset_items(name),
            name is CharNotWord || name is CharNotSpace || name is CharNotDigit,
        ),
    }
}

/// The index of the first capture group named `name`.
pub open spec fn first_group_named(groups: Seq<Option<String>>, name: Seq<char>) -> usize {
    first_named_from(groups, name, 0) as usize
}

/// The index of the first group at or after `i` named `name`, or the
/// number of groups where there is none.
pub open spec fn first_named_from(groups: Seq<Option<String>>, name: Seq<char>, i: int) -> int
    decreases groups.len() - i,
{
    if i < 0 || i >= groups.len() {
        groups.len() as int
    } else if group_named(groups[i], name) {
        i
    } else {
        first_named_from(groups, name, i + 1)
    }
}

/// The first group named `name` is the first at or after `from`.
pub proof fn lemma_first_named(groups: Seq<Option<String>>, name: Seq<char>, from: int, i: int)
    requires
        0 <= from <= i < groups.len(),
        group_named(groups[i], name),
        forall|j: int| from <= j < i ==> !group_named(#[trigger] groups[j], name),
    ensures
        first_named_from(groups, name, from) == i,
    decreases i - from,
{
    if from < i {
        lemma_first_named(groups, name, from + 1, i);
    }
}

/// The group name is `name`.
pub open spec fn group_named(g: Option<String>, name: Seq<char>) -> bool {
    g matches Some(s) && s@ == name
}

/// The piece of a pattern: `e` emitted into a line.
pub open spec fn emit_spec(rv: RouteView, counters: usize, line: int, e: Expression) -> Emitted
    decreases e, 0nat,
{
    match e {
        Expression::Literal(l) => single(rv, counters, line, literal_transition(l)),
        Expression::BackReference(BackReference::Index(i)) => single(
            rv,
            counters,
            line,
            TransitionView::Plain(
                Transition::BackReference(BackReferenceTransition { capture_group_index: i }),
            ),
        ),
        Expression::BackReference(BackReference::Name(n)) => single(
            rv,
            counters,
            line,
            TransitionView::Plain(
                Transition::BackReference(
                    BackReferenceTransition { capture_group_index: first_group_named(rv.groups, n@) },
                ),
            ),
        ),
        Expression::Group(es) => if es@.len() == 0 {
            single(rv, counters, line, jump())
        } else {
            group_spec(rv, counters, line, es@, es@.len() as int)
        },
        Expression::Or(l, r) => {
            let el = emit_spec(rv, counters, line, *l);
            let er = emit_spec(el.route, el.counters, line, *r);
            or_around(el.port, er, line)
        },
        Expression::FunctionCall(call) => call_spec(rv, counters, line, *call),
    }
}

/// The first `k` expressions of a group, one after the other, joined by
/// jumps.
pub open spec fn group_spec(rv: RouteView, counters: usize, line: int, es: Seq<Expression>, k: int) -> Emitted
    decreases es, if k > 0 { k as nat } else { 0nat },
{
    if k <= 1 || k > es.len() {
        if es.len() > 0 {
            emit_spec(rv, counters, line, es[0])
        } else {
            single(rv, counters, line, jump())
        }
    } else {
        let prev = group_spec(rv, counters, line, es, k - 1);
        let s = emit_spec(prev.route, prev.counters, line, es[k - 1]);
        Emitted {
            route: with_item(s.route, line, prev.port.out_node_index as int, s.port.in_node_index, jump()),
            counters: s.counters,
            port: Port { in_node_index: prev.port.in_node_index, out_node_index: s.port.out_node_index },
        }
    }
}

/// Either of two emitted pieces, the left one tried first.
pub open spec fn or_around(left: Port, right: Emitted, line: int) -> Emitted {
    let rv = right.route;
    let a = node_count(rv, line);
    let r1 = with_node(with_node(rv, line), line);
    let r2 = with_item(r1, line, a, left.in_node_index, jump());
    let r3 = with_item(r2, line, a, right.port.in_node_index, jump());
    let r4 = with_item(r3, line, left.out_node_index as int, (a + 1) as usize, jump());
    let r5 = with_item(r4, line, right.port.out_node_index as int, (a + 1) as usize, jump());
    Emitted {
        route: r5,
        counters: right.counters,
        port: Port { in_node_index: a as usize, out_node_index: (a + 1) as usize },
    }
}

/// An emitted piece, or nothing; the greedy form tries the piece first.
pub open spec fn optional_around(s: Emitted, line: int, lazy: bool) -> Emitted {
    let a = node_count(s.route, line);
    let b = (a + 1) as usize;
    let r1 = with_node(with_node(s.route, line), line);
    let r3 = if lazy {
        with_item(with_item(r1, line, a, b, jump()), line, a, s.port.in_node_index, jump())
    } else {
        with_item(with_item(r1, line, a, s.port.in_node_index, jump()), line, a, b, jump())
    };
    Emitted {
        route: with_item(r3, line, s.port.out_node_index as int, b, jump()),
        counters: s.counters,
        port: Port { in_node_index: a as usize, out_node_index: b },
    }
}

/// An emitted piece any number of times.
pub open spec fn zero_or_more_around(s: Emitted, line: int, lazy: bool) -> Emitted {
    let a = node_count(s.route, line);
    let b = (a + 1) as usize;
    let r1 = with_node(with_node(s.route, line), line);
    let r3 = if lazy {
        with_item(with_item(r1, line, a, b, jump()), line, a, s.port.in_node_index, jump())
    } else {
        with_item(with_item(r1, line, a, s.port.in_node_index, jump()), line, a, b, jump())
    };
    Emitted {
        route: with_item(r3, line, s.port.out_node_index as int, a as usize, jump()),
        counters: s.counters,
        port: Port { in_node_index: a as usize, out_node_index: b },
    }
}

/// An emitted piece once or more times.
pub open spec fn one_or_more_around(s: Emitted, line: int, lazy: bool) -> Emitted {
    let a = node_count(s.route, line);
    let c = a + 1;
    let b = (a + 2) as usize;
    let r1 = with_node(with_node(with_node(s.route, line), line), line);
    let r2 = with_item(r1, line, a, s.port.in_node_index, jump());
    let r3 = with_item(r2, line, s.port.out_node_index as int, c as usize, jump());
    let r5 = if lazy {
        with_item(with_item(r3, line, c, b, jump()), line, c, s.port.in_node_index, jump())
    } else {
        with_item(with_item(r3, line, c, s.port.in_node_index, jump()), line, c, b, jump())
    };
    Emitted { route: r5, counters: s.counters, port: Port { in_node_index: a as usize, out_node_index: b } }
}

/// An emitted piece a counted number of times, with a new counter.
pub open spec fn repetition_around(s: Emitted, line: int, rt: RepetitionType, lazy: bool) -> Emitted {
    let counter = s.counters;
    let next = if s.counters < usize::MAX {
        (s.counters + 1) as usize
    } else {
        s.counters
    };
    let a = node_count(s.route, line);
    let head = a + 1;
    let b = (a + 2) as usize;
    let forward = TransitionView::Plain(
        Transition::RepetitionForward(RepetitionForwardTransition { repetition_type: rt }),
    );
    let back = TransitionView::Plain(
        Transition::RepetitionBack(RepetitionBackTransition { repetition_type: rt }),
    );
    let r1 = with_node(with_node(with_node(s.route, line), line), line);
    let r2 = with_item(
        r1,
        line,
        a,
        head as usize,
        TransitionView::Plain(Transition::CounterReset(CounterResetTransition { counter_index: counter })),
    );
    let r4 = if lazy {
        with_item(with_item(r2, line, head, b, forward), line, head, s.port.in_node_index, back)
    } else {
        with_item(with_item(r2, line, head, s.port.in_node_index, back), line, head, b, forward)
    };
    let r5 = with_item(
        r4,
        line,
        s.port.out_node_index as int,
        head as usize,
        TransitionView::Plain(
            Transition::CounterIncrement(CounterIncrementTransition { counter_index: counter }),
        ),
    );
    Emitted { route: r5, counters: next, port: Port { in_node_index: a as usize, out_node_index: b } }
}

/// An emitted piece captured in capture group `group`.
pub open spec fn capture_around(s: Emitted, line: int, group: usize) -> Emitted {
    let a = node_count(s.route, line);
    let b = (a + 1) as usize;
    let r1 = with_node(with_node(s.route, line), line);
    let r2 = with_item(
        r1,
        line,
        a,
        s.port.in_node_index,
        TransitionView::Plain(Transition::CaptureStart(CaptureStartTransition { capture_group_index: group })),
    );
    let r3 = with_item(
        r2,
        line,
        s.port.out_node_index as int,
        b,
        TransitionView::Plain(Transition::CaptureEnd(CaptureEndTransition { capture_group_index: group })),
    );
    Emitted { route: r3, counters: s.counters, port: Port { in_node_index: a as usize, out_node_index: b } }
}

/// The condition of a look-around compiled into a new line: the emitted
/// piece `s` of that line (number `sub`) made its start and end.
pub open spec fn sub_line_finish(s: Emitted, sub: int, fixed_end: bool) -> RouteView {
    with_ends(s.route, sub, s.port.in_node_index, s.port.out_node_index, true, fixed_end)
}

/// The condition `c` compiled into a new line.
pub open spec fn sub_line_spec(rv: RouteView, counters: usize, c: Expression, fixed_end: bool) -> (RouteView, usize)
    decreases c, 1nat,
{
    let sub = rv.lines.len() as int;
    let s = emit_spec(with_line(rv), counters, sub, c);
    (sub_line_finish(s, sub, fixed_end), s.counters)
}

/// An emitted piece `s` followed by a look-ahead assertion on the line
/// that `sub` added after it.
pub open spec fn lookahead_around(s: Emitted, sub: (RouteView, usize), line: int, negative: bool) -> Emitted {
    let r1 = sub.0;
    let b = node_count(r1, line);
    Emitted {
        route: with_item(
            with_node(r1, line),
            line,
            s.port.out_node_index as int,
            b as usize,
            TransitionView::Plain(
                Transition::LookAheadAssertion(
                    LookAheadAssertionTransition {
                        route_index: s.route.lines.len() as usize,
                        is_negative: negative,
                    },
                ),
            ),
        ),
        counters: sub.1,
        port: Port { in_node_index: s.port.in_node_index, out_node_index: b as usize },
    }
}

/// A look-behind assertion on line `sub`, of condition length `length`,
/// followed by the emitted piece `s`.
pub open spec fn lookbehind_around(sub: usize, s: Emitted, line: int, negative: bool, length: usize) -> Emitted {
    let a = node_count(s.route, line);
    Emitted {
        route: with_item(
            with_node(s.route, line),
            line,
            a,
            s.port.in_node_index,
            TransitionView::Plain(
                Transition::LookBehindAssertion(
                    LookBehindAssertionTransition {
                        route_index: sub,
                        is_negative: negative,
                        match_length_in_char: length,
                    },
                ),
            ),
        ),
        counters: s.counters,
        port: Port { in_node_index: a as usize, out_node_index: s.port.out_node_index },
    }
}

/// A function call.
pub open spec fn call_spec(rv: RouteView, counters: usize, line: int, call: FunctionCall) -> Emitted
    decreases call, 0nat,
{
    let args = call.args@;
    let lazy = call.name is LazyOptional || call.name is LazyOneOrMore || call.name is LazyZeroOrMore
        || call.name is LazyRepeat || call.name is LazyRepeatRange || call.name is LazyRepeatFrom;
    match call.name {
        FunctionName::IsStart | FunctionName::IsEnd => single(
            rv,
            counters,
            line,
            TransitionView::Plain(
                Transition::LineBoundaryAssertion(
                    LineBoundaryAssertionTransition { is_end: call.name is IsEnd },
                ),
            ),
        ),
        FunctionName::IsBound | FunctionName::IsNotBound => single(
            rv,
            counters,
            line,
            TransitionView::Plain(
                Transition::WordBoundaryAssertion(
                    WordBoundaryAssertionTransition { is_negative: call.name is IsNotBound },
                ),
            ),
        ),
        _ => if args.len() > 0 && args[0] is Expression {
            proof {
                assert(decreases_to!(call => call.args@[0]));
            }
            let e = args[0]->Expression_0;
            match call.name {
                FunctionName::Optional | FunctionName::LazyOptional => optional_around(
                    emit_spec(rv, counters, line, e),
                    line,
                    lazy,
                ),
                FunctionName::ZeroOrMore | FunctionName::LazyZeroOrMore => zero_or_more_around(
                    emit_spec(rv, counters, line, e),
                    line,
                    lazy,
                ),
                FunctionName::OneOrMore | FunctionName::LazyOneOrMore => one_or_more_around(
                    emit_spec(rv, counters, line, e),
                    line,
                    lazy,
                ),
                FunctionName::Repeat | FunctionName::LazyRepeat => repetition_around(
                    emit_spec(rv, counters, line, e),
                    line,
                    RepetitionType::Repeat(number_arg_at(args, 1)->Some_0),
                    lazy,
                ),
                FunctionName::RepeatFrom | FunctionName::LazyRepeatFrom => repetition_around(
                    emit_spec(rv, counters, line, e),
                    line,
                    RepetitionType::RepeatFrom(number_arg_at(args, 1)->Some_0),
                    lazy,
                ),
                FunctionName::RepeatRange | FunctionName::LazyRepeatRange => repetition_around(
                    emit_spec(rv, counters, line, e),
                    line,
                    RepetitionType::RepeatRange(
                        number_arg_at(args, 1)->Some_0,
                        number_arg_at(args, 2)->Some_0,
                    ),
                    lazy,
                ),
                FunctionName::Index => capture_around(
                    emit_spec(with_group(rv, None), counters, line, e),
                    line,
                    rv.groups.len() as usize,
                ),
                FunctionName::Name => capture_around(
                    emit_spec(with_group(rv, Some(args[1]->Identifier_0)), counters, line, e),
                    line,
                    rv.groups.len() as usize,
                ),
                _ => if args.len() > 1 && args[1] is Expression {
                    proof {
                        assert(decreases_to!(call => call.args@[1]));
                    }
                    let c = args[1]->Expression_0;
                    let negative = call.name is IsNotBefore || call.name is IsNotAfter;
                    match call.name {
                        FunctionName::IsBefore | FunctionName::IsNotBefore => {
                            let s = emit_spec(rv, counters, line, e);
                            lookahead_around(s, sub_line_spec(s.route, s.counters, c, false), line, negative)
                        },
                        _ => {
                            let sub = sub_line_spec(rv, counters, c, true);
                            lookbehind_around(
                                rv.lines.len() as usize,
                                emit_spec(sub.0, sub.1, line, e),
                                line,
                                negative,
                                fixed_len(c)->Some_0 as usize,
                            )
                        },
                    }
                } else {
                    single(rv, counters, line, jump())
                },
            }
        } else {
            single(rv, counters, line, jump())
        },
    }
}

/// The route of a whole pattern: line 0 holds the expression, captured as
/// capture group 0 between a new start node and a new end node.
pub open spec fn route_of(e: Expression) -> RouteView {
    let rv0 = with_group(with_line(RouteView { lines: seq![], groups: seq![] }), None);
    let s = emit_spec(rv0, 0, 0, e);
    main_around(s.route, s.port)
}

/// Line 0 with the piece `p` captured as capture group 0 between a new
/// start node and a new end node.
pub open spec fn main_around(rv: RouteView, p: Port) -> RouteView {
    let s = Emitted { route: rv, counters: 0, port: p };
    let a = node_count(s.route, 0);
    let b = (a + 1) as usize;
    let r1 = with_node(with_node(s.route, 0), 0);
    let r2 = with_item(
        r1,
        0,
        a,
        s.port.in_node_index,
        TransitionView::Plain(Transition::CaptureStart(CaptureStartTransition { capture_group_index: 0 })),
    );
    let r3 = with_item(
        r2,
        0,
        s.port.out_node_index as int,
        b,
        TransitionView::Plain(Transition::CaptureEnd(CaptureEndTransition { capture_group_index: 0 })),
    );
    with_ends(r3, 0, a as usize, b, rv.lines[0].fixed_start, rv.lines[0].fixed_end)
}

} // verus!

verus! {

// The matcher reads a route only through its value: routes with the same
// lines and the same number of capture groups match alike.

/// The two routes have the same lines and the same number of capture
/// groups.
pub open spec fn routes_alike(a: Route, b: Route) -> bool {
    &&& route_view(a).lines == route_view(b).lines
    &&& a.capture_groups@.len() == b.capture_groups@.len()
}

proof fn lemma_line_alike(a: Route, b: Route, line: int)
    requires
        routes_alike(a, b),
        0 <= line < a.lines@.len(),
    ensures
        b.lines@.len() == a.lines@.len(),
        line_view(a.lines@[line]) == line_view(b.lines@[line]),
        a.lines@[line].end_node_index == b.lines@[line].end_node_index,
        a.lines@[line].start_node_index == b.lines@[line].start_node_index,
        a.lines@[line].nodes@.len() == b.lines@[line].nodes@.len(),
{
    assert(route_view(a).lines[line] == line_view(a.lines@[line]));
    assert(route_view(b).lines.len() == b.lines@.len());
    assert(route_view(b).lines[line] == line_view(b.lines@[line]));
    assert(line_view(a.lines@[line]).nodes.len() == a.lines@[line].nodes@.len());
    assert(line_view(b.lines@[line]).nodes.len() == b.lines@[line].nodes@.len());
}

proof fn lemma_item_alike(a: Route, b: Route, line: int, node: int, k: int)
    requires
        routes_alike(a, b),
        0 <= line < a.lines@.len(),
        0 <= node < a.lines@[line].nodes@.len(),
    ensures
        a.lines@[line].nodes@[node].transition_items@.len() == b.lines@[line].nodes@[node].transition_items@.len(),
        0 <= k < a.lines@[line].nodes@[node].transition_items@.len() ==> item_view(
            a.lines@[line].nodes@[node].transition_items@[k],
        ) == item_view(b.lines@[line].nodes@[node].transition_items@[k]),
{
    lemma_line_alike(a, b, line);
    let la = a.lines@[line];
    let lb = b.lines@[line];
    assert(line_view(la).nodes[node] == node_view(la.nodes@[node]));
    assert(line_view(lb).nodes[node] == node_view(lb.nodes@[node]));
    assert(node_view(la.nodes@[node]).len() == la.nodes@[node].transition_items@.len());
    assert(node_view(lb.nodes@[node]).len() == lb.nodes@[node].transition_items@.len());
    if 0 <= k < la.nodes@[node].transition_items@.len() {
        assert(node_view(la.nodes@[node])[k] == item_view(la.nodes@[node].transition_items@[k]));
        assert(node_view(lb.nodes@[node])[k] == item_view(lb.nodes@[node].transition_items@[k]));
    }
}

proof fn lemma_step_alike(
    a: Route,
    b: Route,
    text: Seq<char>,
    f: FrameView,
    ia: TransitionItem,
    ib: TransitionItem,
    slots: Slots,
    fuel: nat,
)
    requires
        routes_alike(a, b),
        item_view(ia) == item_view(ib),
    ensures
        step(a, text, f, ia, slots, fuel) == step(b, text, f, ib, slots, fuel),
    decreases fuel, 1nat,
{
    assert(ia.target_node_index == ib.target_node_index);
    match ia.transition {
        Transition::String(_) => {},
        Transition::CharSet(_) => {},
        _ => {
            assert(ia.transition == ib.transition);
        },
    }
    if fuel > 0 {
        match ia.transition {
            Transition::LookAheadAssertion(t) => {
                if t.route_index < a.lines@.len() {
                    lemma_line_alike(a, b, t.route_index as int);
                    lemma_run_alike(
                        a,
                        b,
                        text,
                        t.route_index as int,
                        None,
                        seq![line_start(a, t.route_index as int, f.pos)],
                        slots,
                        (fuel - 1) as nat,
                    );
                    assert(seq![line_start(a, t.route_index as int, f.pos)] == seq![
                        line_start(b, t.route_index as int, f.pos),
                    ]);
                }
                assert(b.lines@.len() == a.lines@.len()) by {
                    assert(route_view(a).lines.len() == route_view(b).lines.len());
                }
            },
            Transition::LookBehindAssertion(t) => {
                if t.route_index < a.lines@.len() && f.pos >= t.match_length_in_char {
                    lemma_line_alike(a, b, t.route_index as int);
                    let st = (f.pos - t.match_length_in_char) as usize;
                    lemma_run_alike(
                        a,
                        b,
                        text,
                        t.route_index as int,
                        Some(f.pos),
                        seq![line_start(a, t.route_index as int, st)],
                        slots,
                        (fuel - 1) as nat,
                    );
                    assert(seq![line_start(a, t.route_index as int, st)] == seq![
                        line_start(b, t.route_index as int, st),
                    ]);
                }
                assert(b.lines@.len() == a.lines@.len()) by {
                    assert(route_view(a).lines.len() == route_view(b).lines.len());
                }
            },
            _ => {},
        }
    }
}

proof fn lemma_run_alike(
    a: Route,
    b: Route,
    text: Seq<char>,
    line: int,
    end_at: Option<usize>,
    stack: Seq<FrameView>,
    slots: Slots,
    fuel: nat,
)
    requires
        routes_alike(a, b),
    ensures
        run(a, text, line, end_at, stack, slots, fuel) == run(b, text, line, end_at, stack, slots, fuel),
    decreases fuel, 2nat,
{
    assert(b.lines@.len() == a.lines@.len()) by {
        assert(route_view(a).lines.len() == route_view(b).lines.len());
    }
    if fuel == 0 || stack.len() == 0 || line < 0 || line >= a.lines@.len() {
    } else {
        let f = stack.last();
        let rest = stack.drop_last();
        lemma_line_alike(a, b, line);
        let la = a.lines@[line];
        if ends_line(a, line, end_at, f) {
        } else if f.node >= la.nodes@.len() {
            lemma_run_alike(a, b, text, line, end_at, rest, slots, (fuel - 1) as nat);
        } else {
            lemma_item_alike(a, b, line, f.node as int, f.next as int);
            if f.next >= la.nodes@[f.node as int].transition_items@.len() {
                lemma_run_alike(a, b, text, line, end_at, rest, slots, (fuel - 1) as nat);
            } else {
                let ia = la.nodes@[f.node as int].transition_items@[f.next as int];
                let ib = b.lines@[line].nodes@[f.node as int].transition_items@[f.next as int];
                let alt = rest.push(FrameView { next: (f.next + 1) as usize, ..f });
                lemma_step_alike(a, b, text, f, ia, ib, slots, (fuel - 1) as nat);
                match step(a, text, f, ia, slots, (fuel - 1) as nat) {
                    Some((g, s2)) => lemma_run_alike(a, b, text, line, end_at, alt.push(g), s2, (fuel - 1) as nat),
                    None => lemma_run_alike(a, b, text, line, end_at, alt, slots, (fuel - 1) as nat),
                }
            }
        }
    }
}

/// Routes with the same lines and the same number of capture groups find
/// the same leftmost match, with the same captures, from every position.
pub proof fn lemma_search_alike(a: Route, b: Route, text: Seq<char>, from: int)
    requires
        routes_alike(a, b),
    ensures
        search(a, text, from) == search(b, text, from),
    decreases text.len() - from,
{
    if 0 <= from < text.len() {
        assert(b.lines@.len() == a.lines@.len()) by {
            assert(route_view(a).lines.len() == route_view(b).lines.len());
        }
        if a.lines@.len() > 0 {
            lemma_line_alike(a, b, 0);
            assert(seq![line_start(a, 0, from as usize)] == seq![line_start(b, 0, from as usize)]);
            lemma_run_alike(
                a,
                b,
                text,
                0,
                None,
                seq![line_start(a, 0, from as usize)],
                initial_slots(a.capture_groups@.len()),
                FUEL as nat,
            );
        }
        lemma_search_alike(a, b, text, from + 1);
    }
}

} // verus!
