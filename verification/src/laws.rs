use vstd::prelude::*;

use crate::ast::{FunctionCall, FunctionName};
use crate::compiled::{
    call_spec, emit_spec, route_view, line_view, node_view, item_view, transition_view, group_spec, node_count, sub_line_spec, with_group, with_line, Emitted,
    with_node, with_item, with_ends, single, jump, optional_around, zero_or_more_around,
    one_or_more_around, repetition_around, capture_around, or_around, lookahead_around,
    lookbehind_around, literal_transition, first_group_named, route_of, main_around,
    ItemView, RouteView, TransitionView,
};
use crate::ast::{BackReference, Expression, FunctionCallArg, Literal};
use crate::compiler::{fixed_len, number_arg_at};
use crate::compiler::Port;
use crate::process::{in_items, initial_slots, is_word_char, line_start, run, search, step, FrameView, Slots, FUEL};
use crate::semantics::leftmost;
use crate::route::{Route, TransitionItem};
use crate::transition::{
    word_items, CaptureEndTransition, CaptureStartTransition, CounterIncrementTransition,
    CounterResetTransition, RepetitionBackTransition, RepetitionForwardTransition, RepetitionType,
    Transition, BackReferenceTransition, CharTransition, utf8_len, LineBoundaryAssertionTransition,
    WordBoundaryAssertionTransition,
};

verus! {

// What the compiled assertions and quantifiers do when the matcher runs
// them, stated over the text and the positions alone.

/// The character at index `i` of the text is a word character: one of the
/// preset set `char_word` (`\w`).
pub open spec fn word_at(text: Seq<char>, i: int) -> bool {
    0 <= i < text.len() && in_items(word_items(), text[i] as u32)
}

/// The preset set `char_word` holds exactly the ASCII letters, the decimal
/// digits and `_`.
pub proof fn word_characters(c: char)
    ensures
        in_items(word_items(), c as u32) <==> (('a' <= c <= 'z') || ('A' <= c <= 'Z') || ('0'
            <= c <= '9') || c == '_'),
{
    let v = c as u32;
    let w = word_items();
    if ('A' <= c <= 'Z') {
        assert(crate::process::item_contains(w[0], v));
    } else if ('a' <= c <= 'z') {
        assert(crate::process::item_contains(w[1], v));
    } else if ('0' <= c <= '9') {
        assert(crate::process::item_contains(w[2], v));
    } else if c == '_' {
        assert(crate::process::item_contains(w[3], v));
    } else {
        assert forall|i: int| 0 <= i < w.len() implies !crate::process::item_contains(#[trigger] w[i], v) by {
            if i == 0 {
            } else if i == 1 {
            } else if i == 2 {
            } else {
            }
        }
    }
}

/// The piece compiled for a call holds one transition, from its entry to
/// its exit, and that transition is `t`.
pub open spec fn single_transition(rv: RouteView, line: int, port_in: int, port_out: usize, t: Transition) -> bool {
    let items = rv.lines[line].nodes[port_in];
    &&& items.len() == 1
    &&& items[0] == (ItemView { transition: TransitionView::Plain(t), target: port_out })
}

/// The first transition that leaves node `n` of a line, where it holds no
/// sequence.
pub open spec fn entry_transition(rv: RouteView, line: int, n: int) -> Transition {
    match rv.lines[line].nodes[n][0].transition {
        TransitionView::Plain(t) => t,
        _ => Transition::Jump(crate::transition::JumpTransition),
    }
}

/// `is_bound()` (`\b`) holds at a position exactly where one of the
/// characters before and after it is a word character of `char_word` and
/// the other is not (or lies outside the text), and `is_not_bound()`
/// (`\B`) exactly where `is_bound()` does not: the piece each compiles to
/// is one transition that the matcher passes, without reading a
/// character, on those positions alone.
pub proof fn word_boundary_assertions(
    rv: RouteView,
    counters: usize,
    line: int,
    call: FunctionCall,
    route: Route,
    text: Seq<char>,
    f: FrameView,
    slots: Slots,
    fuel: nat,
    target: usize,
)
    requires
        0 <= line < rv.lines.len(),
        rv.lines[line].nodes.len() + 2 <= usize::MAX,
        call.name is IsBound || call.name is IsNotBound,
    ensures
        ({
            let e = call_spec(rv, counters, line, call);
            let t = entry_transition(e.route, line, e.port.in_node_index as int);
            &&& single_transition(e.route, line, e.port.in_node_index as int, e.port.out_node_index, t)
            &&& step(route, text, f, TransitionItem { transition: t, target_node_index: target }, slots, fuel)
                == if (word_at(text, f.pos - 1) != word_at(text, f.pos as int)) != (call.name is IsNotBound) {
                Some((FrameView { node: target, next: 0, pos: f.pos, counters: f.counters }, slots))
            } else {
                None
            }
        }),
{
    let e = call_spec(rv, counters, line, call);
    let t = Transition::WordBoundaryAssertion(
        crate::transition::WordBoundaryAssertionTransition { is_negative: call.name is IsNotBound },
    );
    let a = rv.lines[line].nodes.len() as int;
    assert(e.route.lines[line].nodes[a] =~= seq![
        ItemView { transition: TransitionView::Plain(t), target: (a + 1) as usize },
    ]);
    assert(single_transition(e.route, line, e.port.in_node_index as int, e.port.out_node_index, t));
    let p = f.pos as int;
    if 0 < p <= text.len() {
        word_characters(text[p - 1]);
        assert(word_at(text, p - 1) == crate::process::word_before(text, p));
    } else {
        assert(word_at(text, p - 1) == crate::process::word_before(text, p));
    }
    if 0 <= p < text.len() {
        word_characters(text[p]);
        assert(word_at(text, p) == crate::process::word_after(text, p));
    } else {
        assert(word_at(text, p) == crate::process::word_after(text, p));
    }
    assert(step(route, text, f, TransitionItem { transition: t, target_node_index: target }, slots, fuel)
        == if (word_at(text, f.pos - 1) != word_at(text, f.pos as int)) != (call.name is IsNotBound) {
        Some((FrameView { node: target, next: 0, pos: f.pos, counters: f.counters }, slots))
    } else {
        None
    });
}

/// `is_start()` (`^`) holds exactly at the start of the text and
/// `is_end()` (`$`) exactly at its end: the piece each compiles to is one
/// transition that the matcher passes, without reading a character, on
/// those positions alone.
pub proof fn line_boundary_assertions(
    rv: RouteView,
    counters: usize,
    line: int,
    call: FunctionCall,
    route: Route,
    text: Seq<char>,
    f: FrameView,
    slots: Slots,
    fuel: nat,
    target: usize,
)
    requires
        0 <= line < rv.lines.len(),
        rv.lines[line].nodes.len() + 2 <= usize::MAX,
        call.name is IsStart || call.name is IsEnd,
    ensures
        ({
            let e = call_spec(rv, counters, line, call);
            let t = entry_transition(e.route, line, e.port.in_node_index as int);
            &&& single_transition(e.route, line, e.port.in_node_index as int, e.port.out_node_index, t)
            &&& step(route, text, f, TransitionItem { transition: t, target_node_index: target }, slots, fuel)
                == if (if call.name is IsEnd { f.pos == text.len() } else { f.pos == 0 }) {
                Some((FrameView { node: target, next: 0, pos: f.pos, counters: f.counters }, slots))
            } else {
                None
            }
        }),
{
    let e = call_spec(rv, counters, line, call);
    let t = Transition::LineBoundaryAssertion(
        LineBoundaryAssertionTransition { is_end: call.name is IsEnd },
    );
    let a = rv.lines[line].nodes.len() as int;
    assert(e.route.lines[line].nodes[a] =~= seq![
        ItemView { transition: TransitionView::Plain(t), target: (a + 1) as usize },
    ]);
    assert(single_transition(e.route, line, e.port.in_node_index as int, e.port.out_node_index, t));
}

// Emitting a piece only adds: lines, nodes and transitions; the piece's
// entry and exit are nodes of its line.

/// `b` has the lines of `a`, each with at least its nodes.
pub open spec fn grown(a: RouteView, b: RouteView) -> bool {
    &&& b.lines.len() >= a.lines.len()
    &&& forall|l: int| 0 <= l < a.lines.len() ==> #[trigger] node_count(b, l) >= node_count(a, l)
}

/// The entry and the exit of the piece are nodes of its line, where the
/// line's nodes can be counted by a `usize`.
pub open spec fn port_within(x: Emitted, line: int) -> bool {
    node_count(x.route, line) <= usize::MAX ==> {
        &&& x.port.in_node_index < node_count(x.route, line)
        &&& x.port.out_node_index < node_count(x.route, line)
    }
}

proof fn lemma_grown_trans(a: RouteView, b: RouteView, c: RouteView)
    requires
        grown(a, b),
        grown(b, c),
    ensures
        grown(a, c),
{
    assert forall|l: int| 0 <= l < a.lines.len() implies #[trigger] node_count(c, l) >= node_count(a, l) by {
        assert(node_count(c, l) >= node_count(b, l));
        assert(node_count(b, l) >= node_count(a, l));
    }
}

broadcast proof fn lemma_with_node(rv: RouteView, line: int)
    requires
        0 <= line < rv.lines.len(),
    ensures
        #[trigger] with_node(rv, line).lines.len() == rv.lines.len(),
        forall|l: int| #![trigger node_count(with_node(rv, line), l)] 0 <= l < rv.lines.len() ==> node_count(with_node(rv, line), l) == node_count(rv, l) + if l == line { 1int } else { 0int },
{
    let r = with_node(rv, line);
    assert forall|l: int| 0 <= l < rv.lines.len() implies node_count(r, l) == node_count(rv, l) + if l == line { 1int } else { 0int } by {
        if l != line {
            assert(r.lines[l] == rv.lines[l]);
        }
    }
}

broadcast proof fn lemma_with_item(rv: RouteView, line: int, from: int, to: usize, t: TransitionView)
    requires
        0 <= line < rv.lines.len(),
    ensures
        #[trigger] with_item(rv, line, from, to, t).lines.len() == rv.lines.len(),
        forall|l: int| #![trigger node_count(with_item(rv, line, from, to, t), l)] 0 <= l < rv.lines.len() ==> node_count(with_item(rv, line, from, to, t), l) == node_count(rv, l),
{
    let r = with_item(rv, line, from, to, t);
    assert forall|l: int| 0 <= l < rv.lines.len() implies node_count(r, l) == node_count(rv, l) by {
        if l != line {
            assert(r.lines[l] == rv.lines[l]);
        }
    }
}

broadcast proof fn lemma_with_line(rv: RouteView)
    ensures
        #[trigger] with_line(rv).lines.len() == rv.lines.len() + 1,
        node_count(with_line(rv), rv.lines.len() as int) == 0,
        forall|l: int| #![trigger node_count(with_line(rv), l)] 0 <= l < rv.lines.len() ==> node_count(with_line(rv), l) == node_count(rv, l),
{
    let r = with_line(rv);
    assert forall|l: int| 0 <= l < rv.lines.len() implies node_count(r, l) == node_count(rv, l) by {
        assert(r.lines[l] == rv.lines[l]);
    }
}

broadcast proof fn lemma_with_ends(rv: RouteView, line: int, a: usize, b: usize, fs: bool, fe: bool)
    requires
        0 <= line < rv.lines.len(),
    ensures
        #[trigger] with_ends(rv, line, a, b, fs, fe).lines.len() == rv.lines.len(),
        forall|l: int| #![trigger node_count(with_ends(rv, line, a, b, fs, fe), l)] 0 <= l < rv.lines.len() ==> node_count(with_ends(rv, line, a, b, fs, fe), l) == node_count(rv, l),
{
    let r = with_ends(rv, line, a, b, fs, fe);
    assert forall|l: int| 0 <= l < rv.lines.len() implies node_count(r, l) == node_count(rv, l) by {
        if l != line {
            assert(r.lines[l] == rv.lines[l]);
        }
    }
}

broadcast proof fn lemma_with_group(rv: RouteView, name: Option<String>)
    ensures
        (#[trigger] with_group(rv, name)).lines == rv.lines,
{
}

pub broadcast group group_route_steps {
    lemma_with_node,
    lemma_with_item,
    lemma_with_line,
    lemma_with_ends,
    lemma_with_group,
}

/// The counts of nodes of the lines are the same.
pub open spec fn same_counts(a: RouteView, b: RouteView) -> bool {
    &&& b.lines.len() == a.lines.len()
    &&& forall|l: int| 0 <= l < a.lines.len() ==> #[trigger] node_count(b, l) == node_count(a, l)
}

proof fn lemma_item_counts(rv: RouteView, line: int, from: int, to: usize, t: TransitionView)
    requires
        0 <= line < rv.lines.len(),
    ensures
        same_counts(rv, with_item(rv, line, from, to, t)),
{
    broadcast use group_route_steps;
}

proof fn lemma_same_trans(a: RouteView, b: RouteView, c: RouteView)
    requires
        same_counts(a, b),
        same_counts(b, c),
    ensures
        same_counts(a, c),
{
    assert forall|l: int| 0 <= l < a.lines.len() implies #[trigger] node_count(c, l) == node_count(a, l) by {
        assert(node_count(c, l) == node_count(b, l));
    }
}

/// `k` new nodes on a line.
pub open spec fn with_nodes(rv: RouteView, line: int, k: nat) -> RouteView
    decreases k,
{
    if k == 0 {
        rv
    } else {
        with_node(with_nodes(rv, line, (k - 1) as nat), line)
    }
}

proof fn lemma_nodes(rv: RouteView, line: int, k: nat)
    requires
        0 <= line < rv.lines.len(),
    ensures
        grown(rv, with_nodes(rv, line, k)),
        with_nodes(rv, line, k).lines.len() == rv.lines.len(),
        node_count(with_nodes(rv, line, k), line) == node_count(rv, line) + k,
    decreases k,
{
    broadcast use group_route_steps;

    if k > 0 {
        lemma_nodes(rv, line, (k - 1) as nat);
        let r = with_nodes(rv, line, (k - 1) as nat);
        assert forall|l: int| 0 <= l < rv.lines.len() implies #[trigger] node_count(with_node(r, line), l) >= node_count(rv, l) by {
            assert(node_count(r, l) >= node_count(rv, l));
        }
    }
}

/// After `k` new nodes and transitions that keep the counts, the route
/// has grown; the entry and the exit are new nodes (at the offsets given)
/// or those of `s` (offset -1).
proof fn lemma_around(s: Emitted, line: int, k: nat, x: Emitted, in_off: int, out_off: int)
    requires
        0 <= line < s.route.lines.len(),
        same_counts(with_nodes(s.route, line, k), x.route),
        in_off < k,
        out_off < k,
        in_off >= 0 ==> x.port.in_node_index == (node_count(s.route, line) + in_off) as usize,
        in_off < 0 ==> x.port.in_node_index == s.port.in_node_index,
        out_off >= 0 ==> x.port.out_node_index == (node_count(s.route, line) + out_off) as usize,
        out_off < 0 ==> x.port.out_node_index == s.port.out_node_index,
        in_off < 0 || out_off < 0 ==> port_within(s, line),
    ensures
        grown(s.route, x.route),
        port_within(x, line),
{
    lemma_nodes(s.route, line, k);
    let w = with_nodes(s.route, line, k);
    let r = x.route;
    assert forall|l: int| 0 <= l < s.route.lines.len() implies #[trigger] node_count(r, l) >= node_count(s.route, l) by {
        assert(node_count(r, l) == node_count(w, l));
        assert(node_count(w, l) >= node_count(s.route, l));
    }
    assert(node_count(r, line) == node_count(s.route, line) + k);
}

proof fn lemma_single_grows(rv: RouteView, c: usize, line: int, t: TransitionView)
    requires
        0 <= line < rv.lines.len(),
    ensures
        grown(rv, single(rv, c, line, t).route),
        port_within(single(rv, c, line, t), line),
{
    let x = single(rv, c, line, t);
    let w = with_nodes(rv, line, 2);
    reveal_with_fuel(with_nodes, 4);
    assert(w == with_node(with_node(rv, line), line));
    lemma_nodes(rv, line, 2);
    let a = node_count(rv, line);
    lemma_item_counts(w, line, a, (a + 1) as usize, t);
    let s = Emitted { route: rv, counters: c, port: x.port };
    lemma_around(s, line, 2, x, 0, 1);
}

proof fn lemma_optional_grows(s: Emitted, line: int, lazy: bool)
    requires
        0 <= line < s.route.lines.len(),
        port_within(s, line),
    ensures
        grown(s.route, optional_around(s, line, lazy).route),
        port_within(optional_around(s, line, lazy), line),
{
    let x = optional_around(s, line, lazy);
    let a = node_count(s.route, line);
    let b = (a + 1) as usize;
    let w = with_nodes(s.route, line, 2);
    reveal_with_fuel(with_nodes, 4);
    assert(w == with_node(with_node(s.route, line), line));
    lemma_nodes(s.route, line, 2);
    let (f1, t1, f2, t2) = if lazy { (a, b, a, s.port.in_node_index) } else { (a, s.port.in_node_index, a, b) };
    let r2 = with_item(w, line, f1, t1, jump());
    let r3 = with_item(r2, line, f2, t2, jump());
    lemma_item_counts(w, line, f1, t1, jump());
    lemma_item_counts(r2, line, f2, t2, jump());
    lemma_item_counts(r3, line, s.port.out_node_index as int, b, jump());
    lemma_same_trans(w, r2, r3);
    lemma_same_trans(w, r3, x.route);
    lemma_around(s, line, 2, x, 0, 1);
}

proof fn lemma_zero_or_more_grows(s: Emitted, line: int, lazy: bool)
    requires
        0 <= line < s.route.lines.len(),
        port_within(s, line),
    ensures
        grown(s.route, zero_or_more_around(s, line, lazy).route),
        port_within(zero_or_more_around(s, line, lazy), line),
{
    let x = zero_or_more_around(s, line, lazy);
    let a = node_count(s.route, line);
    let b = (a + 1) as usize;
    let w = with_nodes(s.route, line, 2);
    reveal_with_fuel(with_nodes, 4);
    assert(w == with_node(with_node(s.route, line), line));
    lemma_nodes(s.route, line, 2);
    let (f1, t1, f2, t2) = if lazy { (a, b, a, s.port.in_node_index) } else { (a, s.port.in_node_index, a, b) };
    let r2 = with_item(w, line, f1, t1, jump());
    let r3 = with_item(r2, line, f2, t2, jump());
    lemma_item_counts(w, line, f1, t1, jump());
    lemma_item_counts(r2, line, f2, t2, jump());
    lemma_item_counts(r3, line, s.port.out_node_index as int, a as usize, jump());
    lemma_same_trans(w, r2, r3);
    lemma_same_trans(w, r3, x.route);
    lemma_around(s, line, 2, x, 0, 1);
}

proof fn lemma_one_or_more_grows(s: Emitted, line: int, lazy: bool)
    requires
        0 <= line < s.route.lines.len(),
        port_within(s, line),
    ensures
        grown(s.route, one_or_more_around(s, line, lazy).route),
        port_within(one_or_more_around(s, line, lazy), line),
{
    let x = one_or_more_around(s, line, lazy);
    let a = node_count(s.route, line);
    let c = a + 1;
    let b = (a + 2) as usize;
    let w = with_nodes(s.route, line, 3);
    reveal_with_fuel(with_nodes, 4);
    assert(w == with_node(with_node(with_node(s.route, line), line), line));
    lemma_nodes(s.route, line, 3);
    let r2 = with_item(w, line, a, s.port.in_node_index, jump());
    let r3 = with_item(r2, line, s.port.out_node_index as int, c as usize, jump());
    let (f1, t1, f2, t2) = if lazy { (c, b, c, s.port.in_node_index) } else { (c, s.port.in_node_index, c, b) };
    let r4 = with_item(r3, line, f1, t1, jump());
    lemma_item_counts(w, line, a, s.port.in_node_index, jump());
    lemma_item_counts(r2, line, s.port.out_node_index as int, c as usize, jump());
    lemma_item_counts(r3, line, f1, t1, jump());
    lemma_item_counts(r4, line, f2, t2, jump());
    lemma_same_trans(w, r2, r3);
    lemma_same_trans(w, r3, r4);
    lemma_same_trans(w, r4, x.route);
    lemma_around(s, line, 3, x, 0, 2);
}

proof fn lemma_repetition_grows(s: Emitted, line: int, rt: RepetitionType, lazy: bool)
    requires
        0 <= line < s.route.lines.len(),
        port_within(s, line),
    ensures
        grown(s.route, repetition_around(s, line, rt, lazy).route),
        port_within(repetition_around(s, line, rt, lazy), line),
{
    let x = repetition_around(s, line, rt, lazy);
    let counter = s.counters;
    let a = node_count(s.route, line);
    let head = a + 1;
    let b = (a + 2) as usize;
    let forward = TransitionView::Plain(
        Transition::RepetitionForward(RepetitionForwardTransition { repetition_type: rt }),
    );
    let back = TransitionView::Plain(
        Transition::RepetitionBack(RepetitionBackTransition { repetition_type: rt }),
    );
    let reset = TransitionView::Plain(Transition::CounterReset(CounterResetTransition { counter_index: counter }));
    let inc = TransitionView::Plain(
        Transition::CounterIncrement(CounterIncrementTransition { counter_index: counter }),
    );
    let w = with_nodes(s.route, line, 3);
    reveal_with_fuel(with_nodes, 4);
    assert(w == with_node(with_node(with_node(s.route, line), line), line));
    lemma_nodes(s.route, line, 3);
    let r2 = with_item(w, line, a, head as usize, reset);
    let (t1, n1, t2, n2) = if lazy { (b, forward, s.port.in_node_index, back) } else { (s.port.in_node_index, back, b, forward) };
    let r3 = with_item(r2, line, head, t1, n1);
    let r4 = with_item(r3, line, head, t2, n2);
    lemma_item_counts(w, line, a, head as usize, reset);
    lemma_item_counts(r2, line, head, t1, n1);
    lemma_item_counts(r3, line, head, t2, n2);
    lemma_item_counts(r4, line, s.port.out_node_index as int, head as usize, inc);
    lemma_same_trans(w, r2, r3);
    lemma_same_trans(w, r3, r4);
    lemma_same_trans(w, r4, x.route);
    lemma_around(s, line, 3, x, 0, 2);
}

proof fn lemma_capture_grows(s: Emitted, line: int, group: usize)
    requires
        0 <= line < s.route.lines.len(),
        port_within(s, line),
    ensures
        grown(s.route, capture_around(s, line, group).route),
        port_within(capture_around(s, line, group), line),
{
    let x = capture_around(s, line, group);
    let a = node_count(s.route, line);
    let b = (a + 1) as usize;
    let cs = TransitionView::Plain(Transition::CaptureStart(CaptureStartTransition { capture_group_index: group }));
    let ce = TransitionView::Plain(Transition::CaptureEnd(CaptureEndTransition { capture_group_index: group }));
    let w = with_nodes(s.route, line, 2);
    reveal_with_fuel(with_nodes, 4);
    assert(w == with_node(with_node(s.route, line), line));
    lemma_nodes(s.route, line, 2);
    let r2 = with_item(w, line, a, s.port.in_node_index, cs);
    lemma_item_counts(w, line, a, s.port.in_node_index, cs);
    lemma_item_counts(r2, line, s.port.out_node_index as int, b, ce);
    lemma_same_trans(w, r2, x.route);
    lemma_around(s, line, 2, x, 0, 1);
}

proof fn lemma_or_grows(left: Port, right: Emitted, line: int)
    requires
        0 <= line < right.route.lines.len(),
    ensures
        grown(right.route, or_around(left, right, line).route),
        port_within(or_around(left, right, line), line),
{
    let x = or_around(left, right, line);
    let rv = right.route;
    let a = node_count(rv, line);
    let w = with_nodes(rv, line, 2);
    reveal_with_fuel(with_nodes, 4);
    assert(w == with_node(with_node(rv, line), line));
    lemma_nodes(rv, line, 2);
    let r2 = with_item(w, line, a, left.in_node_index, jump());
    let r3 = with_item(r2, line, a, right.port.in_node_index, jump());
    let r4 = with_item(r3, line, left.out_node_index as int, (a + 1) as usize, jump());
    lemma_item_counts(w, line, a, left.in_node_index, jump());
    lemma_item_counts(r2, line, a, right.port.in_node_index, jump());
    lemma_item_counts(r3, line, left.out_node_index as int, (a + 1) as usize, jump());
    lemma_item_counts(r4, line, right.port.out_node_index as int, (a + 1) as usize, jump());
    lemma_same_trans(w, r2, r3);
    lemma_same_trans(w, r3, r4);
    lemma_same_trans(w, r4, x.route);
    lemma_around(right, line, 2, x, 0, 1);
}

proof fn lemma_sub_line_grows(rv: RouteView, c: usize, d: Expression, fixed_end: bool)
    requires
        forall|e: Expression| #![trigger emit_spec(with_line(rv), c, rv.lines.len() as int, e)] e == d ==> grown(
            with_line(rv),
            emit_spec(with_line(rv), c, rv.lines.len() as int, e).route,
        ),
    ensures
        grown(rv, sub_line_spec(rv, c, d, fixed_end).0),
{
    broadcast use group_route_steps;

    let sub = rv.lines.len() as int;
    let s = emit_spec(with_line(rv), c, sub, d);
    assert(grown(with_line(rv), s.route));
    let r = sub_line_spec(rv, c, d, fixed_end).0;
    assert(r == with_ends(s.route, sub, s.port.in_node_index, s.port.out_node_index, true, fixed_end));
    assert forall|l: int| 0 <= l < rv.lines.len() implies #[trigger] node_count(r, l) >= node_count(rv, l) by {
        assert(node_count(with_line(rv), l) == node_count(rv, l));
        assert(node_count(s.route, l) >= node_count(with_line(rv), l));
        assert(node_count(r, l) == node_count(s.route, l));
    }
}

proof fn lemma_lookahead_grows(s: Emitted, sub: (RouteView, usize), line: int, negative: bool)
    requires
        0 <= line < s.route.lines.len(),
        grown(s.route, sub.0),
        port_within(s, line),
    ensures
        grown(s.route, lookahead_around(s, sub, line, negative).route),
        port_within(lookahead_around(s, sub, line, negative), line),
{
    broadcast use group_route_steps;

    let x = lookahead_around(s, sub, line, negative);
    let r1 = sub.0;
    let b = node_count(r1, line);
    let w = with_node(r1, line);
    assert(node_count(w, line) == b + 1);
    let t = TransitionView::Plain(
        Transition::LookAheadAssertion(
            crate::transition::LookAheadAssertionTransition {
                route_index: s.route.lines.len() as usize,
                is_negative: negative,
            },
        ),
    );
    lemma_item_counts(w, line, s.port.out_node_index as int, b as usize, t);
    assert forall|l: int| 0 <= l < s.route.lines.len() implies #[trigger] node_count(x.route, l) >= node_count(s.route, l) by {
        assert(node_count(r1, l) >= node_count(s.route, l));
        assert(node_count(w, l) >= node_count(r1, l));
    }
}

proof fn lemma_lookbehind_grows(sub: usize, s: Emitted, line: int, negative: bool, length: usize)
    requires
        0 <= line < s.route.lines.len(),
        port_within(s, line),
    ensures
        grown(s.route, lookbehind_around(sub, s, line, negative, length).route),
        port_within(lookbehind_around(sub, s, line, negative, length), line),
{
    broadcast use group_route_steps;

    let x = lookbehind_around(sub, s, line, negative, length);
    let w = with_nodes(s.route, line, 1);
    reveal_with_fuel(with_nodes, 2);
    assert(w == with_node(s.route, line));
    lemma_nodes(s.route, line, 1);
    let a = node_count(s.route, line);
    let t = TransitionView::Plain(
        Transition::LookBehindAssertion(
            crate::transition::LookBehindAssertionTransition {
                route_index: sub,
                is_negative: negative,
                match_length_in_char: length,
            },
        ),
    );
    lemma_item_counts(w, line, a, s.port.in_node_index, t);
    assert(same_counts(w, x.route));
    lemma_around(s, line, 1, x, 0, -1);
}

proof fn lemma_emit_grows(rv: RouteView, c: usize, line: int, e: Expression)
    requires
        0 <= line < rv.lines.len(),
    ensures
        grown(rv, emit_spec(rv, c, line, e).route),
        port_within(emit_spec(rv, c, line, e), line),
    decreases e, 0nat,
{
    match e {
        Expression::Literal(l) => {
            lemma_single_grows(rv, c, line, literal_transition(l));
        },
        Expression::BackReference(BackReference::Index(i)) => {
            lemma_single_grows(
                rv,
                c,
                line,
                TransitionView::Plain(
                    Transition::BackReference(BackReferenceTransition { capture_group_index: i }),
                ),
            );
        },
        Expression::BackReference(BackReference::Name(n)) => {
            lemma_single_grows(
                rv,
                c,
                line,
                TransitionView::Plain(
                    Transition::BackReference(
                        BackReferenceTransition { capture_group_index: first_group_named(rv.groups, n@) },
                    ),
                ),
            );
        },
        Expression::Group(es) => {
            if es@.len() > 0 {
                lemma_group_grows(rv, c, line, es@, es@.len() as int);
            } else {
                lemma_single_grows(rv, c, line, jump());
            }
        },
        Expression::Or(l, r) => {
            assert(decreases_to!(e => *l));
            assert(decreases_to!(e => *r));
            lemma_emit_grows(rv, c, line, *l);
            let el = emit_spec(rv, c, line, *l);
            lemma_emit_grows(el.route, el.counters, line, *r);
            let er = emit_spec(el.route, el.counters, line, *r);
            lemma_or_grows(el.port, er, line);
            lemma_grown_trans(rv, el.route, er.route);
            lemma_grown_trans(rv, er.route, or_around(el.port, er, line).route);
        },
        Expression::FunctionCall(call) => {
            assert(decreases_to!(e => *call));
            lemma_call_grows(rv, c, line, *call);
        },
    }
}

proof fn lemma_group_grows(rv: RouteView, c: usize, line: int, es: Seq<Expression>, k: int)
    requires
        0 <= line < rv.lines.len(),
        es.len() > 0,
        1 <= k <= es.len(),
    ensures
        grown(rv, group_spec(rv, c, line, es, k).route),
        port_within(group_spec(rv, c, line, es, k), line),
    decreases es, if k > 0 { k as nat } else { 0nat },
{
    if k == 1 {
        assert(decreases_to!(es => es[0]));
        lemma_emit_grows(rv, c, line, es[0]);
    } else {
        lemma_group_grows(rv, c, line, es, k - 1);
        let prev = group_spec(rv, c, line, es, k - 1);
        assert(decreases_to!(es => es[k - 1]));
        lemma_emit_grows(prev.route, prev.counters, line, es[k - 1]);
        let s = emit_spec(prev.route, prev.counters, line, es[k - 1]);
        let x = group_spec(rv, c, line, es, k);
        lemma_item_counts(s.route, line, prev.port.out_node_index as int, s.port.in_node_index, jump());
        assert(x.route == with_item(s.route, line, prev.port.out_node_index as int, s.port.in_node_index, jump()));
        assert(grown(s.route, x.route));
        lemma_grown_trans(rv, prev.route, s.route);
        lemma_grown_trans(rv, s.route, x.route);
        assert(node_count(x.route, line) == node_count(s.route, line));
        assert(node_count(s.route, line) >= node_count(prev.route, line));
    }
}

proof fn lemma_call_grows(rv: RouteView, c: usize, line: int, call: FunctionCall)
    requires
        0 <= line < rv.lines.len(),
    ensures
        grown(rv, call_spec(rv, c, line, call).route),
        port_within(call_spec(rv, c, line, call), line),
    decreases call, 0nat,
{
    let args = call.args@;
    let lazy = call.name is LazyOptional || call.name is LazyOneOrMore || call.name is LazyZeroOrMore
        || call.name is LazyRepeat || call.name is LazyRepeatRange || call.name is LazyRepeatFrom;
    let x = call_spec(rv, c, line, call);
    if call.name is IsStart || call.name is IsEnd {
        lemma_single_grows(
            rv,
            c,
            line,
            TransitionView::Plain(
                Transition::LineBoundaryAssertion(
                    LineBoundaryAssertionTransition { is_end: call.name is IsEnd },
                ),
            ),
        );
    } else if call.name is IsBound || call.name is IsNotBound {
        lemma_single_grows(
            rv,
            c,
            line,
            TransitionView::Plain(
                Transition::WordBoundaryAssertion(
                    WordBoundaryAssertionTransition { is_negative: call.name is IsNotBound },
                ),
            ),
        );
    } else if args.len() > 0 && args[0] is Expression {
        assert(decreases_to!(call => call.args@[0]));
        let e = args[0]->Expression_0;
        match call.name {
            FunctionName::Optional | FunctionName::LazyOptional => {
                lemma_emit_grows(rv, c, line, e);
                let s = emit_spec(rv, c, line, e);
                lemma_optional_grows(s, line, lazy);
                lemma_grown_trans(rv, s.route, x.route);
            },
            FunctionName::ZeroOrMore | FunctionName::LazyZeroOrMore => {
                lemma_emit_grows(rv, c, line, e);
                let s = emit_spec(rv, c, line, e);
                lemma_zero_or_more_grows(s, line, lazy);
                lemma_grown_trans(rv, s.route, x.route);
            },
            FunctionName::OneOrMore | FunctionName::LazyOneOrMore => {
                lemma_emit_grows(rv, c, line, e);
                let s = emit_spec(rv, c, line, e);
                lemma_one_or_more_grows(s, line, lazy);
                lemma_grown_trans(rv, s.route, x.route);
            },
            FunctionName::Repeat | FunctionName::LazyRepeat => {
                lemma_emit_grows(rv, c, line, e);
                let s = emit_spec(rv, c, line, e);
                lemma_repetition_grows(s, line, RepetitionType::Repeat(number_arg_at(args, 1)->Some_0), lazy);
                lemma_grown_trans(rv, s.route, x.route);
            },
            FunctionName::RepeatFrom | FunctionName::LazyRepeatFrom => {
                lemma_emit_grows(rv, c, line, e);
                let s = emit_spec(rv, c, line, e);
                lemma_repetition_grows(s, line, RepetitionType::RepeatFrom(number_arg_at(args, 1)->Some_0), lazy);
                lemma_grown_trans(rv, s.route, x.route);
            },
            FunctionName::RepeatRange | FunctionName::LazyRepeatRange => {
                lemma_emit_grows(rv, c, line, e);
                let s = emit_spec(rv, c, line, e);
                lemma_repetition_grows(
                    s,
                    line,
                    RepetitionType::RepeatRange(number_arg_at(args, 1)->Some_0, number_arg_at(args, 2)->Some_0),
                    lazy,
                );
                lemma_grown_trans(rv, s.route, x.route);
            },
            FunctionName::Index => {
                let g = with_group(rv, None);
                assert(g.lines == rv.lines);
                lemma_emit_grows(g, c, line, e);
                let s = emit_spec(g, c, line, e);
                lemma_capture_grows(s, line, rv.groups.len() as usize);
                assert(grown(rv, g));
                lemma_grown_trans(rv, g, s.route);
                lemma_grown_trans(rv, s.route, x.route);
            },
            FunctionName::Name => {
                let g = with_group(rv, Some(args[1]->Identifier_0));
                assert(g.lines == rv.lines);
                lemma_emit_grows(g, c, line, e);
                let s = emit_spec(g, c, line, e);
                lemma_capture_grows(s, line, rv.groups.len() as usize);
                assert(grown(rv, g));
                lemma_grown_trans(rv, g, s.route);
                lemma_grown_trans(rv, s.route, x.route);
            },
            _ => {
                if args.len() > 1 && args[1] is Expression {
                    assert(decreases_to!(call => call.args@[1]));
                    let d = args[1]->Expression_0;
                    let negative = call.name is IsNotBefore || call.name is IsNotAfter;
                    if call.name is IsBefore || call.name is IsNotBefore {
                        lemma_emit_grows(rv, c, line, e);
                        let s = emit_spec(rv, c, line, e);
                        lemma_with_line_grown(s.route);
                        lemma_emit_grows(with_line(s.route), s.counters, s.route.lines.len() as int, d);
                        lemma_sub_line_grows(s.route, s.counters, d, false);
                        let sub = sub_line_spec(s.route, s.counters, d, false);
                        lemma_lookahead_grows(s, sub, line, negative);
                        lemma_grown_trans(rv, s.route, x.route);
                    } else {
                        lemma_with_line_grown(rv);
                        lemma_emit_grows(with_line(rv), c, rv.lines.len() as int, d);
                        lemma_sub_line_grows(rv, c, d, true);
                        let sub = sub_line_spec(rv, c, d, true);
                        lemma_emit_grows(sub.0, sub.1, line, e);
                        let s = emit_spec(sub.0, sub.1, line, e);
                        lemma_lookbehind_grows(rv.lines.len() as usize, s, line, negative, fixed_len(d)->Some_0 as usize);
                        lemma_grown_trans(rv, sub.0, s.route);
                        lemma_grown_trans(rv, s.route, x.route);
                    }
                } else {
                    lemma_single_grows(rv, c, line, jump());
                }
            },
        }
    } else {
        lemma_single_grows(rv, c, line, jump());
    }
}

proof fn lemma_with_line_grown(rv: RouteView)
    ensures
        with_line(rv).lines.len() == rv.lines.len() + 1,
{
    broadcast use group_route_steps;
}

/// The first transitions that the machine tries in the route of a lazy
/// option or a lazy repetition of `e`, alone as the whole pattern: from the
/// start node it opens capture group 0 and enters the piece; the piece's
/// entry first jumps to its exit, which closes capture group 0 and ends at
/// the end node.
proof fn lemma_lazy_shape(call: FunctionCall)
    requires
        call.name is LazyZeroOrMore || call.name is LazyOptional,
        call.args@.len() > 0,
        call.args@[0] is Expression,
    ensures
        route_of(Expression::FunctionCall(Box::new(call))).lines.len() >= 1,
        node_count(route_of(Expression::FunctionCall(Box::new(call))), 0) <= usize::MAX ==> ({
            let r = route_of(Expression::FunctionCall(Box::new(call)));
            let n = node_count(r, 0);
            let a = n - 4;
            &&& a >= 0
            &&& r.lines[0].start == (a + 2) as usize
            &&& r.lines[0].end == (a + 3) as usize
            &&& r.lines[0].nodes[a + 2] == seq![
                ItemView {
                    transition: TransitionView::Plain(
                        Transition::CaptureStart(CaptureStartTransition { capture_group_index: 0 }),
                    ),
                    target: a as usize,
                },
            ]
            &&& r.lines[0].nodes[a].len() > 0
            &&& r.lines[0].nodes[a][0] == (ItemView { transition: jump(), target: (a + 1) as usize })
            &&& r.lines[0].nodes[a + 1] == seq![
                ItemView {
                    transition: TransitionView::Plain(
                        Transition::CaptureEnd(CaptureEndTransition { capture_group_index: 0 }),
                    ),
                    target: (a + 3) as usize,
                },
            ]
        }),
{
    broadcast use group_route_steps;

    let rv0 = with_group(with_line(RouteView { lines: seq![], groups: seq![] }), None);
    let e = call.args@[0]->Expression_0;
    assert(decreases_to!(call => call.args@[0]));
    let s = emit_spec(rv0, 0, 0, e);
    lemma_emit_grows(rv0, 0, 0, e);
    let x = call_spec(rv0, 0, 0, call);
    assert(x == emit_spec(rv0, 0, 0, Expression::FunctionCall(Box::new(call))));
    let a = node_count(s.route, 0);
    let b = (a + 1) as usize;
    if call.name is LazyZeroOrMore {
        assert(x == zero_or_more_around(s, 0, true));
        lemma_zero_or_more_grows(s, 0, true);
    } else {
        assert(x == optional_around(s, 0, true));
        lemma_optional_grows(s, 0, true);
    }
    let r = route_of(Expression::FunctionCall(Box::new(call)));
    assert(r == main_around(x.route, x.port));
    lemma_grown_trans(rv0, s.route, x.route);
    assert(r.lines.len() >= 1);
    if node_count(r, 0) > usize::MAX {
        return;
    }
    assert(node_count(x.route, 0) == a + 2);
    assert(x.port.in_node_index == a as usize);
    assert(x.port.out_node_index == b);
    let r1 = with_node(with_node(x.route, 0), 0);
    assert(node_count(r1, 0) == a + 4);
    assert(node_count(r, 0) == a + 4);
    assert(s.port.out_node_index < a);
    assert(s.port.in_node_index < a);
    // the piece's entry and exit in the piece's route
    let xl = x.route.lines[0];
    assert(xl.nodes[a][0] == (ItemView { transition: jump(), target: b }));
    assert(xl.nodes[b as int] == Seq::<ItemView>::empty());
}

/// A lazy option or a lazy repetition, `e??` or `e*?`, takes as little as
/// it can: as the whole pattern, whatever `e` is, it matches the empty
/// text at the start of every text, before it tries `e` at all.
pub proof fn lazy_forms_take_nothing_first(call: FunctionCall, r: Route, text: Seq<char>)
    requires
        call.name is LazyZeroOrMore || call.name is LazyOptional,
        call.args@.len() > 0,
        call.args@[0] is Expression,
        route_view(r) == route_of(Expression::FunctionCall(Box::new(call))),
        r.capture_groups@.len() >= 1,
        text.len() > 0,
    ensures
        leftmost(r, text, 0) == Some((0int, 0int)),
{
    let v = route_view(r);
    assert(v.lines.len() == r.lines@.len());
    lemma_lazy_shape(call);
    let l = r.lines@[0];
    assert(v.lines[0] == line_view(l));
    assert(line_view(l).nodes.len() == l.nodes@.len());
    vstd::std_specs::vec::axiom_spec_len(&l.nodes);
    assert(node_count(v, 0) <= usize::MAX);
    let n = l.nodes@.len() as int;
    let a = n - 4;
    let m = (a + 2) as usize;
    let z = (a + 3) as usize;
    let au = a as usize;
    let bu = (a + 1) as usize;
    // the nodes and transitions the machine meets, in the route itself
    assert(l.start_node_index == m);
    assert(l.end_node_index == z);
    assert(line_view(l).nodes[a + 2] == node_view(l.nodes@[a + 2]));
    assert(line_view(l).nodes[a] == node_view(l.nodes@[a]));
    assert(line_view(l).nodes[a + 1] == node_view(l.nodes@[a + 1]));
    let im = l.nodes@[a + 2].transition_items@[0];
    let ia = l.nodes@[a].transition_items@[0];
    let ib = l.nodes@[a + 1].transition_items@[0];
    assert(node_view(l.nodes@[a + 2]).len() == l.nodes@[a + 2].transition_items@.len());
    assert(node_view(l.nodes@[a + 2]).len() == 1);
    assert(node_view(l.nodes@[a + 2])[0] == item_view(im));
    assert(node_view(l.nodes@[a]).len() == l.nodes@[a].transition_items@.len());
    assert(node_view(l.nodes@[a]).len() > 0);
    assert(node_view(l.nodes@[a])[0] == item_view(ia));
    assert(node_view(l.nodes@[a + 1]).len() == l.nodes@[a + 1].transition_items@.len());
    assert(node_view(l.nodes@[a + 1]).len() == 1);
    assert(node_view(l.nodes@[a + 1])[0] == item_view(ib));
    assert(im.transition == Transition::CaptureStart(CaptureStartTransition { capture_group_index: 0 })
        && im.target_node_index == au) by {
        assert(transition_view(im.transition) == TransitionView::Plain(
            Transition::CaptureStart(CaptureStartTransition { capture_group_index: 0 }),
        ));
    }
    assert(ia.transition == Transition::Jump(crate::transition::JumpTransition) && ia.target_node_index == bu) by {
        assert(transition_view(ia.transition) == jump());
    }
    assert(ib.transition == Transition::CaptureEnd(CaptureEndTransition { capture_group_index: 0 })
        && ib.target_node_index == z) by {
        assert(transition_view(ib.transition) == TransitionView::Plain(
            Transition::CaptureEnd(CaptureEndTransition { capture_group_index: 0 }),
        ));
    }
    // the run of the machine from the start of the text
    let k = r.capture_groups@.len();
    let init = initial_slots(k);
    let s1 = init.update(0, (0usize, 0usize));
    let s2 = s1.update(0, (s1[0].0, 0usize));
    assert(s2[0] == (0usize, 0usize));
    let f0 = line_start(r, 0, 0);
    let f1 = FrameView { node: au, next: 0, pos: 0, counters: seq![] };
    let f2 = FrameView { node: bu, next: 0, pos: 0, counters: seq![] };
    let f3 = FrameView { node: z, next: 0, pos: 0, counters: seq![] };
    let fuel = FUEL as nat;
    assert(step(r, text, f0, im, init, (fuel - 1) as nat) == Some((f1, s1)));
    assert(step(r, text, f1, ia, s1, (fuel - 2) as nat) == Some((f2, s1)));
    assert(step(r, text, f2, ib, s1, (fuel - 3) as nat) == Some((f3, s2)));
    let alt0 = seq![FrameView { next: 1, ..f0 }];
    let alt1 = alt0.push(FrameView { next: 1, ..f1 });
    let alt2 = alt1.push(FrameView { next: 1, ..f2 });
    assert(run(r, text, 0, None, alt2.push(f3), s2, (fuel - 3) as nat) == Some((0usize, s2)));
    assert(run(r, text, 0, None, alt1.push(f2), s1, (fuel - 2) as nat) == Some((0usize, s2))) by {
        assert(alt1.push(f2).last() == f2);
        assert(alt1.push(f2).drop_last() =~= alt1);
    }
    assert(run(r, text, 0, None, alt0.push(f1), s1, (fuel - 1) as nat) == Some((0usize, s2))) by {
        assert(alt0.push(f1).last() == f1);
        assert(alt0.push(f1).drop_last() =~= alt0);
    }
    assert(run(r, text, 0, None, seq![f0], init, fuel) == Some((0usize, s2))) by {
        assert(f0.node == m && f0.next == 0 && f0.pos == 0);
        assert(!crate::process::ends_line(r, 0, None, f0));
        assert(f0.next < l.nodes@[f0.node as int].transition_items@.len());
        assert(l.nodes@[f0.node as int].transition_items@[f0.next as int] == im);
        assert(seq![f0].last() == f0);
        assert(seq![f0].drop_last() =~= Seq::<FrameView>::empty());
        assert(Seq::<FrameView>::empty().push(FrameView { next: 1, ..f0 }) =~= alt0);
    }
    assert(search(r, text, 0) == Some((0int, s2)));
}

/// The route of a greedy option or repetition of one character `c`, as the
/// whole pattern: the nodes of its single line, with their transitions in
/// the order the machine tries them.
proof fn lemma_greedy_char_shape(call: FunctionCall, c: char)
    requires
        call.name is Optional || call.name is ZeroOrMore,
        call.args@.len() > 0,
        call.args@[0] == FunctionCallArg::Expression(Expression::Literal(Literal::Char(c))),
    ensures
        ({
            let r = route_of(Expression::FunctionCall(Box::new(call)));
            let ch = TransitionView::Plain(
                Transition::Char(CharTransition { codepoint: c as u32, byte_length: utf8_len(c) as usize }),
            );
            let back: usize = if call.name is Optional { 3 } else { 2 };
            &&& r.lines.len() == 1
            &&& r.lines[0].start == 4
            &&& r.lines[0].end == 5
            &&& r.lines[0].nodes == seq![
                seq![ItemView { transition: ch, target: 1 }],
                seq![ItemView { transition: jump(), target: back }],
                seq![ItemView { transition: jump(), target: 0 }, ItemView { transition: jump(), target: 3 }],
                seq![
                    ItemView {
                        transition: TransitionView::Plain(
                            Transition::CaptureEnd(CaptureEndTransition { capture_group_index: 0 }),
                        ),
                        target: 5,
                    },
                ],
                seq![
                    ItemView {
                        transition: TransitionView::Plain(
                            Transition::CaptureStart(CaptureStartTransition { capture_group_index: 0 }),
                        ),
                        target: 2,
                    },
                ],
                Seq::<ItemView>::empty(),
            ]
        }),
{
    let e = Expression::Literal(Literal::Char(c));
    assert(decreases_to!(call => call.args@[0]));
    let rv0 = with_group(with_line(RouteView { lines: seq![], groups: seq![] }), None);
    let s = emit_spec(rv0, 0, 0, e);
    let x = call_spec(rv0, 0, 0, call);
    let r = route_of(Expression::FunctionCall(Box::new(call)));
    assert(rv0.lines.len() == 1);
    assert(rv0.lines[0].nodes.len() == 0);
    assert(s.route.lines[0].nodes.len() == 2);
    assert(s.port.in_node_index == 0 && s.port.out_node_index == 1);
    if call.name is Optional {
        assert(x == optional_around(s, 0, false));
    } else {
        assert(x == zero_or_more_around(s, 0, false));
    }
    let ch = TransitionView::Plain(
        Transition::Char(CharTransition { codepoint: c as u32, byte_length: utf8_len(c) as usize }),
    );
    assert(s.route.lines[0].nodes =~= seq![seq![ItemView { transition: ch, target: 1 }], Seq::<ItemView>::empty()]);
    let back: usize = if call.name is Optional { 3 } else { 2 };
    let r1 = with_node(with_node(s.route, 0), 0);
    assert(r1.lines[0].nodes =~= seq![
        seq![ItemView { transition: ch, target: 1 }],
        Seq::<ItemView>::empty(),
        Seq::<ItemView>::empty(),
        Seq::<ItemView>::empty(),
    ]);
    let r2 = with_item(r1, 0, 2, 0, jump());
    assert(r2.lines[0].nodes =~= seq![
        seq![ItemView { transition: ch, target: 1 }],
        Seq::<ItemView>::empty(),
        seq![ItemView { transition: jump(), target: 0 }],
        Seq::<ItemView>::empty(),
    ]);
    let r3 = with_item(r2, 0, 2, 3, jump());
    assert(r3.lines[0].nodes[2] =~= seq![ItemView { transition: jump(), target: 0 }, ItemView { transition: jump(), target: 3 }]);
    assert(r3.lines[0].nodes =~= seq![
        seq![ItemView { transition: ch, target: 1 }],
        Seq::<ItemView>::empty(),
        seq![ItemView { transition: jump(), target: 0 }, ItemView { transition: jump(), target: 3 }],
        Seq::<ItemView>::empty(),
    ]);
    assert(x.route == with_item(r3, 0, 1, back, jump()));
    assert(x.route.lines[0].nodes =~= seq![
        seq![ItemView { transition: ch, target: 1 }],
        seq![ItemView { transition: jump(), target: back }],
        seq![ItemView { transition: jump(), target: 0 }, ItemView { transition: jump(), target: 3 }],
        Seq::<ItemView>::empty(),
    ]);
    assert(x.route.lines.len() == 1);
    assert(x.route.lines[0].nodes.len() == 4);
    assert(x.port.in_node_index == 2 && x.port.out_node_index == 3);
    assert(r == main_around(x.route, x.port));
    assert(r.lines[0].nodes =~= seq![
        seq![
            ItemView {
                transition: TransitionView::Plain(
                    Transition::Char(CharTransition { codepoint: c as u32, byte_length: utf8_len(c) as usize }),
                ),
                target: 1,
            },
        ],
        seq![ItemView { transition: jump(), target: if call.name is Optional { 3usize } else { 2usize } }],
        seq![ItemView { transition: jump(), target: 0 }, ItemView { transition: jump(), target: 3 }],
        seq![
            ItemView {
                transition: TransitionView::Plain(
                    Transition::CaptureEnd(CaptureEndTransition { capture_group_index: 0 }),
                ),
                target: 5,
            },
        ],
        seq![
            ItemView {
                transition: TransitionView::Plain(
                    Transition::CaptureStart(CaptureStartTransition { capture_group_index: 0 }),
                ),
                target: 2,
            },
        ],
        Seq::<ItemView>::empty(),
    ]);
}

/// A frame of the machine at node `n`, its transition `next` to try next,
/// at position `pos`, with no counters open.
pub open spec fn frame(n: usize, next: usize, pos: usize) -> FrameView {
    FrameView { node: n, next, pos, counters: seq![] }
}

/// A greedy option or repetition, `c?` or `c*`, takes as much as it can:
/// as the whole pattern, at a text that starts with one `c` (not two), it
/// matches that character rather than the empty text.
pub proof fn greedy_forms_take_the_character(call: FunctionCall, c: char, r: Route, text: Seq<char>)
    requires
        call.name is Optional || call.name is ZeroOrMore,
        call.args@.len() > 0,
        call.args@[0] == FunctionCallArg::Expression(Expression::Literal(Literal::Char(c))),
        route_view(r) == route_of(Expression::FunctionCall(Box::new(call))),
        r.capture_groups@.len() >= 1,
        text.len() >= 1,
        text[0] == c,
        text.len() == 1 || text[1] != c,
    ensures
        leftmost(r, text, 0) == Some((0int, 1int)),
{
    lemma_greedy_char_shape(call, c);
    let v = route_view(r);
    assert(v.lines.len() == r.lines@.len());
    let l = r.lines@[0];
    assert(v.lines[0] == line_view(l));
    let nv = line_view(l).nodes;
    assert(nv.len() == l.nodes@.len());
    assert(l.start_node_index == 4 && l.end_node_index == 5);
    // the transitions of the route itself
    assert forall|n: int, k: int| 0 <= n < 6 && 0 <= k < nv[n].len() implies
        l.nodes@[n].transition_items@.len() == nv[n].len()
        && item_view(#[trigger] l.nodes@[n].transition_items@[k]) == nv[n][k] by {
        assert(nv[n] == node_view(l.nodes@[n]));
    }
    assert forall|n: int| 0 <= n < 6 implies #[trigger] l.nodes@[n].transition_items@.len() == nv[n].len() by {
        assert(nv[n] == node_view(l.nodes@[n]));
    }
    let ch = Transition::Char(CharTransition { codepoint: c as u32, byte_length: utf8_len(c) as usize });
    let i4 = l.nodes@[4].transition_items@[0];
    let i2a = l.nodes@[2].transition_items@[0];
    let i2b = l.nodes@[2].transition_items@[1];
    let i0 = l.nodes@[0].transition_items@[0];
    let i1 = l.nodes@[1].transition_items@[0];
    let i3 = l.nodes@[3].transition_items@[0];
    assert(transition_view(i4.transition) == TransitionView::Plain(
        Transition::CaptureStart(CaptureStartTransition { capture_group_index: 0 }),
    ));
    assert(transition_view(i2a.transition) == jump());
    assert(transition_view(i2b.transition) == jump());
    assert(transition_view(i0.transition) == TransitionView::Plain(ch));
    assert(transition_view(i1.transition) == jump());
    assert(transition_view(i3.transition) == TransitionView::Plain(
        Transition::CaptureEnd(CaptureEndTransition { capture_group_index: 0 }),
    ));
    let back: usize = if call.name is Optional { 3 } else { 2 };
    assert(i4.target_node_index == 2 && i2a.target_node_index == 0 && i2b.target_node_index == 3);
    assert(i0.target_node_index == 1 && i1.target_node_index == back && i3.target_node_index == 5);
    let k = r.capture_groups@.len();
    let init = initial_slots(k);
    let s1 = init.update(0, (0usize, 0usize));
    let s2 = s1.update(0, (s1[0].0, 1usize));
    assert(s2[0] == (0usize, 1usize));
    let fuel = FUEL as nat;
    let f4 = frame(4, 0, 0);
    assert(line_start(r, 0, 0) == f4);
    assert(step(r, text, f4, i4, init, (fuel - 1) as nat) == Some((frame(2, 0, 0), s1)));
    assert(step(r, text, frame(2, 0, 0), i2a, s1, (fuel - 2) as nat) == Some((frame(0, 0, 0), s1)));
    assert(step(r, text, frame(0, 0, 0), i0, s1, (fuel - 3) as nat) == Some((frame(1, 0, 1), s1)));
    let st3 = seq![frame(4, 1, 0), frame(2, 1, 0), frame(0, 1, 0)];
    if call.name is Optional {
        assert(step(r, text, frame(1, 0, 1), i1, s1, (fuel - 4) as nat) == Some((frame(3, 0, 1), s1)));
        assert(step(r, text, frame(3, 0, 1), i3, s1, (fuel - 5) as nat) == Some((frame(5, 0, 1), s2)));
        let st5 = st3.push(frame(1, 1, 1)).push(frame(3, 1, 1));
        assert(run(r, text, 0, None, st5.push(frame(5, 0, 1)), s2, (fuel - 5) as nat) == Some((1usize, s2)));
        assert(run(r, text, 0, None, st3.push(frame(1, 1, 1)).push(frame(3, 0, 1)), s1, (fuel - 4) as nat)
            == Some((1usize, s2))) by {
            assert(st3.push(frame(1, 1, 1)).push(frame(3, 0, 1)).drop_last() =~= st3.push(frame(1, 1, 1)));
        }
        assert(run(r, text, 0, None, st3.push(frame(1, 0, 1)), s1, (fuel - 3) as nat) == Some((1usize, s2))) by {
            assert(st3.push(frame(1, 0, 1)).drop_last() =~= st3);
        }
    } else {
        // the loop goes back to its entry and fails to read a second `c`,
        // then leaves the loop
        assert(step(r, text, frame(1, 0, 1), i1, s1, (fuel - 4) as nat) == Some((frame(2, 0, 1), s1)));
        assert(step(r, text, frame(2, 0, 1), i2a, s1, (fuel - 5) as nat) == Some((frame(0, 0, 1), s1)));
        if text.len() > 1 {
            vstd::utf8::char_u32_cast(text[1], text[1] as u32);
            vstd::utf8::char_u32_cast(c, c as u32);
        }
        assert(text.len() == 1 || (text[1] as u32) != (c as u32));
        assert(step(r, text, frame(0, 0, 1), i0, s1, (fuel - 6) as nat) is None);
        assert(step(r, text, frame(2, 1, 1), i2b, s1, (fuel - 8) as nat) == Some((frame(3, 0, 1), s1)));
        assert(step(r, text, frame(3, 0, 1), i3, s1, (fuel - 9) as nat) == Some((frame(5, 0, 1), s2)));
        let st4 = st3.push(frame(1, 1, 1));
        let st9 = st4.push(frame(2, 2, 1)).push(frame(3, 1, 1));
        assert(run(r, text, 0, None, st9.push(frame(5, 0, 1)), s2, (fuel - 9) as nat) == Some((1usize, s2)));
        assert(run(r, text, 0, None, st4.push(frame(2, 2, 1)).push(frame(3, 0, 1)), s1, (fuel - 8) as nat)
            == Some((1usize, s2))) by {
            assert(st4.push(frame(2, 2, 1)).push(frame(3, 0, 1)).drop_last() =~= st4.push(frame(2, 2, 1)));
        }
        assert(run(r, text, 0, None, st4.push(frame(2, 1, 1)), s1, (fuel - 7) as nat) == Some((1usize, s2))) by {
            assert(st4.push(frame(2, 1, 1)).drop_last() =~= st4);
        }
        assert(run(r, text, 0, None, st4.push(frame(2, 1, 1)).push(frame(0, 1, 1)), s1, (fuel - 6) as nat)
            == Some((1usize, s2))) by {
            assert(st4.push(frame(2, 1, 1)).push(frame(0, 1, 1)).drop_last() =~= st4.push(frame(2, 1, 1)));
        }
        assert(run(r, text, 0, None, st4.push(frame(2, 1, 1)).push(frame(0, 0, 1)), s1, (fuel - 5) as nat)
            == Some((1usize, s2))) by {
            assert(st4.push(frame(2, 1, 1)).push(frame(0, 0, 1)).drop_last() =~= st4.push(frame(2, 1, 1)));
        }
        assert(run(r, text, 0, None, st4.push(frame(2, 0, 1)), s1, (fuel - 4) as nat) == Some((1usize, s2))) by {
            assert(st4.push(frame(2, 0, 1)).drop_last() =~= st4);
        }
        assert(run(r, text, 0, None, st3.push(frame(1, 0, 1)), s1, (fuel - 3) as nat) == Some((1usize, s2))) by {
            assert(st3.push(frame(1, 0, 1)).drop_last() =~= st3);
        }
    }
    let st2 = seq![frame(4, 1, 0), frame(2, 1, 0)];
    assert(run(r, text, 0, None, st2.push(frame(0, 0, 0)), s1, (fuel - 2) as nat) == Some((1usize, s2))) by {
        assert(st2.push(frame(0, 0, 0)).drop_last() =~= st2);
        assert(st2.push(frame(0, 1, 0)) =~= st3);
    }
    let st1 = seq![frame(4, 1, 0)];
    assert(run(r, text, 0, None, st1.push(frame(2, 0, 0)), s1, (fuel - 1) as nat) == Some((1usize, s2))) by {
        assert(st1.push(frame(2, 0, 0)).drop_last() =~= st1);
        assert(st1.push(frame(2, 1, 0)) =~= st2);
    }
    assert(run(r, text, 0, None, seq![f4], init, fuel) == Some((1usize, s2))) by {
        assert(seq![f4].drop_last() =~= Seq::<FrameView>::empty());
        assert(Seq::<FrameView>::empty().push(frame(4, 1, 0)) =~= st1);
    }
    assert(search(r, text, 0) == Some((0int, s2)));
}

/// The route of a repetition once or more of one character `c`, as the
/// whole pattern: the nodes of its single line, with their transitions in
/// the order the machine tries them.
proof fn lemma_one_or_more_char_shape(call: FunctionCall, c: char)
    requires
        call.name is OneOrMore || call.name is LazyOneOrMore,
        call.args@.len() > 0,
        call.args@[0] == FunctionCallArg::Expression(Expression::Literal(Literal::Char(c))),
    ensures
        ({
            let r = route_of(Expression::FunctionCall(Box::new(call)));
            let ch = TransitionView::Plain(
                Transition::Char(CharTransition { codepoint: c as u32, byte_length: utf8_len(c) as usize }),
            );
            let choice = if call.name is LazyOneOrMore {
                seq![ItemView { transition: jump(), target: 4 }, ItemView { transition: jump(), target: 0 }]
            } else {
                seq![ItemView { transition: jump(), target: 0 }, ItemView { transition: jump(), target: 4 }]
            };
            &&& r.lines.len() == 1
            &&& r.lines[0].start == 5
            &&& r.lines[0].end == 6
            &&& r.lines[0].nodes == seq![
                seq![ItemView { transition: ch, target: 1 }],
                seq![ItemView { transition: jump(), target: 3 }],
                seq![ItemView { transition: jump(), target: 0 }],
                choice,
                seq![
                    ItemView {
                        transition: TransitionView::Plain(
                            Transition::CaptureEnd(CaptureEndTransition { capture_group_index: 0 }),
                        ),
                        target: 6,
                    },
                ],
                seq![
                    ItemView {
                        transition: TransitionView::Plain(
                            Transition::CaptureStart(CaptureStartTransition { capture_group_index: 0 }),
                        ),
                        target: 2,
                    },
                ],
                Seq::<ItemView>::empty(),
            ]
        }),
{
    let e = Expression::Literal(Literal::Char(c));
    assert(decreases_to!(call => call.args@[0]));
    let rv0 = with_group(with_line(RouteView { lines: seq![], groups: seq![] }), None);
    let s = emit_spec(rv0, 0, 0, e);
    let x = call_spec(rv0, 0, 0, call);
    let r = route_of(Expression::FunctionCall(Box::new(call)));
    let lazy = call.name is LazyOneOrMore;
    assert(rv0.lines.len() == 1);
    assert(rv0.lines[0].nodes.len() == 0);
    let ch = TransitionView::Plain(
        Transition::Char(CharTransition { codepoint: c as u32, byte_length: utf8_len(c) as usize }),
    );
    assert(s.route.lines[0].nodes =~= seq![seq![ItemView { transition: ch, target: 1 }], Seq::<ItemView>::empty()]);
    assert(s.port.in_node_index == 0 && s.port.out_node_index == 1);
    assert(x == one_or_more_around(s, 0, lazy));
    let e0 = Seq::<ItemView>::empty();
    let r1 = with_node(with_node(with_node(s.route, 0), 0), 0);
    assert(r1.lines[0].nodes =~= seq![seq![ItemView { transition: ch, target: 1 }], e0, e0, e0, e0]);
    let r2 = with_item(r1, 0, 2, 0, jump());
    assert(r2.lines[0].nodes[2] =~= seq![ItemView { transition: jump(), target: 0 }]);
    assert(r2.lines[0].nodes =~= seq![
        seq![ItemView { transition: ch, target: 1 }],
        e0,
        seq![ItemView { transition: jump(), target: 0 }],
        e0,
        e0,
    ]);
    let r3 = with_item(r2, 0, 1, 3, jump());
    assert(r3.lines[0].nodes[1] =~= seq![ItemView { transition: jump(), target: 3 }]);
    assert(r3.lines[0].nodes =~= seq![
        seq![ItemView { transition: ch, target: 1 }],
        seq![ItemView { transition: jump(), target: 3 }],
        seq![ItemView { transition: jump(), target: 0 }],
        e0,
        e0,
    ]);
    let (t1, t2): (usize, usize) = if lazy { (4, 0) } else { (0, 4) };
    let r4 = with_item(r3, 0, 3, t1, jump());
    assert(r4.lines[0].nodes[3] =~= seq![ItemView { transition: jump(), target: t1 }]);
    let r5 = with_item(r4, 0, 3, t2, jump());
    assert(r5.lines[0].nodes[3] =~= seq![ItemView { transition: jump(), target: t1 }, ItemView { transition: jump(), target: t2 }]);
    assert(x.route == r5);
    assert(x.route.lines[0].nodes =~= seq![
        seq![ItemView { transition: ch, target: 1 }],
        seq![ItemView { transition: jump(), target: 3 }],
        seq![ItemView { transition: jump(), target: 0 }],
        seq![ItemView { transition: jump(), target: t1 }, ItemView { transition: jump(), target: t2 }],
        e0,
    ]);
    assert(x.port.in_node_index == 2 && x.port.out_node_index == 4);
    assert(r == main_around(x.route, x.port));
    assert(r.lines[0].nodes[4] =~= seq![
        ItemView {
            transition: TransitionView::Plain(
                Transition::CaptureEnd(CaptureEndTransition { capture_group_index: 0 }),
            ),
            target: 6,
        },
    ]);
    assert(r.lines[0].nodes =~= seq![
        seq![ItemView { transition: ch, target: 1 }],
        seq![ItemView { transition: jump(), target: 3 }],
        seq![ItemView { transition: jump(), target: 0 }],
        seq![ItemView { transition: jump(), target: t1 }, ItemView { transition: jump(), target: t2 }],
        seq![
            ItemView {
                transition: TransitionView::Plain(
                    Transition::CaptureEnd(CaptureEndTransition { capture_group_index: 0 }),
                ),
                target: 6,
            },
        ],
        seq![
            ItemView {
                transition: TransitionView::Plain(
                    Transition::CaptureStart(CaptureStartTransition { capture_group_index: 0 }),
                ),
                target: 2,
            },
        ],
        e0,
    ]);
}

/// One move of the machine on line 0: the frame `f` on top of `stack`
/// tries its next transition, which holds and leads to `g` with slots `s2`.
proof fn lemma_run_taken(
    r: Route,
    text: Seq<char>,
    stack: Seq<FrameView>,
    f: FrameView,
    slots: Slots,
    fuel: nat,
    g: FrameView,
    s2: Slots,
)
    requires
        fuel > 0,
        r.lines@.len() >= 1,
        !crate::process::ends_line(r, 0, None, f),
        f.node < r.lines@[0].nodes@.len(),
        f.next < r.lines@[0].nodes@[f.node as int].transition_items@.len(),
        step(r, text, f, r.lines@[0].nodes@[f.node as int].transition_items@[f.next as int], slots, (fuel - 1) as nat)
            == Some((g, s2)),
    ensures
        run(r, text, 0, None, stack.push(f), slots, fuel) == run(
            r,
            text,
            0,
            None,
            stack.push(FrameView { next: (f.next + 1) as usize, ..f }).push(g),
            s2,
            (fuel - 1) as nat,
        ),
{
    assert(stack.push(f).last() == f);
    assert(stack.push(f).drop_last() =~= stack);
}

/// One move of the machine on line 0: the next transition of `f` does not
/// hold, and the machine tries the transition after it.
proof fn lemma_run_failed(r: Route, text: Seq<char>, stack: Seq<FrameView>, f: FrameView, slots: Slots, fuel: nat)
    requires
        fuel > 0,
        r.lines@.len() >= 1,
        !crate::process::ends_line(r, 0, None, f),
        f.node < r.lines@[0].nodes@.len(),
        f.next < r.lines@[0].nodes@[f.node as int].transition_items@.len(),
        step(r, text, f, r.lines@[0].nodes@[f.node as int].transition_items@[f.next as int], slots, (fuel - 1) as nat)
            is None,
    ensures
        run(r, text, 0, None, stack.push(f), slots, fuel) == run(
            r,
            text,
            0,
            None,
            stack.push(FrameView { next: (f.next + 1) as usize, ..f }),
            slots,
            (fuel - 1) as nat,
        ),
{
    assert(stack.push(f).last() == f);
    assert(stack.push(f).drop_last() =~= stack);
}

/// One move of the machine on line 0: `f` has no transition left to try,
/// and the machine goes back to the frame below it.
proof fn lemma_run_exhausted(r: Route, text: Seq<char>, stack: Seq<FrameView>, f: FrameView, slots: Slots, fuel: nat)
    requires
        fuel > 0,
        r.lines@.len() >= 1,
        !crate::process::ends_line(r, 0, None, f),
        f.node < r.lines@[0].nodes@.len(),
        f.next >= r.lines@[0].nodes@[f.node as int].transition_items@.len(),
    ensures
        run(r, text, 0, None, stack.push(f), slots, fuel) == run(r, text, 0, None, stack, slots, (fuel - 1) as nat),
{
    assert(stack.push(f).last() == f);
    assert(stack.push(f).drop_last() =~= stack);
}

/// The machine stands at the end node of line 0: the match ends there.
proof fn lemma_run_ends(r: Route, text: Seq<char>, stack: Seq<FrameView>, f: FrameView, slots: Slots, fuel: nat)
    requires
        fuel > 0,
        r.lines@.len() >= 1,
        crate::process::ends_line(r, 0, None, f),
    ensures
        run(r, text, 0, None, stack.push(f), slots, fuel) == Some((f.pos, slots)),
{
    assert(stack.push(f).last() == f);
}

/// The transitions of line 0 of a route are those of its value.
proof fn lemma_line0_items(r: Route)
    requires
        r.lines@.len() >= 1,
    ensures
        r.lines@[0].nodes@.len() == route_view(r).lines[0].nodes.len(),
        r.lines@[0].start_node_index == route_view(r).lines[0].start,
        r.lines@[0].end_node_index == route_view(r).lines[0].end,
        forall|n: int| 0 <= n < r.lines@[0].nodes@.len() ==> #[trigger] r.lines@[0].nodes@[n].transition_items@.len()
            == route_view(r).lines[0].nodes[n].len(),
        forall|n: int, k: int|
            0 <= n < r.lines@[0].nodes@.len() && 0 <= k < r.lines@[0].nodes@[n].transition_items@.len()
                ==> item_view(#[trigger] r.lines@[0].nodes@[n].transition_items@[k]) == route_view(r).lines[0].nodes[n][k],
{
    let l = r.lines@[0];
    assert(route_view(r).lines[0] == line_view(l));
    assert forall|n: int| 0 <= n < l.nodes@.len() implies #[trigger] l.nodes@[n].transition_items@.len()
        == route_view(r).lines[0].nodes[n].len() by {
        assert(line_view(l).nodes[n] == node_view(l.nodes@[n]));
    }
    assert forall|n: int, k: int| 0 <= n < l.nodes@.len() && 0 <= k < l.nodes@[n].transition_items@.len() implies
        item_view(#[trigger] l.nodes@[n].transition_items@[k]) == route_view(r).lines[0].nodes[n][k] by {
        assert(line_view(l).nodes[n] == node_view(l.nodes@[n]));
    }
}

/// A lazy repetition once or more, `c+?`, takes as little as it can: as
/// the whole pattern, at a text that starts with `c`, it matches that one
/// character, however many `c` follow.
pub proof fn lazy_one_or_more_takes_one(call: FunctionCall, c: char, r: Route, text: Seq<char>)
    requires
        call.name is LazyOneOrMore,
        call.args@.len() > 0,
        call.args@[0] == FunctionCallArg::Expression(Expression::Literal(Literal::Char(c))),
        route_view(r) == route_of(Expression::FunctionCall(Box::new(call))),
        r.capture_groups@.len() >= 1,
        text.len() >= 1,
        text[0] == c,
    ensures
        leftmost(r, text, 0) == Some((0int, 1int)),
{
    lemma_one_or_more_char_shape(call, c);
    assert(route_view(r).lines.len() == r.lines@.len());
    lemma_line0_items(r);
    let l = r.lines@[0];
    let ch = Transition::Char(CharTransition { codepoint: c as u32, byte_length: utf8_len(c) as usize });
    assert(transition_view(l.nodes@[0].transition_items@[0].transition) == TransitionView::Plain(ch));
    assert(transition_view(l.nodes@[1].transition_items@[0].transition) == jump());
    assert(transition_view(l.nodes@[2].transition_items@[0].transition) == jump());
    assert(transition_view(l.nodes@[3].transition_items@[0].transition) == jump());
    assert(transition_view(l.nodes@[4].transition_items@[0].transition) == TransitionView::Plain(
        Transition::CaptureEnd(CaptureEndTransition { capture_group_index: 0 }),
    ));
    assert(transition_view(l.nodes@[5].transition_items@[0].transition) == TransitionView::Plain(
        Transition::CaptureStart(CaptureStartTransition { capture_group_index: 0 }),
    ));
    let init = initial_slots(r.capture_groups@.len());
    let s1 = init.update(0, (0usize, 0usize));
    let s2 = s1.update(0, (s1[0].0, 1usize));
    let fl = FUEL as nat;
    assert(line_start(r, 0, 0) == frame(5, 0, 0));
    let e = Seq::<FrameView>::empty();
    let st1 = e.push(frame(5, 1, 0));
    let st2 = st1.push(frame(2, 1, 0));
    let st3 = st2.push(frame(0, 1, 0));
    let st4 = st3.push(frame(1, 1, 1));
    let st5 = st4.push(frame(3, 1, 1));
    lemma_run_ends(r, text, st5.push(frame(4, 1, 1)), frame(6, 0, 1), s2, (fl - 6) as nat);
    lemma_run_taken(r, text, st5, frame(4, 0, 1), s1, (fl - 5) as nat, frame(6, 0, 1), s2);
    lemma_run_taken(r, text, st4, frame(3, 0, 1), s1, (fl - 4) as nat, frame(4, 0, 1), s1);
    lemma_run_taken(r, text, st3, frame(1, 0, 1), s1, (fl - 3) as nat, frame(3, 0, 1), s1);
    lemma_run_taken(r, text, st2, frame(0, 0, 0), s1, (fl - 2) as nat, frame(1, 0, 1), s1);
    lemma_run_taken(r, text, st1, frame(2, 0, 0), s1, (fl - 1) as nat, frame(0, 0, 0), s1);
    lemma_run_taken(r, text, e, frame(5, 0, 0), init, fl, frame(2, 0, 0), s1);
    assert(e.push(frame(5, 0, 0)) =~= seq![frame(5, 0, 0)]);
    assert(search(r, text, 0) == Some((0int, s2)));
}

/// A greedy repetition once or more, `c+`, takes as much as it can: as
/// the whole pattern, at a text that starts with two `c` (not three), it
/// matches both.
pub proof fn greedy_one_or_more_takes_all(call: FunctionCall, c: char, r: Route, text: Seq<char>)
    requires
        call.name is OneOrMore,
        call.args@.len() > 0,
        call.args@[0] == FunctionCallArg::Expression(Expression::Literal(Literal::Char(c))),
        route_view(r) == route_of(Expression::FunctionCall(Box::new(call))),
        r.capture_groups@.len() >= 1,
        text.len() >= 2,
        text[0] == c,
        text[1] == c,
        text.len() == 2 || text[2] != c,
    ensures
        leftmost(r, text, 0) == Some((0int, 2int)),
{
    lemma_one_or_more_char_shape(call, c);
    assert(route_view(r).lines.len() == r.lines@.len());
    lemma_line0_items(r);
    let l = r.lines@[0];
    let ch = Transition::Char(CharTransition { codepoint: c as u32, byte_length: utf8_len(c) as usize });
    assert(transition_view(l.nodes@[0].transition_items@[0].transition) == TransitionView::Plain(ch));
    assert(transition_view(l.nodes@[1].transition_items@[0].transition) == jump());
    assert(transition_view(l.nodes@[2].transition_items@[0].transition) == jump());
    assert(transition_view(l.nodes@[3].transition_items@[0].transition) == jump());
    assert(transition_view(l.nodes@[3].transition_items@[1].transition) == jump());
    assert(transition_view(l.nodes@[4].transition_items@[0].transition) == TransitionView::Plain(
        Transition::CaptureEnd(CaptureEndTransition { capture_group_index: 0 }),
    ));
    assert(transition_view(l.nodes@[5].transition_items@[0].transition) == TransitionView::Plain(
        Transition::CaptureStart(CaptureStartTransition { capture_group_index: 0 }),
    ));
    if text.len() > 2 {
        vstd::utf8::char_u32_cast(text[2], text[2] as u32);
        vstd::utf8::char_u32_cast(c, c as u32);
    }
    let init = initial_slots(r.capture_groups@.len());
    let s1 = init.update(0, (0usize, 0usize));
    let s2 = s1.update(0, (s1[0].0, 2usize));
    let fl = FUEL as nat;
    assert(line_start(r, 0, 0) == frame(5, 0, 0));
    let e = Seq::<FrameView>::empty();
    let st1 = e.push(frame(5, 1, 0));
    let st2 = st1.push(frame(2, 1, 0));
    let st3 = st2.push(frame(0, 1, 0));
    let st4 = st3.push(frame(1, 1, 1));
    let st5 = st4.push(frame(3, 1, 1));
    let st6 = st5.push(frame(0, 1, 1));
    let st7 = st6.push(frame(1, 1, 2));
    assert(step(r, text, frame(0, 0, 2), l.nodes@[0].transition_items@[0], s1, (fl - 9) as nat) is None);
    lemma_run_ends(r, text, st7.push(frame(3, 2, 2)).push(frame(4, 1, 2)), frame(6, 0, 2), s2, (fl - 12) as nat);
    lemma_run_taken(r, text, st7.push(frame(3, 2, 2)), frame(4, 0, 2), s1, (fl - 11) as nat, frame(6, 0, 2), s2);
    lemma_run_taken(r, text, st7, frame(3, 1, 2), s1, (fl - 10) as nat, frame(4, 0, 2), s1);
    lemma_run_exhausted(r, text, st7.push(frame(3, 1, 2)), frame(0, 1, 2), s1, (fl - 9) as nat);
    lemma_run_failed(r, text, st7.push(frame(3, 1, 2)), frame(0, 0, 2), s1, (fl - 8) as nat);
    lemma_run_taken(r, text, st7, frame(3, 0, 2), s1, (fl - 7) as nat, frame(0, 0, 2), s1);
    lemma_run_taken(r, text, st6, frame(1, 0, 2), s1, (fl - 6) as nat, frame(3, 0, 2), s1);
    lemma_run_taken(r, text, st5, frame(0, 0, 1), s1, (fl - 5) as nat, frame(1, 0, 2), s1);
    lemma_run_taken(r, text, st4, frame(3, 0, 1), s1, (fl - 4) as nat, frame(0, 0, 1), s1);
    lemma_run_taken(r, text, st3, frame(1, 0, 1), s1, (fl - 3) as nat, frame(3, 0, 1), s1);
    lemma_run_taken(r, text, st2, frame(0, 0, 0), s1, (fl - 2) as nat, frame(1, 0, 1), s1);
    lemma_run_taken(r, text, st1, frame(2, 0, 0), s1, (fl - 1) as nat, frame(0, 0, 0), s1);
    lemma_run_taken(r, text, e, frame(5, 0, 0), init, fl, frame(2, 0, 0), s1);
    assert(e.push(frame(5, 0, 0)) =~= seq![frame(5, 0, 0)]);
    assert(search(r, text, 0) == Some((0int, s2)));
}

} // verus!
