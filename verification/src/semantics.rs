use vstd::prelude::*;

use crate::compiler::{capture_end_zero, capture_start_zero, line_finished, main_line_shaped, route_wf, zero_free};
use crate::process::{
    bounded, ends_line, frame_at, initial_slots, lemma_run_bounded, line_start, match_at, run,
    search, step, FrameView, Slots, FUEL,
};
use crate::route::{Route, TransitionItem};
use crate::transition::Transition;

verus! {

/// A step moves to the target of its transition, at the start of that node,
/// and never moves backwards in the text.
proof fn lemma_step_moves(
    route: Route,
    text: Seq<char>,
    f: FrameView,
    item: TransitionItem,
    slots: Slots,
    fuel: nat,
)
    requires
        text.len() <= usize::MAX,
    ensures
        step(route, text, f, item, slots, fuel) matches Some((g, s2)) ==> {
            &&& g.node == item.target_node_index
            &&& g.next == 0
            &&& g.pos >= f.pos
            &&& s2.len() == slots.len()
        },
{
}

/// A step keeps the slot of capture group 0, unless its transition starts
/// or ends group 0; starting sets the slot to the position, ending sets
/// its end to the position.
proof fn lemma_step_slot_zero(
    route: Route,
    text: Seq<char>,
    f: FrameView,
    item: TransitionItem,
    slots: Slots,
    fuel: nat,
)
    requires
        slots.len() >= 1,
    ensures
        step(route, text, f, item, slots, fuel) matches Some((g, s2)) ==> {
            &&& zero_free(item.transition) ==> s2[0] == slots[0]
            &&& item.transition == capture_end_zero() ==> s2[0] == (slots[0].0, f.pos)
            &&& item.transition == capture_start_zero() ==> s2[0] == (f.pos, f.pos)
        },
{
}

/// The state of the machine on the main line of a shaped route, searching
/// from `st`: the stack is the first frame, or group 0 has started at
/// `st`; no frame stands at the start node ready to start group 0 again;
/// a frame at the end node is the last of the stack and stands where
/// group 0 ended; no frame stands before `st`.
spec fn main_state(route: Route, st: int, stack: Seq<FrameView>, slots: Slots) -> bool {
    let l = route.lines@[0];
    let s = l.start_node_index;
    let e = l.end_node_index;
    let first = stack.len() == 1 && stack[0] == frame_at(s, st as usize, seq![]);
    &&& slots.len() >= 1
    &&& forall|i: int| 0 <= i < stack.len() ==> st <= (#[trigger] stack[i]).pos
    &&& first || slots[0].0 == st
    &&& forall|i: int| 0 <= i < stack.len() && (#[trigger] stack[i]).node == s ==> first || stack[i].next >= 1
    &&& forall|i: int|
        0 <= i < stack.len() && (#[trigger] stack[i]).node == e ==> i == stack.len() - 1
            && stack[i].next == 0 && stack[i].pos == slots[0].1
}

/// On a shaped route, a match of the main line from `st` ends at some `e`
/// at or after `st`, and capture group 0 holds exactly `st..e`.
proof fn lemma_main_run(
    route: Route,
    text: Seq<char>,
    st: int,
    stack: Seq<FrameView>,
    slots: Slots,
    fuel: nat,
)
    requires
        route.lines@.len() >= 1,
        line_finished(route.lines@[0]),
        main_line_shaped(route),
        0 <= st <= usize::MAX,
        text.len() <= usize::MAX,
        main_state(route, st, stack, slots),
    ensures
        run(route, text, 0, None, stack, slots, fuel) matches Some((e, s2)) ==> s2[0] == (
            st as usize,
            e,
        ) && st <= e,
    decreases fuel,
{
    let l = route.lines@[0];
    let s = l.start_node_index;
    let en = l.end_node_index;
    if fuel == 0 || stack.len() == 0 {
    } else {
        let f = stack.last();
        let rest = stack.drop_last();
        let first = stack.len() == 1 && stack[0] == frame_at(s, st as usize, seq![]);
        assert(stack[stack.len() - 1] == f);
        if ends_line(route, 0, None, f) {
            assert(f.node == en);
        } else if f.node >= l.nodes@.len() || f.next >= l.nodes@[f.node as int].transition_items@.len() {
            assert(!first);
            assert(main_state(route, st, rest, slots)) by {
                assert forall|i: int| 0 <= i < rest.len() implies #[trigger] rest[i] == stack[i] by {}
            }
            lemma_main_run(route, text, st, rest, slots, (fuel - 1) as nat);
        } else {
            let item = l.nodes@[f.node as int].transition_items@[f.next as int];
            let alt = rest.push(FrameView { next: (f.next + 1) as usize, ..f });
            lemma_step_moves(route, text, f, item, slots, (fuel - 1) as nat);
            lemma_step_slot_zero(route, text, f, item, slots, (fuel - 1) as nat);
            assert(f.node != en);
            if f.node == s && f.next == 0 {
                assert(first);
                assert(item.transition == capture_start_zero());
            } else {
                assert(f.node != s);
                assert(!first);
            }
            assert forall|i: int| 0 <= i < alt.len() implies (#[trigger] alt[i]).node != en && (alt[i].node == s
                ==> alt[i].next >= 1) && st <= alt[i].pos by {
                if i < rest.len() {
                    assert(alt[i] == stack[i]);
                }
            }
            match step(route, text, f, item, slots, (fuel - 1) as nat) {
                Some((g, s2)) => {
                    let next = alt.push(g);
                    assert(g.node != s);
                    assert(s2[0].0 == st);
                    assert(g.node == en ==> item.transition == capture_end_zero());
                    assert(main_state(route, st, next, s2)) by {
                        assert forall|i: int| 0 <= i < next.len() implies st <= (#[trigger] next[i]).pos by {
                            if i < alt.len() {
                                assert(next[i] == alt[i]);
                            }
                        }
                        assert forall|i: int| 0 <= i < next.len() && (#[trigger] next[i]).node == en implies i
                            == next.len() - 1 && next[i].next == 0 && next[i].pos == s2[0].1 by {
                            if i < alt.len() {
                                assert(next[i] == alt[i]);
                            }
                        }
                        assert forall|i: int| 0 <= i < next.len() && (#[trigger] next[i]).node == s implies next[i].next >= 1 by {
                            if i < alt.len() {
                                assert(next[i] == alt[i]);
                            }
                        }
                    }
                    lemma_main_run(route, text, st, next, s2, (fuel - 1) as nat);
                },
                None => {
                    assert(slots[0].0 == st);
                    assert(main_state(route, st, alt, slots));
                    lemma_main_run(route, text, st, alt, slots, (fuel - 1) as nat);
                },
            }
        }
    }
}

/// The leftmost match at or after `from`: where it starts and where it
/// ends, in characters.
pub open spec fn leftmost(route: Route, text: Seq<char>, from: int) -> Option<(int, int)> {
    match search(route, text, from) {
        Some((st, slots)) => Some((st, slots[0].1 as int)),
        None => None,
    }
}

/// On a well-formed route, the leftmost match starts at or after `from`,
/// ends at or after its start and within the text, and capture group 0
/// holds exactly its range.
pub proof fn lemma_search_main(route: Route, text: Seq<char>, from: int)
    requires
        route_wf(route),
        text.len() <= usize::MAX,
    ensures
        search(route, text, from) matches Some((st, slots)) ==> {
            &&& from <= st
            &&& st < text.len()
            &&& slots.len() == route.capture_groups@.len()
            &&& slots[0].0 == st
            &&& st <= slots[0].1 <= text.len()
            &&& bounded(seq![], slots, text.len())
        },
    decreases text.len() - from,
{
    if from < 0 || from >= text.len() {
    } else {
        let k = route.capture_groups@.len();
        let init = initial_slots(k);
        let stack = seq![line_start(route, 0, from as usize)];
        assert(line_finished(route.lines@[0]));
        assert(main_state(route, from, stack, init)) by {
            assert(stack[0] == frame_at(route.lines@[0].start_node_index, from as usize, seq![]));
        }
        lemma_main_run(route, text, from, stack, init, FUEL as nat);
        assert(bounded(stack, init, text.len())) by {
            assert(stack[0].pos == from);
        }
        lemma_run_bounded(route, text, 0, None, stack, init, FUEL as nat);
        lemma_search_main(route, text, from + 1);
    }
}

} // verus!
