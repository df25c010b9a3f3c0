use vstd::prelude::*;

use crate::route::{Route, TransitionItem};
use crate::transition::{CharSetItem, RepetitionType, Transition};

verus! {

/// The budget of steps of one search. It is large enough that no search
/// exhausts it in practice; it bounds the work of the machine so that every
/// search ends.
pub const FUEL: u64 = 0x7fff_ffff_ffff_ffff;

/// A choice point of the backtracking machine: a node, the index of the
/// next transition to try from it, the position in the text (in
/// characters), and the open repetition counters, innermost last.
pub struct Frame {
    pub node: usize,
    pub next: usize,
    pub pos: usize,
    pub counters: Vec<usize>,
}

/// The value of a `Frame`.
pub struct FrameView {
    pub node: usize,
    pub next: usize,
    pub pos: usize,
    pub counters: Seq<usize>,
}

impl View for Frame {
    type V = FrameView;

    open spec fn view(&self) -> FrameView {
        FrameView { node: self.node, next: self.next, pos: self.pos, counters: self.counters@ }
    }
}

/// The capture slots: for each capture group, where its last capture
/// started and ended.
pub type Slots = Seq<(usize, usize)>;

/// The item holds the code point.
pub open spec fn item_contains(item: CharSetItem, v: u32) -> bool {
    match item {
        CharSetItem::Char(c) => c == v,
        CharSetItem::Range(r) => r.start <= v <= r.end_inclusive,
    }
}

/// Some item of the set holds the code point.
pub open spec fn in_items(items: Seq<CharSetItem>, v: u32) -> bool {
    exists|i: int| 0 <= i < items.len() && item_contains(#[trigger] items[i], v)
}

/// A word character: a letter of the Latin alphabet, a digit or `_`.
pub open spec fn is_word_char(c: char) -> bool {
    ('A' <= c <= 'Z') || ('a' <= c <= 'z') || ('0' <= c <= '9') || c == '_'
}

/// A word character stands just before the position.
pub open spec fn word_before(text: Seq<char>, p: int) -> bool {
    0 < p <= text.len() && is_word_char(text[p - 1])
}

/// A word character stands at the position.
pub open spec fn word_after(text: Seq<char>, p: int) -> bool {
    0 <= p < text.len() && is_word_char(text[p])
}

/// The count of repetitions is enough to leave the repetition.
pub open spec fn lower_ok(t: RepetitionType, c: usize) -> bool {
    match t {
        RepetitionType::Repeat(n) => c >= n,
        RepetitionType::RepeatFrom(m) => c >= m,
        RepetitionType::RepeatRange(m, _) => c >= m,
    }
}

/// The count of repetitions allows one more.
pub open spec fn upper_ok(t: RepetitionType, c: usize) -> bool {
    match t {
        RepetitionType::Repeat(n) => c < n,
        RepetitionType::RepeatFrom(_) => true,
        RepetitionType::RepeatRange(_, n) => c < n,
    }
}

/// The first frame of a line, at a position.
pub open spec fn line_start(route: Route, line: int, pos: usize) -> FrameView {
    FrameView { node: route.lines@[line].start_node_index, next: 0, pos, counters: seq![] }
}

/// A frame at the start of a node.
pub open spec fn frame_at(node: usize, pos: usize, counters: Seq<usize>) -> FrameView {
    FrameView { node, next: 0, pos, counters }
}

/// The text from `p` on starts with the characters of `s..e`.
pub open spec fn repeats_at(text: Seq<char>, p: int, s: int, e: int) -> bool {
    &&& 0 <= s <= e <= text.len()
    &&& 0 <= p
    &&& p + (e - s) <= text.len()
    &&& text.subrange(p, p + (e - s)) == text.subrange(s, e)
}

/// The text from `p` on starts with the given code points.
pub open spec fn string_at(text: Seq<char>, p: int, cs: Seq<u32>) -> bool {
    &&& 0 <= p
    &&& p + cs.len() <= text.len()
    &&& forall|k: int| 0 <= k < cs.len() ==> text[p + k] as u32 == #[trigger] cs[k]
}

/// The outcome of trying one transition from a frame: the frame at its
/// target and the slots after it, or nothing where it does not hold.
/// A look-around runs its line with the fuel left.
pub open spec fn step(
    route: Route,
    text: Seq<char>,
    f: FrameView,
    item: TransitionItem,
    slots: Slots,
    fuel: nat,
) -> Option<(FrameView, Slots)>
    decreases fuel, 1nat,
{
    let n = text.len();
    let p = f.pos as int;
    let target = item.target_node_index;
    let stay = Some((frame_at(target, f.pos, f.counters), slots));
    match item.transition {
        Transition::Jump(_) => stay,
        Transition::Char(t) => if p < n && text[p] as u32 == t.codepoint {
            Some((frame_at(target, (p + 1) as usize, f.counters), slots))
        } else {
            None
        },
        Transition::AnyChar(_) => if p < n && text[p] != '\n' && text[p] != '\r' {
            Some((frame_at(target, (p + 1) as usize, f.counters), slots))
        } else {
            None
        },
        Transition::String(t) => if string_at(text, p, t.codepoints@) {
            Some((frame_at(target, (p + t.codepoints@.len()) as usize, f.counters), slots))
        } else {
            None
        },
        Transition::CharSet(t) => if p < n && in_items(t.items@, text[p] as u32) != t.negative {
            Some((frame_at(target, (p + 1) as usize, f.counters), slots))
        } else {
            None
        },
        Transition::BackReference(t) => if t.capture_group_index < slots.len() && repeats_at(
            text,
            p,
            slots[t.capture_group_index as int].0 as int,
            slots[t.capture_group_index as int].1 as int,
        ) {
            let len = slots[t.capture_group_index as int].1 - slots[t.capture_group_index as int].0;
            Some((frame_at(target, (p + len) as usize, f.counters), slots))
        } else {
            None
        },
        Transition::LineBoundaryAssertion(t) => if (if t.is_end {
            p == n
        } else {
            p == 0
        }) {
            stay
        } else {
            None
        },
        Transition::WordBoundaryAssertion(t) => if (word_before(text, p) != word_after(text, p))
            != t.is_negative {
            stay
        } else {
            None
        },
        Transition::CaptureStart(t) => if t.capture_group_index < slots.len() {
            Some(
                (
                    frame_at(target, f.pos, f.counters),
                    slots.update(t.capture_group_index as int, (f.pos, f.pos)),
                ),
            )
        } else {
            None
        },
        Transition::CaptureEnd(t) => if t.capture_group_index < slots.len() {
            Some(
                (
                    frame_at(target, f.pos, f.counters),
                    slots.update(
                        t.capture_group_index as int,
                        (slots[t.capture_group_index as int].0, f.pos),
                    ),
                ),
            )
        } else {
            None
        },
        Transition::CounterReset(_) => Some((frame_at(target, f.pos, f.counters.push(0)), slots)),
        Transition::CounterIncrement(_) => if f.counters.len() > 0 && f.counters.last()
            < usize::MAX {
            Some(
                (
                    frame_at(
                        target,
                        f.pos,
                        f.counters.update(
                            f.counters.len() - 1,
                            (f.counters.last() + 1) as usize,
                        ),
                    ),
                    slots,
                ),
            )
        } else {
            None
        },
        Transition::RepetitionForward(t) => if f.counters.len() > 0 && lower_ok(
            t.repetition_type,
            f.counters.last(),
        ) {
            Some((frame_at(target, f.pos, f.counters.drop_last()), slots))
        } else {
            None
        },
        Transition::RepetitionBack(t) => if f.counters.len() > 0 && upper_ok(
            t.repetition_type,
            f.counters.last(),
        ) {
            stay
        } else {
            None
        },
        Transition::LookAheadAssertion(t) => if fuel > 0 && t.route_index < route.lines@.len() {
            let found = run(
                route,
                text,
                t.route_index as int,
                None,
                seq![line_start(route, t.route_index as int, f.pos)],
                slots,
                (fuel - 1) as nat,
            ) is Some;
            if found != t.is_negative {
                stay
            } else {
                None
            }
        } else {
            None
        },
        Transition::LookBehindAssertion(t) => if fuel > 0 && t.route_index < route.lines@.len() {
            let found = f.pos >= t.match_length_in_char && run(
                route,
                text,
                t.route_index as int,
                Some(f.pos),
                seq![
                    line_start(
                        route,
                        t.route_index as int,
                        (f.pos - t.match_length_in_char) as usize,
                    ),
                ],
                slots,
                (fuel - 1) as nat,
            ) is Some;
            if found != t.is_negative {
                stay
            } else {
                None
            }
        } else {
            None
        },
    }
}

/// The frame ends the match: it stands at the end node of the line before
/// trying any transition, at the required end position if there is one.
pub open spec fn ends_line(route: Route, line: int, end_at: Option<usize>, f: FrameView) -> bool {
    &&& f.next == 0
    &&& f.node == route.lines@[line].end_node_index
    &&& (end_at matches Some(e) ==> f.pos == e)
}

/// The backtracking machine: it takes the last frame of the stack; if the
/// frame ends the line, the match ends there; otherwise it tries the next
/// transition of the frame, keeping the frame to try the transition after
/// it on backtracking, and goes on from the target of the transition when
/// it holds. Each step costs one unit of fuel. The result is the end
/// position of the match and the capture slots.
pub open spec fn run(
    route: Route,
    text: Seq<char>,
    line: int,
    end_at: Option<usize>,
    stack: Seq<FrameView>,
    slots: Slots,
    fuel: nat,
) -> Option<(usize, Slots)>
    decreases fuel, 2nat,
{
    if fuel == 0 || stack.len() == 0 || line < 0 || line >= route.lines@.len() {
        None
    } else {
        let f = stack.last();
        let rest = stack.drop_last();
        let l = route.lines@[line];
        if ends_line(route, line, end_at, f) {
            Some((f.pos, slots))
        } else if f.node >= l.nodes@.len() || f.next >= l.nodes@[f.node as int].transition_items@.len() {
            run(route, text, line, end_at, rest, slots, (fuel - 1) as nat)
        } else {
            let item = l.nodes@[f.node as int].transition_items@[f.next as int];
            let alt = rest.push(FrameView { next: (f.next + 1) as usize, ..f });
            match step(route, text, f, item, slots, (fuel - 1) as nat) {
                Some((g, s2)) => run(route, text, line, end_at, alt.push(g), s2, (fuel - 1) as nat),
                None => run(route, text, line, end_at, alt, slots, (fuel - 1) as nat),
            }
        }
    }
}

/// The slots at the start of a search: every capture empty at the start of
/// the text.
pub open spec fn initial_slots(n: nat) -> Slots {
    Seq::new(n, |i: int| (0usize, 0usize))
}

/// The match of the route's main line that starts at `start`, if any.
pub open spec fn match_at(route: Route, text: Seq<char>, start: int) -> Option<(usize, Slots)> {
    run(
        route,
        text,
        0,
        None,
        seq![line_start(route, 0, start as usize)],
        initial_slots(route.capture_groups@.len()),
        FUEL as nat,
    )
}

/// The leftmost match that starts at `from` or later and before the end of
/// the text: its start and its slots.
pub open spec fn search(route: Route, text: Seq<char>, from: int) -> Option<(int, Slots)>
    decreases text.len() - from,
{
    if from < 0 || from >= text.len() {
        None
    } else {
        match match_at(route, text, from) {
            Some((_, slots)) => Some((from, slots)),
            None => search(route, text, from + 1),
        }
    }
}

fn copy_counters(v: &Vec<usize>) -> (r: Vec<usize>)
    ensures
        r@ == v@,
{
    let mut r: Vec<usize> = Vec::new();
    let mut i: usize = 0;
    while i < v.len()
        invariant
            i <= v@.len(),
            r@ == v@.take(i as int),
        decreases v.len() - i,
    {
        r.push(v[i]);
        i = i + 1;
        proof {
            assert(r@ =~= v@.take(i as int));
        }
    }
    proof {
        assert(v@.take(i as int) =~= v@);
    }
    r
}

fn copy_slots(v: &Vec<(usize, usize)>) -> (r: Vec<(usize, usize)>)
    ensures
        r@ == v@,
{
    let mut r: Vec<(usize, usize)> = Vec::new();
    let mut i: usize = 0;
    while i < v.len()
        invariant
            i <= v@.len(),
            r@ == v@.take(i as int),
        decreases v.len() - i,
    {
        r.push(v[i]);
        i = i + 1;
        proof {
            assert(r@ =~= v@.take(i as int));
        }
    }
    proof {
        assert(v@.take(i as int) =~= v@);
    }
    r
}

/// Whether some item of a character set holds the code point.
fn items_contain(items: &Vec<CharSetItem>, v: u32) -> (r: bool)
    ensures
        r == in_items(items@, v),
{
    let mut i: usize = 0;
    while i < items.len()
        invariant
            i <= items@.len(),
            forall|k: int| 0 <= k < i ==> !item_contains(#[trigger] items@[k], v),
        decreases items.len() - i,
    {
        let hit = match items[i] {
            CharSetItem::Char(c) => c == v,
            CharSetItem::Range(r) => r.start <= v && v <= r.end_inclusive,
        };
        if hit {
            assert(item_contains(items@[i as int], v));
            return true;
        }
        i = i + 1;
    }
    false
}

fn char_is_word(c: char) -> (r: bool)
    ensures
        r == is_word_char(c),
{
    ('A' <= c && c <= 'Z') || ('a' <= c && c <= 'z') || ('0' <= c && c <= '9') || c == '_'
}

/// Whether the text holds the code points from position `p` on.
fn string_matches(text: &Vec<char>, p: usize, cs: &Vec<u32>) -> (r: bool)
    ensures
        r == string_at(text@, p as int, cs@),
{
    if cs.len() > text.len() || p > text.len() - cs.len() {
        return false;
    }
    let tl = text.len();
    let mut k: usize = 0;
    while k < cs.len()
        invariant
            tl == text@.len(),
            k <= cs@.len(),
            p + cs@.len() <= text@.len(),
            forall|j: int| 0 <= j < k ==> text@[p + j] as u32 == #[trigger] cs@[j],
        decreases cs.len() - k,
    {
        if text[p + k] as u32 != cs[k] {
            return false;
        }
        k = k + 1;
    }
    true
}

/// Whether the text from `p` on repeats the characters `s..e`.
fn repeats(text: &Vec<char>, p: usize, s: usize, e: usize) -> (r: bool)
    ensures
        r == repeats_at(text@, p as int, s as int, e as int),
{
    if !(s <= e && e <= text.len()) {
        return false;
    }
    let len = e - s;
    if len > text.len() || p > text.len() - len {
        return false;
    }
    let tl = text.len();
    let mut k: usize = 0;
    while k < len
        invariant
            tl == text@.len(),
            k <= len,
            len == e - s,
            s <= e <= text@.len(),
            p + len <= text@.len(),
            forall|j: int| 0 <= j < k ==> #[trigger] text@.subrange(p as int, p + len)[j] == text@.subrange(s as int, e as int)[j],
        decreases len - k,
    {
        if text[p + k] != text[s + k] {
            proof {
                assert(text@.subrange(p as int, p + len)[k as int] != text@.subrange(
                    s as int,
                    e as int,
                )[k as int]);
            }
            return false;
        }
        assert(text@.subrange(p as int, p + len)[k as int] == text@[p + k]);
        assert(text@.subrange(s as int, e as int)[k as int] == text@[s + k]);
        k = k + 1;
    }
    proof {
        assert(text@.subrange(p as int, p + len) =~= text@.subrange(s as int, e as int));
    }
    true
}

fn lower_ok_exec(t: RepetitionType, c: usize) -> (r: bool)
    ensures
        r == lower_ok(t, c),
{
    match t {
        RepetitionType::Repeat(n) => c >= n,
        RepetitionType::RepeatFrom(m) => c >= m,
        RepetitionType::RepeatRange(m, _) => c >= m,
    }
}

fn upper_ok_exec(t: RepetitionType, c: usize) -> (r: bool)
    ensures
        r == upper_ok(t, c),
{
    match t {
        RepetitionType::Repeat(n) => c < n,
        RepetitionType::RepeatFrom(_) => true,
        RepetitionType::RepeatRange(_, n) => c < n,
    }
}

/// A frame at the start of a node.
fn frame_to(node: usize, pos: usize, counters: Vec<usize>) -> (g: Frame)
    ensures
        g@ == frame_at(node, pos, counters@),
{
    Frame { node, next: 0, pos, counters }
}

/// Tries one transition from a frame: the frame at its target, with the
/// capture slots updated, or nothing where the transition does not hold.
fn step_exec(
    route: &Route,
    text: &Vec<char>,
    f: &Frame,
    item: &TransitionItem,
    slots: &mut Vec<(usize, usize)>,
    fuel: u64,
) -> (r: Option<Frame>)
    ensures
        match step(*route, text@, f@, *item, old(slots)@, fuel as nat) {
            Some((g, s2)) => r matches Some(h) && h@ == g && final(slots)@ == s2,
            None => r is None && final(slots)@ == old(slots)@,
        },
    decreases fuel, 1nat,
{
    let n = text.len();
    let p = f.pos;
    let target = item.target_node_index;
    match &item.transition {
        Transition::Jump(_) => Some(frame_to(target, p, copy_counters(&f.counters))),
        Transition::Char(t) => {
            if p < n && text[p] as u32 == t.codepoint {
                Some(frame_to(target, p + 1, copy_counters(&f.counters)))
            } else {
                None
            }
        },
        Transition::AnyChar(_) => {
            if p < n && text[p] != '\n' && text[p] != '\r' {
                Some(frame_to(target, p + 1, copy_counters(&f.counters)))
            } else {
                None
            }
        },
        Transition::String(t) => {
            if string_matches(text, p, &t.codepoints) {
                Some(frame_to(target, p + t.codepoints.len(), copy_counters(&f.counters)))
            } else {
                None
            }
        },
        Transition::CharSet(t) => {
            if p < n && items_contain(&t.items, text[p] as u32) != t.negative {
                Some(frame_to(target, p + 1, copy_counters(&f.counters)))
            } else {
                None
            }
        },
        Transition::BackReference(t) => {
            let i = t.capture_group_index;
            if i < slots.len() {
                let (s, e) = slots[i];
                if repeats(text, p, s, e) {
                    Some(frame_to(target, p + (e - s), copy_counters(&f.counters)))
                } else {
                    None
                }
            } else {
                None
            }
        },
        Transition::LineBoundaryAssertion(t) => {
            let holds = if t.is_end {
                p == n
            } else {
                p == 0
            };
            if holds {
                Some(frame_to(target, p, copy_counters(&f.counters)))
            } else {
                None
            }
        },
        Transition::WordBoundaryAssertion(t) => {
            let before = p > 0 && p <= n && char_is_word(text[p - 1]);
            let after = p < n && char_is_word(text[p]);
            if (before != after) != t.is_negative {
                Some(frame_to(target, p, copy_counters(&f.counters)))
            } else {
                None
            }
        },
        Transition::CaptureStart(t) => {
            let i = t.capture_group_index;
            if i < slots.len() {
                slots[i] = (p, p);
                Some(frame_to(target, p, copy_counters(&f.counters)))
            } else {
                None
            }
        },
        Transition::CaptureEnd(t) => {
            let i = t.capture_group_index;
            if i < slots.len() {
                let start = slots[i].0;
                slots[i] = (start, p);
                Some(frame_to(target, p, copy_counters(&f.counters)))
            } else {
                None
            }
        },
        Transition::CounterReset(_) => {
            let mut c = copy_counters(&f.counters);
            c.push(0);
            Some(frame_to(target, p, c))
        },
        Transition::CounterIncrement(_) => {
            let len = f.counters.len();
            if len > 0 && f.counters[len - 1] < usize::MAX {
                let mut c = copy_counters(&f.counters);
                let last = c.pop().unwrap();
                c.push(last + 1);
                proof {
                    assert(c@ =~= f.counters@.update(len - 1, (f.counters@.last() + 1) as usize));
                }
                Some(frame_to(target, p, c))
            } else {
                None
            }
        },
        Transition::RepetitionForward(t) => {
            let len = f.counters.len();
            if len > 0 && lower_ok_exec(t.repetition_type, f.counters[len - 1]) {
                let mut c = copy_counters(&f.counters);
                c.pop();
                proof {
                    assert(c@ =~= f.counters@.drop_last());
                }
                Some(frame_to(target, p, c))
            } else {
                None
            }
        },
        Transition::RepetitionBack(t) => {
            let len = f.counters.len();
            if len > 0 && upper_ok_exec(t.repetition_type, f.counters[len - 1]) {
                Some(frame_to(target, p, copy_counters(&f.counters)))
            } else {
                None
            }
        },
        Transition::LookAheadAssertion(t) => {
            if fuel > 0 && t.route_index < route.lines.len() {
                let found = run_line(
                    route,
                    text,
                    t.route_index,
                    None,
                    p,
                    copy_slots(slots),
                    fuel - 1,
                ).is_some();
                if found != t.is_negative {
                    Some(frame_to(target, p, copy_counters(&f.counters)))
                } else {
                    None
                }
            } else {
                None
            }
        },
        Transition::LookBehindAssertion(t) => {
            if fuel > 0 && t.route_index < route.lines.len() {
                let found = if p >= t.match_length_in_char {
                    run_line(
                        route,
                        text,
                        t.route_index,
                        Some(p),
                        p - t.match_length_in_char,
                        copy_slots(slots),
                        fuel - 1,
                    ).is_some()
                } else {
                    false
                };
                if found != t.is_negative {
                    Some(frame_to(target, p, copy_counters(&f.counters)))
                } else {
                    None
                }
            } else {
                None
            }
        },
    }
}

/// Runs the backtracking machine on a line of the route from a position,
/// with the given capture slots, until the line matches, the choices run
/// out or the fuel does: the end position of the match and the slots.
pub fn run_line(
    route: &Route,
    text: &Vec<char>,
    line: usize,
    end_at: Option<usize>,
    start: usize,
    slots: Vec<(usize, usize)>,
    budget: u64,
) -> (r: Option<(usize, Vec<(usize, usize)>)>)
    ensures
        match run(
            *route,
            text@,
            line as int,
            end_at,
            seq![line_start(*route, line as int, start)],
            slots@,
            budget as nat,
        ) {
            Some((e, s)) => r matches Some((e2, s2)) && e2 == e && s2@ == s,
            None => r is None,
        },
    decreases budget, 2nat,
{
    if line >= route.lines.len() {
        return None;
    }
    let mut stack: Vec<Frame> = Vec::new();
    stack.push(Frame { node: route.lines[line].start_node_index, next: 0, pos: start, counters: Vec::new() });
    proof {
        assert(stack@.map_values(|g: Frame| g@) =~= seq![line_start(*route, line as int, start)]);
    }
    let mut cur = copy_slots(&slots);
    let mut fuel = budget;
    loop
        invariant
            line < route.lines@.len(),
            fuel <= budget,
            run(
                *route,
                text@,
                line as int,
                end_at,
                stack@.map_values(|g: Frame| g@),
                cur@,
                fuel as nat,
            ) == run(
                *route,
                text@,
                line as int,
                end_at,
                seq![line_start(*route, line as int, start)],
                slots@,
                budget as nat,
            ),
        decreases fuel,
    {
        if fuel == 0 {
            return None;
        }
        if stack.len() == 0 {
            proof {
                assert(stack@.map_values(|g: Frame| g@).len() == 0);
            }
            return None;
        }
        let ghost gs = stack@.map_values(|g: Frame| g@);
        let f = stack.pop().unwrap();
        proof {
            assert(stack@.map_values(|g: Frame| g@) =~= gs.drop_last());
            assert(f@ == gs.last());
        }
        let l = &route.lines[line];
        let at_end = match end_at {
            Some(e) => f.pos == e,
            None => true,
        };
        if f.next == 0 && f.node == l.end_node_index && at_end {
            return Some((f.pos, cur));
        }
        if f.node >= l.nodes.len() || f.next >= l.nodes[f.node].transition_items.len() {
            fuel = fuel - 1;
            continue;
        }
        let item = &l.nodes[f.node].transition_items[f.next];
        let alt = Frame { node: f.node, next: f.next + 1, pos: f.pos, counters: copy_counters(&f.counters) };
        stack.push(alt);
        let ghost alt_stack = stack@.map_values(|g: Frame| g@);
        proof {
            assert(alt_stack =~= gs.drop_last().push(FrameView { next: (f.next + 1) as usize, ..f@ }));
        }
        match step_exec(route, text, &f, item, &mut cur, fuel - 1) {
            Some(g) => {
                stack.push(g);
                proof {
                    assert(stack@.map_values(|h: Frame| h@) =~= alt_stack.push(g@));
                }
            },
            None => {},
        }
        fuel = fuel - 1;
    }
}

/// Empty capture slots for `n` capture groups.
pub fn initial_slots_exec(n: usize) -> (r: Vec<(usize, usize)>)
    ensures
        r@ == initial_slots(n as nat),
{
    let mut r: Vec<(usize, usize)> = Vec::new();
    let mut i: usize = 0;
    while i < n
        invariant
            i <= n,
            r@ == initial_slots(i as nat),
        decreases n - i,
    {
        r.push((0, 0));
        i = i + 1;
        proof {
            assert(r@ =~= initial_slots(i as nat));
        }
    }
    r
}

/// The leftmost match of the route's main line that starts at `from` or
/// later: its start and its capture slots.
pub fn search_from(route: &Route, text: &Vec<char>, from: usize) -> (r: Option<(usize, Vec<(usize, usize)>)>)
    ensures
        match search(*route, text@, from as int) {
            Some((st, sl)) => r matches Some((a, b)) && a == st && b@ == sl,
            None => r is None,
        },
{
    let n = text.len();
    let mut s = from;
    while s < n
        invariant
            from <= s,
            n == text@.len(),
            search(*route, text@, from as int) == search(*route, text@, s as int),
        decreases n - s,
    {
        let slots = initial_slots_exec(route.capture_groups.len());
        match run_line(route, text, 0, None, s, slots, FUEL) {
            Some((_, found)) => {
                return Some((s, found));
            },
            None => {},
        }
        s = s + 1;
    }
    None
}

/// Every frame of the stack and every slot lies within a text of `n`
/// characters.
pub open spec fn bounded(stack: Seq<FrameView>, slots: Slots, n: nat) -> bool {
    &&& forall|i: int| 0 <= i < stack.len() ==> (#[trigger] stack[i]).pos <= n
    &&& forall|i: int| 0 <= i < slots.len() ==> (#[trigger] slots[i]).0 <= n && slots[i].1 <= n
}

/// A step keeps the frame and the slots within the text and keeps the
/// number of slots.
proof fn lemma_step_bounded(
    route: Route,
    text: Seq<char>,
    f: FrameView,
    item: TransitionItem,
    slots: Slots,
    fuel: nat,
)
    requires
        bounded(seq![f], slots, text.len()),
    ensures
        step(route, text, f, item, slots, fuel) matches Some((g, s2)) ==> bounded(
            seq![g],
            s2,
            text.len(),
        ) && s2.len() == slots.len(),
{
    assert(seq![f][0] == f);
    match step(route, text, f, item, slots, fuel) {
        Some((g, s2)) => {
            assert(g.pos <= text.len());
            assert forall|i: int| 0 <= i < s2.len() implies (#[trigger] s2[i]).0 <= text.len()
                && s2[i].1 <= text.len() by {
                assert(slots[i].0 <= text.len() && slots[i].1 <= text.len());
            }
            assert(seq![g][0] == g);
        },
        None => {},
    }
}

/// A run ends within the text, with as many slots as it started with and
/// all of them within the text.
pub proof fn lemma_run_bounded(
    route: Route,
    text: Seq<char>,
    line: int,
    end_at: Option<usize>,
    stack: Seq<FrameView>,
    slots: Slots,
    fuel: nat,
)
    requires
        bounded(stack, slots, text.len()),
    ensures
        run(route, text, line, end_at, stack, slots, fuel) matches Some((e, s2)) ==> e <= text.len()
            && s2.len() == slots.len() && bounded(seq![], s2, text.len()),
    decreases fuel,
{
    if fuel == 0 || stack.len() == 0 || line < 0 || line >= route.lines@.len() {
    } else {
        let f = stack.last();
        let rest = stack.drop_last();
        let l = route.lines@[line];
        assert(f.pos <= text.len());
        if ends_line(route, line, end_at, f) {
        } else if f.node >= l.nodes@.len() || f.next >= l.nodes@[f.node as int].transition_items@.len() {
            assert(bounded(rest, slots, text.len())) by {
                assert forall|i: int| 0 <= i < rest.len() implies (#[trigger] rest[i]).pos <= text.len() by {
                    assert(rest[i] == stack[i]);
                }
            }
            lemma_run_bounded(route, text, line, end_at, rest, slots, (fuel - 1) as nat);
        } else {
            let item = l.nodes@[f.node as int].transition_items@[f.next as int];
            let alt = rest.push(FrameView { next: (f.next + 1) as usize, ..f });
            assert(bounded(alt, slots, text.len())) by {
                assert forall|i: int| 0 <= i < alt.len() implies (#[trigger] alt[i]).pos <= text.len() by {
                    if i < rest.len() {
                        assert(alt[i] == stack[i]);
                    }
                }
            }
            assert(bounded(seq![f], slots, text.len())) by {
                assert(seq![f][0] == f);
            }
            lemma_step_bounded(route, text, f, item, slots, (fuel - 1) as nat);
            match step(route, text, f, item, slots, (fuel - 1) as nat) {
                Some((g, s2)) => {
                    let st = alt.push(g);
                    assert(bounded(st, s2, text.len())) by {
                        assert(seq![g][0] == g);
                        assert forall|i: int| 0 <= i < st.len() implies (#[trigger] st[i]).pos <= text.len() by {
                            if i < alt.len() {
                                assert(st[i] == alt[i]);
                            }
                        }
                    }
                    lemma_run_bounded(route, text, line, end_at, st, s2, (fuel - 1) as nat);
                },
                None => {
                    lemma_run_bounded(route, text, line, end_at, alt, slots, (fuel - 1) as nat);
                },
            }
        }
    }
}

/// The leftmost match starts within the text, and its slots, one for each
/// capture group, lie within the text.
pub proof fn lemma_search_bounded(route: Route, text: Seq<char>, from: int)
    requires
        text.len() <= usize::MAX,
    ensures
        search(route, text, from) matches Some((st, slots)) ==> from <= st < text.len()
            && slots.len() == route.capture_groups@.len() && bounded(seq![], slots, text.len()),
    decreases text.len() - from,
{
    if from < 0 || from >= text.len() {
    } else {
        let k = route.capture_groups@.len();
        let init = initial_slots(k);
        let stack = seq![line_start(route, 0, from as usize)];
        assert(bounded(stack, init, text.len())) by {
            assert(stack[0].pos == from);
        }
        lemma_run_bounded(route, text, 0, None, stack, init, FUEL as nat);
        lemma_search_bounded(route, text, from + 1);
    }
}

/// No match starts between `from` and the start of the leftmost match.
pub proof fn lemma_search_leftmost(route: Route, text: Seq<char>, from: int, k: int)
    requires
        0 <= from <= k,
        search(route, text, from) matches Some((st, _)) ==> k < st,
        search(route, text, from) is None ==> k < text.len(),
    ensures
        match_at(route, text, k) is None,
    decreases k - from,
{
    if from < k {
        assert(match_at(route, text, from) is None);
        lemma_search_leftmost(route, text, from + 1, k);
    }
}

} // verus!
