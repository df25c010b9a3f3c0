use vstd::prelude::*;

use crate::text::{decimal_chars, push_char, push_decimal, push_str, string_equals};
use crate::transition::{transition_text, Transition};

verus! {

/// The index of the line that matches the whole pattern.
pub const MAIN_LINE_INDEX: usize = 0;

/// What a pattern compiles to: lines of nodes joined by transitions, and
/// the capture groups. Line 0 matches the pattern; the other lines match
/// the conditions of look-around assertions.
pub struct Route {
    pub lines: Vec<Line>,
    pub capture_groups: Vec<CaptureGroup>,
}

/// A graph of nodes with a start node and an end node.
pub struct Line {
    pub nodes: Vec<Node>,
    pub start_node_index: usize,
    pub end_node_index: usize,
    /// The match must start where the line is tried.
    pub fixed_start: bool,
    /// The match must end at a given place.
    pub fixed_end: bool,
}

/// A node and the transitions that leave it, in the order they are tried.
pub struct Node {
    pub transition_items: Vec<TransitionItem>,
}

/// A transition and the node it leads to.
pub struct TransitionItem {
    pub transition: Transition,
    pub target_node_index: usize,
}

/// A capture group, named or not.
pub struct CaptureGroup {
    pub name: Option<String>,
}

/// The name of the capture group is `name`.
pub open spec fn has_name(g: CaptureGroup, name: Seq<char>) -> bool {
    g.name matches Some(n) && n@ == name
}

/// Joins lines of text with line feeds.
pub open spec fn join_lines(ls: Seq<Seq<char>>) -> Seq<char>
    decreases ls.len(),
{
    if ls.len() == 0 {
        seq![]
    } else if ls.len() == 1 {
        ls[0]
    } else {
        join_lines(ls.drop_last()) + seq!['\n'] + ls.last()
    }
}

/// The line of text that shows a transition item.
pub open spec fn item_line(item: TransitionItem) -> Seq<char> {
    "  -> "@ + decimal_chars(item.target_node_index as nat) + ", "@ + transition_text(
        item.transition,
    )
}

/// The lines of text that show a node: its index, marked `>` if the line
/// starts there, `<` if it ends there and `-` otherwise, then its items.
pub open spec fn node_lines(line: Line, i: int) -> Seq<Seq<char>> {
    let prefix = if i == line.start_node_index {
        '>'
    } else if i == line.end_node_index {
        '<'
    } else {
        '-'
    };
    seq![seq![prefix, ' '] + decimal_chars(i as nat)] + line.nodes@[i].transition_items@.map_values(
        |item: TransitionItem| item_line(item),
    )
}

/// The lines of text that show the first `k` nodes of a line.
pub open spec fn nodes_lines(line: Line, k: int) -> Seq<Seq<char>>
    decreases k,
{
    if k <= 0 {
        seq![]
    } else {
        nodes_lines(line, k - 1) + node_lines(line, k - 1)
    }
}

/// The debug text of a line.
pub open spec fn line_text(line: Line) -> Seq<char> {
    join_lines(nodes_lines(line, line.nodes@.len() as int))
}

/// The lines of text that show the first `k` lines of a route, each after
/// a heading `= $i`.
pub open spec fn lines_lines(lines: Seq<Line>, k: int) -> Seq<Seq<char>>
    decreases k,
{
    if k <= 0 {
        seq![]
    } else {
        lines_lines(lines, k - 1) + seq!["= $"@ + decimal_chars((k - 1) as nat), line_text(lines[k - 1])]
    }
}

/// The line of text that shows a capture group: `# {i}` and its name.
pub open spec fn group_line(g: CaptureGroup, i: int) -> Seq<char> {
    match g.name {
        Some(n) => "# {"@ + decimal_chars(i as nat) + "}, "@ + n@,
        None => "# {"@ + decimal_chars(i as nat) + "}"@,
    }
}

/// The lines of text that show the first `k` capture groups.
pub open spec fn groups_lines(groups: Seq<CaptureGroup>, k: int) -> Seq<Seq<char>>
    decreases k,
{
    if k <= 0 {
        seq![]
    } else {
        groups_lines(groups, k - 1).push(group_line(groups[k - 1], k - 1))
    }
}

/// The debug text of a route: its lines (a single line without heading),
/// then its capture groups.
pub open spec fn route_text(route: Route) -> Seq<char> {
    let lines = if route.lines@.len() == 1 {
        seq![line_text(route.lines@[0])]
    } else {
        lines_lines(route.lines@, route.lines@.len() as int)
    };
    join_lines(lines + groups_lines(route.capture_groups@, route.capture_groups@.len() as int))
}

proof fn lemma_join_push(ls: Seq<Seq<char>>, l: Seq<char>)
    ensures
        join_lines(ls.push(l)) == if ls.len() == 0 {
            l
        } else {
            join_lines(ls) + seq!['\n'] + l
        },
{
    assert(ls.push(l).drop_last() =~= ls);
}

/// Joins lines of text with line feeds.
fn join_strings(ls: &Vec<String>) -> (s: String)
    ensures
        s@ == join_lines(ls@.map_values(|x: String| x@)),
{
    let mut out = String::new();
    let mut i: usize = 0;
    let ghost v = ls@.map_values(|x: String| x@);
    while i < ls.len()
        invariant
            i <= ls@.len(),
            v == ls@.map_values(|x: String| x@),
            out@ == join_lines(v.take(i as int)),
        decreases ls.len() - i,
    {
        if i > 0 {
            push_char(&mut out, '\n');
        }
        push_str(&mut out, ls[i].as_str());
        proof {
            assert(v.take(i + 1) =~= v.take(i as int).push(v[i as int]));
            lemma_join_push(v.take(i as int), v[i as int]);
        }
        i = i + 1;
    }
    proof {
        assert(v.take(i as int) =~= v);
    }
    out
}

impl Route {
    pub fn new() -> (r: Route)
        ensures
            r.lines@.len() == 0,
            r.capture_groups@.len() == 0,
    {
        Route { lines: Vec::new(), capture_groups: Vec::new() }
    }

    /// Adds an empty line and returns its index.
    pub fn new_line(&mut self) -> (idx: usize)
        ensures
            idx == old(self).lines@.len(),
            final(self).lines@.len() == old(self).lines@.len() + 1,
            forall|i: int| 0 <= i < idx ==> final(self).lines@[i] == old(self).lines@[i],
            final(self).lines@[idx as int].nodes@.len() == 0,
            final(self).lines@[idx as int].start_node_index == 0,
            final(self).lines@[idx as int].end_node_index == 0,
            !final(self).lines@[idx as int].fixed_start,
            !final(self).lines@[idx as int].fixed_end,
            final(self).capture_groups@ == old(self).capture_groups@,
    {
        let line = Line {
            nodes: Vec::new(),
            start_node_index: 0,
            end_node_index: 0,
            fixed_start: false,
            fixed_end: false,
        };
        let idx = self.lines.len();
        self.lines.push(line);
        idx
    }

    /// Adds a capture group and returns its index.
    pub fn new_capture_group(&mut self, name: Option<String>) -> (idx: usize)
        ensures
            idx == old(self).capture_groups@.len(),
            final(self).capture_groups@ == old(self).capture_groups@.push(CaptureGroup { name }),
            final(self).lines@ == old(self).lines@,
    {
        let idx = self.capture_groups.len();
        self.capture_groups.push(CaptureGroup { name });
        idx
    }

    /// The index of the first capture group of the given name.
    pub fn get_capture_group_index_by_name(&self, name: &str) -> (r: Option<usize>)
        ensures
            match r {
                Some(i) => i < self.capture_groups@.len() && has_name(self.capture_groups@[i as int], name@)
                    && forall|j: int| 0 <= j < i ==> !has_name(#[trigger] self.capture_groups@[j], name@),
                None => forall|j: int|
                    0 <= j < self.capture_groups@.len() ==> !has_name(#[trigger] self.capture_groups@[j], name@),
            },
    {
        let mut i: usize = 0;
        while i < self.capture_groups.len()
            invariant
                i <= self.capture_groups@.len(),
                forall|j: int| 0 <= j < i ==> !has_name(#[trigger] self.capture_groups@[j], name@),
            decreases self.capture_groups.len() - i,
        {
            let found = match &self.capture_groups[i].name {
                Some(n) => string_equals(n.as_str(), name),
                None => false,
            };
            if found {
                return Some(i);
            }
            i = i + 1;
        }
        None
    }

    /// The names of the capture groups, in order.
    pub fn get_capture_group_names(&self) -> (r: Vec<Option<&String>>)
        ensures
            r@.len() == self.capture_groups@.len(),
            forall|i: int| 0 <= i < r@.len() ==> (#[trigger] r@[i] is Some) == (
                self.capture_groups@[i].name is Some),
            forall|i: int| 0 <= i < r@.len() ==> ((#[trigger] r@[i]) matches Some(n) ==> *n
                == self.capture_groups@[i].name->Some_0),
    {
        let mut names: Vec<Option<&String>> = Vec::new();
        let mut i: usize = 0;
        while i < self.capture_groups.len()
            invariant
                i <= self.capture_groups@.len(),
                names@.len() == i,
                forall|k: int| 0 <= k < i ==> (#[trigger] names@[k] is Some) == (
                    self.capture_groups@[k].name is Some),
                forall|k: int| 0 <= k < i ==> ((#[trigger] names@[k]) matches Some(n) ==> *n
                    == self.capture_groups@[k].name->Some_0),
            decreases self.capture_groups.len() - i,
        {
            match &self.capture_groups[i].name {
                Some(n) => names.push(Some(n)),
                None => names.push(None),
            }
            i = i + 1;
        }
        names
    }

    pub fn get_number_of_capture_groups(&self) -> (n: usize)
        ensures
            n == self.capture_groups@.len(),
    {
        self.capture_groups.len()
    }
}

impl Line {
    /// Adds a node without transitions and returns its index.
    pub fn new_node(&mut self) -> (idx: usize)
        ensures
            idx == old(self).nodes@.len(),
            final(self).nodes@.len() == old(self).nodes@.len() + 1,
            forall|i: int| 0 <= i < idx ==> final(self).nodes@[i] == old(self).nodes@[i],
            final(self).nodes@[idx as int].transition_items@.len() == 0,
            final(self).start_node_index == old(self).start_node_index,
            final(self).end_node_index == old(self).end_node_index,
            final(self).fixed_start == old(self).fixed_start,
            final(self).fixed_end == old(self).fixed_end,
    {
        let idx = self.nodes.len();
        self.nodes.push(Node { transition_items: Vec::new() });
        idx
    }

    /// Adds a transition from one node to another, after the transitions
    /// that leave the source node already, and returns its index among them.
    pub fn append_transition(
        &mut self,
        source_node_index: usize,
        target_node_index: usize,
        transition: Transition,
    ) -> (idx: usize)
        requires
            source_node_index < old(self).nodes@.len(),
        ensures
            idx == old(self).nodes@[source_node_index as int].transition_items@.len(),
            final(self).nodes@.len() == old(self).nodes@.len(),
            forall|i: int|
                0 <= i < final(self).nodes@.len() && i != source_node_index ==> final(self).nodes@[i]
                    == old(self).nodes@[i],
            final(self).nodes@[source_node_index as int].transition_items@ == old(
                self,
            ).nodes@[source_node_index as int].transition_items@.push(
                TransitionItem { transition, target_node_index },
            ),
            final(self).start_node_index == old(self).start_node_index,
            final(self).end_node_index == old(self).end_node_index,
            final(self).fixed_start == old(self).fixed_start,
            final(self).fixed_end == old(self).fixed_end,
    {
        let item = TransitionItem { transition, target_node_index };
        let idx = self.nodes[source_node_index].transition_items.len();
        self.nodes[source_node_index].transition_items.push(item);
        idx
    }

    /// The debug text of the line: each node, marked `>` where the line
    /// starts, `<` where it ends and `-` elsewhere, with its transitions.
    pub fn get_debug_text(&self) -> (s: String)
        ensures
            s@ == line_text(*self),
    {
        let mut ss: Vec<String> = Vec::new();
        let mut i: usize = 0;
        while i < self.nodes.len()
            invariant
                i <= self.nodes@.len(),
                ss@.map_values(|x: String| x@) == nodes_lines(*self, i as int),
            decreases self.nodes.len() - i,
        {
            let prefix = if i == self.start_node_index {
                '>'
            } else if i == self.end_node_index {
                '<'
            } else {
                '-'
            };
            let mut head = String::new();
            push_char(&mut head, prefix);
            push_char(&mut head, ' ');
            push_decimal(&mut head, i);
            let ghost before = ss@.map_values(|x: String| x@);
            let ghost head_text = head@;
            ss.push(head);
            let items = &self.nodes[i].transition_items;
            proof {
                assert(head_text =~= seq![prefix, ' '] + decimal_chars(i as nat));
                assert(items@.take(0).map_values(|item: TransitionItem| item_line(item)) =~= Seq::<Seq<char>>::empty());
                assert(ss@.map_values(|x: String| x@) =~= before + seq![seq![prefix, ' '] + decimal_chars(i as nat)]
                    + items@.take(0).map_values(|item: TransitionItem| item_line(item)));
            }
            let mut k: usize = 0;
            while k < items.len()
                invariant
                    k <= items@.len(),
                    *items == self.nodes@[i as int].transition_items,
                    ss@.map_values(|x: String| x@) == before + seq![seq![prefix, ' '] + decimal_chars(i as nat)]
                        + items@.take(k as int).map_values(|item: TransitionItem| item_line(item)),
                decreases items.len() - k,
            {
                let mut t = String::new();
                push_str(&mut t, "  -> ");
                push_decimal(&mut t, items[k].target_node_index);
                push_str(&mut t, ", ");
                let tt = items[k].transition.to_string();
                push_str(&mut t, tt.as_str());
                proof {
                    assert(t@ =~= item_line(items@[k as int]));
                    assert(items@.take(k + 1).map_values(|item: TransitionItem| item_line(item))
                        =~= items@.take(k as int).map_values(|item: TransitionItem| item_line(item)).push(
                        item_line(items@[k as int])));
                }
                let ghost mid = ss@.map_values(|x: String| x@);
                ss.push(t);
                proof {
                    assert(ss@.map_values(|x: String| x@) =~= mid.push(item_line(items@[k as int])));
                }
                k = k + 1;
            }
            proof {
                assert(items@.take(k as int) =~= items@);
                assert(nodes_lines(*self, i + 1) == nodes_lines(*self, i as int) + node_lines(
                    *self,
                    i as int,
                ));
                assert(ss@.map_values(|x: String| x@) =~= nodes_lines(*self, i + 1));
            }
            i = i + 1;
        }
        join_strings(&ss)
    }
}

impl Route {
    /// The debug text of the route: its lines, each after a heading `= $i`
    /// unless the route has one line only, then its capture groups.
    pub fn get_debug_text(&self) -> (s: String)
        ensures
            s@ == route_text(*self),
    {
        let mut ss: Vec<String> = Vec::new();
        if self.lines.len() == 1 {
            ss.push(self.lines[0].get_debug_text());
            proof {
                assert(ss@.map_values(|x: String| x@) =~= seq![line_text(self.lines@[0])]);
            }
        } else {
            let mut i: usize = 0;
            while i < self.lines.len()
                invariant
                    i <= self.lines@.len(),
                    ss@.map_values(|x: String| x@) == lines_lines(self.lines@, i as int),
                decreases self.lines.len() - i,
            {
                let mut head = String::new();
                push_str(&mut head, "= $");
                push_decimal(&mut head, i);
                let ghost before = ss@.map_values(|x: String| x@);
                ss.push(head);
                ss.push(self.lines[i].get_debug_text());
                proof {
                    assert(ss@.map_values(|x: String| x@) =~= lines_lines(self.lines@, i + 1));
                }
                i = i + 1;
            }
        }
        let ghost base = ss@.map_values(|x: String| x@);
        let mut g: usize = 0;
        while g < self.capture_groups.len()
            invariant
                g <= self.capture_groups@.len(),
                ss@.map_values(|x: String| x@) == base + groups_lines(self.capture_groups@, g as int),
            decreases self.capture_groups.len() - g,
        {
            let mut t = String::new();
            push_str(&mut t, "# {");
            push_decimal(&mut t, g);
            match &self.capture_groups[g].name {
                Some(n) => {
                    push_str(&mut t, "}, ");
                    push_str(&mut t, n.as_str());
                },
                None => {
                    push_str(&mut t, "}");
                },
            }
            proof {
                assert(t@ =~= group_line(self.capture_groups@[g as int], g as int));
            }
            let ghost before = ss@.map_values(|x: String| x@);
            ss.push(t);
            proof {
                assert(ss@.map_values(|x: String| x@) =~= before.push(
                    group_line(self.capture_groups@[g as int], g as int),
                ));
            }
            g = g + 1;
        }
        join_strings(&ss)
    }
}

impl Default for Route {
    fn default() -> (r: Route)
        ensures
            r.lines@.len() == 0,
            r.capture_groups@.len() == 0,
    {
        Route::new()
    }
}

} // verus!
