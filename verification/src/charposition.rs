use vstd::prelude::*;

use crate::location::Location;
use crate::text::chars_of;

verus! {

/// The line number (zero-based) of the character at index `i`: the number
/// of line feeds before it.
pub open spec fn line_at(text: Seq<char>, i: int) -> nat
    decreases i,
{
    if i <= 0 {
        0
    } else if text[i - 1] == '\n' {
        line_at(text, i - 1) + 1
    } else {
        line_at(text, i - 1)
    }
}

/// The column number (zero-based) of the character at index `i`: the
/// number of characters between the last line feed before it and it.
pub open spec fn column_at(text: Seq<char>, i: int) -> nat
    decreases i,
{
    if i <= 0 {
        0
    } else if text[i - 1] == '\n' {
        0
    } else {
        column_at(text, i - 1) + 1
    }
}

/// The location of the character at index `i` of a text of the given unit.
pub open spec fn location_at(unit: usize, text: Seq<char>, i: int) -> Location {
    Location {
        unit,
        index: i as usize,
        line: line_at(text, i) as usize,
        column: column_at(text, i) as usize,
    }
}

pub proof fn lemma_line_column_bounded(text: Seq<char>, i: int)
    requires
        0 <= i,
    ensures
        line_at(text, i) <= i,
        column_at(text, i) <= i,
    decreases i,
{
    if i > 0 {
        lemma_line_column_bounded(text, i - 1);
    }
}

/// A character together with its location.
#[derive(Debug, PartialEq, Eq, Clone, Copy, Structural)]
pub struct CharWithPosition {
    pub character: char,
    pub position: Location,
}

impl CharWithPosition {
    pub fn new(character: char, position: Location) -> (r: CharWithPosition)
        ensures
            r.character == character,
            r.position == position,
    {
        CharWithPosition { character, position }
    }
}

/// Walks the characters of a text and hands out each one with its
/// location (unit, index, line and column).
pub struct CharsWithPositionIter {
    chars: Vec<char>,
    next_index: usize,
    current_position: Location,
}

impl CharsWithPositionIter {
    /// The characters of the text.
    pub closed spec fn text(&self) -> Seq<char> {
        self.chars@
    }

    /// How many characters have been handed out.
    pub closed spec fn consumed(&self) -> nat {
        self.next_index as nat
    }

    /// The unit that the locations carry.
    pub closed spec fn unit(&self) -> usize {
        self.current_position.unit
    }

    pub closed spec fn wf(&self) -> bool {
        &&& self.next_index <= self.chars.len()
        &&& self.current_position == location_at(
            self.current_position.unit,
            self.chars@,
            self.next_index as int,
        )
    }

    pub fn new(unit: usize, text: &str) -> (it: CharsWithPositionIter)
        ensures
            it.wf(),
            it.text() == text@,
            it.consumed() == 0,
            it.unit() == unit,
    {
        let chars = chars_of(text);
        CharsWithPositionIter {
            chars,
            next_index: 0,
            current_position: Location::new_position(unit, 0, 0, 0),
        }
    }

    /// Hands out the next character with its location, or `None` after the
    /// last one.
    pub fn next(&mut self) -> (r: Option<CharWithPosition>)
        requires
            old(self).wf(),
        ensures
            final(self).wf(),
            final(self).text() == old(self).text(),
            final(self).unit() == old(self).unit(),
            old(self).consumed() < old(self).text().len() ==> {
                &&& final(self).consumed() == old(self).consumed() + 1
                &&& r == Some(
                    CharWithPosition {
                        character: old(self).text()[old(self).consumed() as int],
                        position: location_at(
                            old(self).unit(),
                            old(self).text(),
                            old(self).consumed() as int,
                        ),
                    },
                )
            },
            old(self).consumed() >= old(self).text().len() ==> {
                &&& final(self).consumed() == old(self).consumed()
                &&& r is None
            },
    {
        if self.next_index >= self.chars.len() {
            return None;
        }
        let c = self.chars[self.next_index];
        let last_position = self.current_position;
        proof {
            lemma_line_column_bounded(self.chars@, self.next_index as int);
        }
        let mut position = self.current_position;
        position.index = position.index + 1;
        if c == '\n' {
            position.line = position.line + 1;
            position.column = 0;
        } else {
            position.column = position.column + 1;
        }
        self.current_position = position;
        self.next_index = self.next_index + 1;
        Some(CharWithPosition::new(c, last_position))
    }
}

} // verus!
