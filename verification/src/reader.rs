use vstd::prelude::*;

use crate::charposition::{location_at, lemma_line_column_bounded, CharWithPosition, CharsWithPositionIter};
use crate::position::{Position, Range};

verus! {

/// The position (index, line and column) of the character at index `i`.
pub open spec fn pos_at(text: Seq<char>, i: int) -> Position {
    Position {
        index: i as usize,
        line: crate::charposition::line_at(text, i) as usize,
        column: crate::charposition::column_at(text, i) as usize,
    }
}

/// The range from the character at index `a` to the one at index `b`.
pub open spec fn range_at(text: Seq<char>, a: int, b: int) -> Range {
    Range { start: pos_at(text, a), end_inclusive: pos_at(text, b) }
}

/// `p` is the position of a character of `text`.
pub open spec fn position_in(text: Seq<char>, p: Position) -> bool {
    &&& p.index < text.len()
    &&& p == pos_at(text, p.index as int)
}

/// `r` covers characters of `text`, from its start to its end.
pub open spec fn range_in(text: Seq<char>, r: Range) -> bool {
    &&& position_in(text, r.start)
    &&& position_in(text, r.end_inclusive)
    &&& r.start.index <= r.end_inclusive.index
}

/// The positions that an error names lie in the text.
pub open spec fn error_located(e: crate::error::AnreError, text: Seq<char>) -> bool {
    match e {
        crate::error::AnreError::MessageWithPosition(_, p) => position_in(text, p),
        crate::error::AnreError::MessageWithRange(_, r) => position_in(text, r.start) && position_in(
            text,
            r.end_inclusive,
        ),
        _ => true,
    }
}

/// A cursor over the characters of a text that knows the position of
/// each character.
pub struct CharReader {
    chars: Vec<CharWithPosition>,
    index: usize,
    text: Ghost<Seq<char>>,
}

impl CharReader {
    /// The characters of the text.
    pub closed spec fn text(&self) -> Seq<char> {
        self.text@
    }

    /// The index of the next character to read.
    pub closed spec fn index(&self) -> int {
        self.index as int
    }

    /// The reader is consistent and the next index lies within the text.
    pub open spec fn wf(&self) -> bool {
        &&& self.inv()
        &&& 0 <= self.index() <= self.text().len()
        &&& self.text().len() <= usize::MAX
    }

    pub closed spec fn inv(&self) -> bool {
        &&& self.index <= self.chars.len()
        &&& self.chars.len() == self.text@.len()
        &&& forall|i: int|
            0 <= i < self.chars.len() ==> (#[trigger] self.chars@[i]).character == self.text@[i]
                && self.chars@[i].position == location_at(0, self.text@, i)
    }

    pub fn from_str(s: &str) -> (r: CharReader)
        ensures
            r.wf(),
            r.text() == s@,
            r.index() == 0,
    {
        let mut it = CharsWithPositionIter::new(0, s);
        let mut chars: Vec<CharWithPosition> = Vec::new();
        loop
            invariant
                it.wf(),
                it.text() == s@,
                it.unit() == 0,
                chars.len() == it.consumed(),
                it.consumed() <= s@.len(),
                forall|i: int|
                    0 <= i < chars.len() ==> (#[trigger] chars@[i]).character == s@[i]
                        && chars@[i].position == location_at(0, s@, i),
            ensures
                chars.len() == s@.len(),
            decreases s@.len() - it.consumed(),
        {
            match it.next() {
                Some(cp) => {
                    chars.push(cp);
                },
                None => {
                    break;
                },
            }
        }
        CharReader { chars, index: 0, text: Ghost(s@) }
    }

    /// The character `offset` places after the next one, if any.
    pub fn peek_char(&self, offset: usize) -> (r: Option<char>)
        requires
            self.wf(),
        ensures
            self.index() + offset < self.text().len() ==> r == Some(
                self.text()[self.index() + offset],
            ),
            self.index() + offset >= self.text().len() ==> r is None,
    {
        if offset < self.chars.len() - self.index {
            Some(self.chars[self.index + offset].character)
        } else {
            None
        }
    }

    /// Whether the character `offset` places after the next one is `c`.
    pub fn peek_char_and_equals(&self, offset: usize, c: char) -> (r: bool)
        requires
            self.wf(),
        ensures
            r == (self.index() + offset < self.text().len() && self.text()[self.index() + offset]
                == c),
    {
        match self.peek_char(offset) {
            Some(d) => d == c,
            None => false,
        }
    }

    /// The position of the character `offset` places after the next one.
    pub fn peek_position(&self, offset: usize) -> (r: Position)
        requires
            self.wf(),
            self.index() + offset < self.text().len(),
        ensures
            r == pos_at(self.text(), self.index() + offset),
            position_in(self.text(), r),
    {
        proof {
            lemma_line_column_bounded(self.text@, self.index + offset);
        }
        let location = self.chars[self.index + offset].position;
        Position { index: location.index, line: location.line, column: location.column }
    }

    /// The position of the character read last.
    pub fn last_position(&self) -> (r: Position)
        requires
            self.wf(),
            self.index() >= 1,
        ensures
            r == pos_at(self.text(), self.index() - 1),
            position_in(self.text(), r),
    {
        proof {
            lemma_line_column_bounded(self.text@, self.index - 1);
        }
        let location = self.chars[self.index - 1].position;
        Position { index: location.index, line: location.line, column: location.column }
    }

    /// Reads the next character, if any.
    pub fn next_char(&mut self) -> (r: Option<char>)
        requires
            old(self).wf(),
        ensures
            final(self).wf(),
            final(self).text() == old(self).text(),
            old(self).index() < old(self).text().len() ==> r == Some(
                old(self).text()[old(self).index()],
            ) && final(self).index() == old(self).index() + 1,
            old(self).index() >= old(self).text().len() ==> r is None && final(self).index()
                == old(self).index(),
    {
        if self.index < self.chars.len() {
            let c = self.chars[self.index].character;
            self.index = self.index + 1;
            Some(c)
        } else {
            None
        }
    }
}

} // verus!
