use vstd::prelude::*;

verus! {

/// A position in a source text: the character index, the line number
/// and the column number (all zero-based).
#[derive(Debug, PartialEq, Eq, Clone, Copy, Structural)]
pub struct Position {
    pub index: usize,
    pub line: usize,
    pub column: usize,
}

impl Position {
    pub fn new(index: usize, line: usize, column: usize) -> (p: Position)
        ensures
            p.index == index,
            p.line == line,
            p.column == column,
    {
        Position { index, line, column }
    }

    /// The position of the first character of a text.
    pub fn start() -> (p: Position)
        ensures
            p.index == 0 && p.line == 0 && p.column == 0,
    {
        Position { index: 0, line: 0, column: 0 }
    }
}

/// A range of characters in a source text, both ends inclusive.
#[derive(Debug, PartialEq, Eq, Clone, Copy, Structural)]
pub struct Range {
    pub start: Position,
    pub end_inclusive: Position,
}

impl Range {
    pub fn new(start: &Position, end_inclusive: &Position) -> (r: Range)
        ensures
            r.start == *start,
            r.end_inclusive == *end_inclusive,
    {
        Range { start: *start, end_inclusive: *end_inclusive }
    }

    /// The range that covers exactly one character.
    pub fn from_single_position(position: &Position) -> (r: Range)
        ensures
            r.start == *position,
            r.end_inclusive == *position,
    {
        Range { start: *position, end_inclusive: *position }
    }

    /// The range of `length` characters on one line, starting at `position`.
    pub fn from_position_and_length(position: &Position, length: usize) -> (r: Range)
        requires
            length >= 1,
            position.index + length - 1 <= usize::MAX,
            position.column + length - 1 <= usize::MAX,
    ensures
            r.start == *position,
            r.end_inclusive.index == position.index + length - 1,
            r.end_inclusive.line == position.line,
            r.end_inclusive.column == position.column + length - 1,
    {
        let end_inclusive = Position {
            index: position.index + (length - 1),
            line: position.line,
            column: position.column + (length - 1),
        };
        Range { start: *position, end_inclusive }
    }

    /// The range of `length` characters on one line, starting at the given
    /// index, line and column.
    pub fn from_detail(index: usize, line: usize, column: usize, length: usize) -> (r: Range)
        requires
            length >= 1,
            index + length - 1 <= usize::MAX,
            column + length - 1 <= usize::MAX,
        ensures
            r.start == (Position { index, line, column }),
            r.end_inclusive == (Position {
                index: (index + length - 1) as usize,
                line,
                column: (column + length - 1) as usize,
            }),
    {
        let start = Position { index, line, column };
        Range::from_position_and_length(&start, length)
    }

    /// The range from the start of `first` to the end of `last`.
    pub fn merge(first: &Range, last: &Range) -> (r: Range)
        ensures
            r.start == first.start,
            r.end_inclusive == last.end_inclusive,
    {
        Range { start: first.start, end_inclusive: last.end_inclusive }
    }
}

} // verus!
