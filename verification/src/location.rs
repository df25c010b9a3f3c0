use vstd::prelude::*;

verus! {

/// A position of a character within a source unit (for example a file):
/// the unit number, the character index, the line and the column.
#[derive(Debug, PartialEq, Eq, Clone, Copy, Structural)]
pub struct Location {
    pub unit: usize,
    pub index: usize,
    pub line: usize,
    pub column: usize,
}

impl Location {
    pub fn new_position(unit: usize, index: usize, line: usize, column: usize) -> (l: Location)
        ensures
            l == (Location { unit, index, line, column }),
    {
        Location { unit, index, line, column }
    }
}

} // verus!
