use vstd::prelude::*;

verus! {

/// A zero-based line / column location in a source file.
#[derive(Debug, Clone, Copy, PartialEq, Eq, Structural)]
pub struct Position {
    pub line: u32,
    pub character: u32,
}

/// A span of source text, from `start` to `end`.
#[derive(Debug, Clone, Copy, PartialEq, Eq, Structural)]
pub struct Range {
    pub start: Position,
    pub end: Position,
}

/// Positions are ordered by line first, then by column.
pub open spec fn pos_lt(a: Position, b: Position) -> bool {
    a.line < b.line || (a.line == b.line && a.character < b.character)
}

/// `p` lies strictly between the two ends of `r`.
pub open spec fn strictly_inside(r: Range, p: Position) -> bool {
    pos_lt(r.start, p) && pos_lt(p, r.end)
}

impl Position {
    pub fn new(line: u32, character: u32) -> (r: Position)
        ensures
            r.line == line,
            r.character == character,
    {
        Position { line, character }
    }

    /// Whether `self` comes strictly before `other`.
    pub fn before(&self, other: &Position) -> (r: bool)
        ensures
            r == pos_lt(*self, *other),
    {
        self.line < other.line || (self.line == other.line && self.character < other.character)
    }
}

impl Range {
    pub fn new(start: Position, end: Position) -> (r: Range)
        ensures
            r.start == start,
            r.end == end,
    {
        Range { start, end }
    }

    /// Whether `p` lies strictly inside this range.
    pub fn strictly_contains(&self, p: &Position) -> (r: bool)
        ensures
            r == strictly_inside(*self, *p),
    {
        self.start.before(p) && p.before(&self.end)
    }
}

} // verus!
