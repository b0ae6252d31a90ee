pub mod config;
pub mod graph;
pub mod index;
pub mod laws;
pub mod note;
pub mod notebook;
pub mod resolve;
pub mod strutil;
pub mod tasks;
pub mod vault;

use vstd::prelude::*;

verus! {

/// A 1-based position in a note's source text.
#[derive(Clone, Copy, PartialEq, Eq, Structural, Debug)]
pub struct TextPoint {
    pub line: usize,
    pub column: usize,
}

/// A half-open span of source text, from `start` to `end`.
#[derive(Clone, Copy, PartialEq, Eq, Structural, Debug)]
pub struct TextRange {
    pub start: TextPoint,
    pub end: TextPoint,
}

impl TextPoint {
    /// Lexicographic order on (line, column).
    pub open spec fn spec_le(self, other: TextPoint) -> bool {
        self.line < other.line || (self.line == other.line && self.column <= other.column)
    }
}

impl TextRange {
    /// A well-formed range does not end before it starts.
    pub open spec fn wf(self) -> bool {
        self.start.spec_le(self.end)
    }
}

} // verus!
