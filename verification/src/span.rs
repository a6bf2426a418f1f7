//! Source positions and spans: a half-open range of zero-based line/column
//! coordinates, generically tagged with a payload.

use vstd::prelude::*;

verus! {

/// A zero-based (line, column) position in a document.
#[derive(Clone, Copy, PartialEq, Eq, Structural, Debug)]
pub struct Position {
    pub line: u32,
    pub col: u32,
}

/// A source range tagged with a payload `T`: the same shape carries plain
/// locations (`T = ()`) and token-kind-tagged spans (`T = u32`).
#[derive(Clone, Copy, PartialEq, Eq, Debug)]
pub struct Span<T> {
    pub start: Position,
    pub end: Position,
    pub data: T,
}

/// Document order on positions: first by line, then by column.
pub open spec fn pos_le(a: Position, b: Position) -> bool {
    a.line < b.line || (a.line == b.line && a.col <= b.col)
}

/// Strict document order on positions.
pub open spec fn pos_lt(a: Position, b: Position) -> bool {
    a.line < b.line || (a.line == b.line && a.col < b.col)
}

impl Position {
    /// True when `self` comes strictly after `other` in document order.
    pub fn gt(&self, other: &Position) -> (r: bool)
        ensures
            r == pos_lt(*other, *self),
    {
        self.line > other.line || (self.line == other.line && self.col > other.col)
    }
}

impl<T> Span<T> {
    /// The same range re-tagged with a new payload.
    pub fn swap<U>(&self, data: U) -> (r: Span<U>)
        ensures
            r.start == self.start,
            r.end == self.end,
            r.data == data,
    {
        Span { start: self.start, end: self.end, data }
    }
}

/// A span whose range is well-formed for token emission: it does not run
/// backwards and stays on a single line.
pub open spec fn span_single_line<T>(s: Span<T>) -> bool {
    s.start.line == s.end.line && s.start.col <= s.end.col
}

} // verus!
