//! Source spans.
use vstd::prelude::*;

verus! {

/// A range of source text: byte offsets, lines and columns, all counted from zero.
#[derive(Clone, Copy, Debug, PartialEq, Eq, Structural)]
pub struct Position {
    pub start: usize,
    pub end: usize,
    pub line_start: usize,
    pub line_end: usize,
    pub column_start: usize,
    pub column_end: usize,
}

/// The larger of two numbers.
pub open spec fn larger(a: usize, b: usize) -> usize {
    if b > a {
        b
    } else {
        a
    }
}

impl Position {
    /// A span runs forward: it ends at or after the byte and the line where it starts.
    pub open spec fn well_formed(&self) -> bool {
        &&& self.start <= self.end
        &&& self.line_start <= self.line_end
    }

    /// The span that starts where `self` starts and reaches as far as either span does.
    pub open spec fn union(self, other: Position) -> Position {
        Position {
            start: self.start,
            end: larger(self.end, other.end),
            line_start: self.line_start,
            line_end: larger(self.line_end, other.line_end),
            column_start: self.column_start,
            column_end: larger(self.column_end, other.column_end),
        }
    }

    /// The span with these six numbers.
    pub fn new(
        start: usize,
        end: usize,
        line_start: usize,
        line_end: usize,
        column_start: usize,
        column_end: usize,
    ) -> (pos: Self)
        ensures
            pos == (Position { start, end, line_start, line_end, column_start, column_end }),
            pos.well_formed() <==> start <= end && line_start <= line_end,
    {
        Self { start, end, line_start, line_end, column_start, column_end }
    }

    /// Widens `self` to cover `pos` as well. The start never moves and no end moves back.
    pub fn extend(&mut self, pos: Position)
        ensures
            *final(self) == old(self).union(pos),
            old(self).well_formed() ==> final(self).well_formed(),
    {
        if pos.line_end > self.line_end {
            self.line_end = pos.line_end;
        }
        if pos.column_end > self.column_end {
            self.column_end = pos.column_end;
        }
        if pos.end > self.end {
            self.end = pos.end;
        }
    }
}

/// Widening keeps a well-formed span well-formed, whatever it is widened by.
pub proof fn lemma_union_well_formed(a: Position, b: Position)
    requires
        a.well_formed(),
    ensures
        a.union(b).well_formed(),
{
}

/// Widening never shrinks: the result covers the receiver, and its ends reach at
/// least as far as those of the argument.
pub proof fn lemma_union_covers(a: Position, b: Position)
    ensures
        a.union(b).start == a.start,
        a.union(b).line_start == a.line_start,
        a.union(b).column_start == a.column_start,
        a.union(b).end >= a.end && a.union(b).end >= b.end,
        a.union(b).line_end >= a.line_end && a.union(b).line_end >= b.line_end,
        a.union(b).column_end >= a.column_end && a.union(b).column_end >= b.column_end,
{
}

/// Widening twice by the same span changes nothing more, and the order in which two
/// spans are added does not matter.
pub proof fn lemma_union_idempotent_commutes(a: Position, b: Position, c: Position)
    ensures
        a.union(b).union(b) == a.union(b),
        a.union(a) == a,
        a.union(b).union(c) == a.union(c).union(b),
{
}

} // verus!
