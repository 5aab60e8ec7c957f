//! Points and half-open regions of a source text.

use std::cmp::Ordering;
use vstd::prelude::*;

verus! {

/// A point in a source text. `line` and `column` count from one, `absolute`
/// counts characters from zero.
#[derive(Clone, Copy, Debug, PartialEq, Eq, Structural)]
pub struct Location {
    pub line: i32,
    pub column: i32,
    pub absolute: i32,
}

impl Location {
    /// The point that stands for the end of the input: all three parts are -1.
    pub open spec fn spec_eof() -> Location {
        Location { line: -1i32, column: -1i32, absolute: -1i32 }
    }

    /// Whether `self` comes strictly before `other`, comparing the line, then
    /// the column, then the absolute offset.
    pub open spec fn precedes(self, other: Location) -> bool {
        self.line < other.line || (self.line == other.line && (self.column < other.column || (
        self.column == other.column && self.absolute < other.absolute)))
    }

    /// Whether `self` is `other` or comes before it.
    pub open spec fn at_or_before(self, other: Location) -> bool {
        self == other || self.precedes(other)
    }

    pub fn eof() -> (loc: Location)
        ensures
            loc == Location::spec_eof(),
    {
        Location { line: -1, column: -1, absolute: -1 }
    }

    /// Decides `precedes`.
    pub fn is_before(&self, other: &Location) -> (r: bool)
        ensures
            r == self.precedes(*other),
    {
        self.line < other.line || (self.line == other.line && (self.column < other.column || (
        self.column == other.column && self.absolute < other.absolute)))
    }
}

/// Where a point lies relative to a span.
#[derive(Clone, Copy, Debug, PartialEq, Eq, Structural)]
pub enum Containment {
    /// The point comes before the span starts.
    Before,
    /// The point is inside the span.
    Within,
    /// The point is at the span's end or after it.
    After,
}

/// The region from `start` up to, and not including, `end`.
#[derive(Clone, Copy, Debug, PartialEq, Eq, Structural)]
pub struct Span {
    pub start: Location,
    pub end: Location,
}

impl Span {
    /// Whether `loc` is inside the span: at or after `start` and before `end`.
    pub open spec fn contains(self, loc: Location) -> bool {
        !loc.precedes(self.start) && loc.precedes(self.end)
    }

    /// Where `loc` lies relative to the span.
    pub open spec fn locate(self, loc: Location) -> Containment {
        if loc.precedes(self.start) {
            Containment::Before
        } else if loc.precedes(self.end) {
            Containment::Within
        } else {
            Containment::After
        }
    }

    /// Whether the span does not end before it starts.
    pub open spec fn ordered(self) -> bool {
        self.start.at_or_before(self.end)
    }

    /// Whether every point of `self` is a point of `outer`.
    pub open spec fn within(self, outer: Span) -> bool {
        outer.start.at_or_before(self.start) && self.end.at_or_before(outer.end)
    }

    /// Whether `self` ends where `next` starts, or earlier.
    pub open spec fn ends_before(self, next: Span) -> bool {
        self.end.at_or_before(next.start)
    }

    /// `locate`, computed.
    pub fn position_of(&self, loc: &Location) -> (r: Containment)
        ensures
            r == self.locate(*loc),
    {
        if loc.is_before(&self.start) {
            Containment::Before
        } else if loc.is_before(&self.end) {
            Containment::Within
        } else {
            Containment::After
        }
    }

    /// The three-way comparison of a point with the span: `Less` when the point
    /// comes before the span, `Equal` when it is inside, `Greater` when it is at
    /// the end or beyond.
    pub fn containment(&self, loc: &Location) -> (r: Ordering)
        ensures
            (r == Ordering::Less) == (self.locate(*loc) == Containment::Before),
            (r == Ordering::Equal) == (self.locate(*loc) == Containment::Within),
            (r == Ordering::Greater) == (self.locate(*loc) == Containment::After),
    {
        match self.position_of(loc) {
            Containment::Before => Ordering::Less,
            Containment::Within => Ordering::Equal,
            Containment::After => Ordering::Greater,
        }
    }
}

/// A value together with the region of the source it came from.
#[derive(Clone, Debug, PartialEq, Eq)]
pub struct Spanned<T> {
    pub span: Span,
    pub value: T,
}

} // verus!
