use vstd::prelude::*;

verus! {

/// A half-open byte range `[start, end)` into one source text.
#[derive(Clone, Copy, Debug, PartialEq, Eq, Structural)]
pub struct Span {
    pub start: u32,
    pub end: u32,
}

impl Span {
    pub fn new(start: u32, end: u32) -> (r: Span)
        ensures
            r.start == start,
            r.end == end,
    {
        Span { start, end }
    }

    /// A span whose start does not exceed its end.
    pub open spec fn valid(self) -> bool {
        self.start <= self.end
    }

    /// `self` fully contains `inner` (a span contains itself).
    pub open spec fn spec_contains(self, inner: Span) -> bool {
        self.start <= inner.start && inner.end <= self.end
    }

    pub fn contains(&self, inner: &Span) -> (r: bool)
        ensures
            r == self.spec_contains(*inner),
    {
        self.start <= inner.start && inner.end <= self.end
    }

    /// The two spans share bytes, and neither contains the other.
    pub open spec fn spec_crosses(self, other: Span) -> bool {
        self.start < other.end && other.start < self.end && !self.spec_contains(other)
            && !other.spec_contains(self)
    }

    pub fn crosses(&self, other: &Span) -> (r: bool)
        ensures
            r == self.spec_crosses(*other),
    {
        self.start < other.end && other.start < self.end && !self.contains(other)
            && !other.contains(self)
    }
}

} // verus!
