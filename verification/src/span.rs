use vstd::prelude::*;

verus! {

/// A half-open byte range `[start, end)` in a source text.
#[derive(Debug, Clone, Copy, PartialEq, Eq, Structural)]
pub struct Span {
    pub start: u32,
    pub end: u32,
}

impl Span {
    pub fn new(start: u32, end: u32) -> (res: Span)
        ensures
            res.start == start,
            res.end == end,
    {
        Span { start, end }
    }

    /// True when `offset` lies in the half-open range.
    pub open spec fn contains(self, offset: int) -> bool {
        self.start <= offset < self.end
    }
}

/// True when `offset` lies in the span.
pub fn span_contains(span: Span, offset: u32) -> (res: bool)
    ensures
        res == span.contains(offset as int),
{
    offset >= span.start && offset < span.end
}

} // verus!
