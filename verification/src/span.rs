//! Source spans.

use vstd::prelude::*;

verus! {

/// A half-open byte range of the source text.
#[derive(Clone, Copy, PartialEq, Eq, Structural, Debug, Hash)]
pub struct Span {
    pub start: u32,
    pub end: u32,
}

impl Span {
    /// Creates the span `start..end`.
    pub fn new(start: u32, end: u32) -> (r: Span)
        ensures
            r == (Span { start, end }),
    {
        Span { start, end }
    }
}

/// The span given to synthesized nodes that have no source position.
pub open spec fn spec_dummy_sp() -> Span {
    Span { start: 0, end: 0 }
}

/// The span given to synthesized nodes that have no source position.
pub fn dummy_sp() -> (r: Span)
    ensures
        r == spec_dummy_sp(),
{
    Span { start: 0, end: 0 }
}

} // verus!
