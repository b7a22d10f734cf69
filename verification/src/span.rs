//! Byte-offset spans in the global coordinate space of a compilation's
//! source map, and the tokens that carry them.

use vstd::prelude::*;

verus! {

/// An immutable `(lo, hi)` byte-offset pair, `lo <= hi`, in the coordinate
/// space of the whole compilation's source map.
#[derive(Clone, Copy, Debug, PartialEq, Eq, Structural)]
pub struct SourceSpan {
    pub lo: usize,
    pub hi: usize,
}

impl SourceSpan {
    /// A span is well formed when its bounds are ordered.
    pub open spec fn wf(self) -> bool {
        self.lo <= self.hi
    }

    /// Two spans overlap iff their byte ranges intersect: they share at
    /// least one byte, or a zero-length point of one lies within the
    /// other's range (boundaries included).
    pub open spec fn overlaps(self, other: SourceSpan) -> bool {
        self.lo <= other.hi && other.lo <= self.hi
    }

    pub fn new(lo: usize, hi: usize) -> (s: SourceSpan)
        requires
            lo <= hi,
        ensures
            s == (SourceSpan { lo, hi }),
    {
        SourceSpan { lo, hi }
    }

    /// Runtime overlap test, equal to the spec-level relation.
    pub fn overlaps_with(&self, other: &SourceSpan) -> (r: bool)
        ensures
            r == self.overlaps(*other),
    {
        self.lo <= other.hi && other.lo <= self.hi
    }
}

/// One lexical token of a function body: its ordinal position in lexical
/// order and its span, rebased into global file coordinates.
#[derive(Clone, Copy, Debug, PartialEq, Eq, Structural)]
pub struct Token {
    pub index: usize,
    pub span: SourceSpan,
}

} // verus!
