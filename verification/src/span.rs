//! Byte ranges into the source text and the containment test that drives
//! the correlation step.

use vstd::prelude::*;

verus! {

/// Half-open interval `[start, end)` of byte offsets into the source text.
/// Well-formed when `start <= end`; equality is equality of both endpoints.
#[derive(Clone, Copy, Debug, PartialEq, Eq, Structural)]
pub struct ByteRange {
    pub start: usize,
    pub end: usize,
}

pub open spec fn range_wf(r: ByteRange) -> bool {
    r.start <= r.end
}

/// Full containment: `inner` lies inside `outer`; the two may be equal.
pub open spec fn range_contains(outer: ByteRange, inner: ByteRange) -> bool {
    inner.start >= outer.start && inner.end <= outer.end
}

pub fn range_contains_exec(outer: &ByteRange, inner: &ByteRange) -> (r: bool)
    ensures
        r == range_contains(*outer, *inner),
{
    inner.start >= outer.start && inner.end <= outer.end
}

} // verus!
