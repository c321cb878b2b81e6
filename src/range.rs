//! Index ranges, as handed to `drain`.
use vstd::prelude::*;
use core::ops::{Bound, RangeBounds};

verus! {

/// One end of a range of indices.
#[derive(PartialEq, Eq, Structural, Debug, Clone, Copy)]
pub enum Edge {
    Included(usize),
    Excluded(usize),
    Unbounded,
}

/// Relies on `RangeBounds::start_bound`: where the range starts.
#[verifier::external_body]
pub(crate) fn start_edge<R: RangeBounds<usize>>(range: &R) -> (r: Edge) {
    match range.start_bound() {
        Bound::Included(i) => Edge::Included(*i),
        Bound::Excluded(i) => Edge::Excluded(*i),
        Bound::Unbounded => Edge::Unbounded,
    }
}

/// Relies on `RangeBounds::end_bound`: where the range ends.
#[verifier::external_body]
pub(crate) fn end_edge<R: RangeBounds<usize>>(range: &R) -> (r: Edge) {
    match range.end_bound() {
        Bound::Included(i) => Edge::Included(*i),
        Bound::Excluded(i) => Edge::Excluded(*i),
        Bound::Unbounded => Edge::Unbounded,
    }
}

/// First index that a range with this start covers.
pub open spec fn first_index(start: Edge) -> int {
    match start {
        Edge::Included(i) => i as int,
        Edge::Excluded(i) => i + 1,
        Edge::Unbounded => 0,
    }
}

/// Index just past the last one that a range with this end covers, in a
/// sequence of `len` items.
pub open spec fn past_index(end: Edge, len: int) -> int {
    match end {
        Edge::Included(i) => i + 1,
        Edge::Excluded(i) => i as int,
        Edge::Unbounded => len,
    }
}

/// The half-open window `[first, past)` that the two ends pick out of
/// `len` items, or `None` where it does not lie within them.
pub fn resolve(start: Edge, end: Edge, len: usize) -> (r: Option<(usize, usize)>)
    ensures
        match r {
            Some((a, b)) => a == first_index(start) && b == past_index(end, len as int),
            None => true,
        },
        r is Some <==> 0 <= first_index(start) <= past_index(end, len as int) <= len,
{
    let first: usize = match start {
        Edge::Included(i) => i,
        Edge::Excluded(i) => {
            if i == usize::MAX {
                return None;
            }
            i + 1
        },
        Edge::Unbounded => 0,
    };
    let past: usize = match end {
        Edge::Included(i) => {
            if i == usize::MAX {
                return None;
            }
            i + 1
        },
        Edge::Excluded(i) => i,
        Edge::Unbounded => len,
    };
    if first <= past && past <= len {
        Some((first, past))
    } else {
        None
    }
}

} // verus!
