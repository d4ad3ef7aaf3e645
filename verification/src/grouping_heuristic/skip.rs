//! Holding a heuristic back for the first rounds.

use crate::grouping_heuristic::stack::GroupingHeuristic;
use vstd::prelude::*;

verus! {

/// Lets the first `skip` distributions pass through unchanged and hands the
/// later ones to `inner`.
pub struct SkipFor {
    /// The number of distributions still to let through unchanged.
    pub skip: usize,
    /// The heuristic that takes over afterwards.
    pub inner: Box<GroupingHeuristic>,
}

impl SkipFor {
    /// The heuristic that holds `inner` back for `skip` rounds.
    pub fn new(skip: usize, inner: GroupingHeuristic) -> (r: Self)
        ensures
            r.skip == skip,
            *r.inner == inner,
    {
        SkipFor { skip, inner: Box::new(inner) }
    }

    /// The heuristic, ready for a stack.
    pub fn boxed(skip: usize, inner: GroupingHeuristic) -> (r: GroupingHeuristic)
        ensures
            r == GroupingHeuristic::SkipFor(SkipFor { skip, inner: Box::new(inner) }),
    {
        GroupingHeuristic::SkipFor(SkipFor::new(skip, inner))
    }
}

} // verus!
