//! Offering failed items again.

use crate::grouping_heuristic::ElementalOutcome;
use crate::grouping_heuristic::GroupingOutcome;
use vstd::prelude::*;

verus! {

/// Relabels every failed item as an item to apply.
pub struct ToApply;

/// The outcomes of a group with every failure offered again.
pub open spec fn reoffered<T>(group: Seq<ElementalOutcome<T>>) -> Seq<ElementalOutcome<T>> {
    group.map_values(|outcome: ElementalOutcome<T>| outcome.applied())
}

impl ToApply {
    /// The heuristic.
    pub fn new() -> (r: Self) {
        ToApply
    }

    /// Relabels the failures of every group. The groups stay, each with its
    /// items in their order; items to apply and successes pass through.
    pub fn distribute<T>(&self, distribution: Vec<GroupingOutcome<T>>) -> (r: Vec<
        GroupingOutcome<T>,
    >)
        ensures
            r@.len() == distribution@.len(),
            forall|g: int|
                0 <= g < r@.len() ==> (#[trigger] r@[g])@ == reoffered(distribution@[g]@),
    {
        let ghost groups = distribution@;
        let mut out: Vec<GroupingOutcome<T>> = Vec::new();
        for group in it: distribution.into_iter()
            invariant
                it.seq() == groups,
                out@.len() == it.index(),
                forall|g: int|
                    0 <= g < out@.len() ==> (#[trigger] out@[g])@ == reoffered(groups[g]@),
        {
            out.push(reoffer(group));
        }
        out
    }
}

fn reoffer<T>(group: GroupingOutcome<T>) -> (r: GroupingOutcome<T>)
    ensures
        r@ == reoffered(group@),
{
    let ghost outcomes = group@;
    let ghost relabel = |outcome: ElementalOutcome<T>| outcome.applied();
    let mut relabelled: Vec<ElementalOutcome<T>> = Vec::new();
    for outcome in it: group.0.into_iter()
        invariant
            it.seq() == outcomes,
            relabel == |outcome: ElementalOutcome<T>| outcome.applied(),
            relabelled@ == outcomes.take(it.index()).map_values(relabel),
    {
        proof {
            assert(outcomes.take(it.index() + 1).map_values(relabel) =~= outcomes.take(
                it.index(),
            ).map_values(relabel).push(relabel(outcome)));
        }
        relabelled.push(outcome.to_apply());
    }
    proof {
        assert(outcomes.take(outcomes.len() as int) =~= outcomes);
    }
    GroupingOutcome(relabelled)
}

} // verus!
