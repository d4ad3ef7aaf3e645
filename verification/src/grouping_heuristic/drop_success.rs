//! Dropping the items that succeeded.

use crate::grouping_heuristic::originals;
use crate::grouping_heuristic::ElementalOutcome;
use crate::grouping_heuristic::GroupingOutcome;
use vstd::prelude::*;

verus! {

/// Removes from every group the items that succeeded.
pub struct DropSuccess;

/// The outcomes of a group that are not successes, in order.
pub open spec fn without_success<T>(group: Seq<ElementalOutcome<T>>) -> Seq<ElementalOutcome<T>> {
    group.filter(|outcome: ElementalOutcome<T>| !(outcome is Success))
}

/// Dropping successes leaves no success, and neither adds nor loses an item
/// that is to apply or that failed: those stay, in their order.
pub proof fn lemma_without_success<T>(group: Seq<ElementalOutcome<T>>)
    ensures
        forall|i: int|
            0 <= i < without_success(group).len() ==> !(#[trigger] without_success(group)[i]
                is Success),
        without_success(group).filter(|outcome: ElementalOutcome<T>| outcome is Apply)
            == group.filter(|outcome: ElementalOutcome<T>| outcome is Apply),
        without_success(group).filter(|outcome: ElementalOutcome<T>| outcome is Failure)
            == group.filter(|outcome: ElementalOutcome<T>| outcome is Failure),
        originals(without_success(group)) == originals(group),
    decreases group.len(),
{
    let keep = |outcome: ElementalOutcome<T>| !(outcome is Success);
    let apply = |outcome: ElementalOutcome<T>| outcome is Apply;
    let failure = |outcome: ElementalOutcome<T>| outcome is Failure;
    assert forall|i: int| 0 <= i < without_success(group).len() implies !(
    #[trigger] without_success(group)[i] is Success) by {
        group.lemma_filter_pred(keep, i);
    }
    if group.len() == 0 {
        assert(group.filter(keep) =~= group);
    } else {
        let rest = group.drop_last();
        let last = group.last();
        lemma_without_success(rest);
        assert(group =~= rest.push(last));
        rest.lemma_filter_push(last, keep);
        rest.lemma_filter_push(last, apply);
        rest.lemma_filter_push(last, failure);
        if keep(last) {
            rest.filter(keep).lemma_filter_push(last, apply);
            rest.filter(keep).lemma_filter_push(last, failure);
            assert(rest.filter(keep).push(last).drop_last() =~= rest.filter(keep));
        }
    }
}

impl DropSuccess {
    /// The heuristic.
    pub fn new() -> (r: Self) {
        DropSuccess
    }

    /// Drops the successes of every group. The groups stay, each with its other
    /// items in their order.
    pub fn distribute<T>(&self, distribution: Vec<GroupingOutcome<T>>) -> (r: Vec<
        GroupingOutcome<T>,
    >)
        ensures
            r@.len() == distribution@.len(),
            forall|g: int|
                0 <= g < r@.len() ==> (#[trigger] r@[g])@ == without_success(distribution@[g]@),
    {
        let ghost groups = distribution@;
        let mut out: Vec<GroupingOutcome<T>> = Vec::new();
        for group in it: distribution.into_iter()
            invariant
                it.seq() == groups,
                out@.len() == it.index(),
                forall|g: int|
                    0 <= g < out@.len() ==> (#[trigger] out@[g])@ == without_success(groups[g]@),
        {
            out.push(drop_success_of(group));
        }
        out
    }
}

fn drop_success_of<T>(group: GroupingOutcome<T>) -> (r: GroupingOutcome<T>)
    ensures
        r@ == without_success(group@),
{
    let ghost outcomes = group@;
    let ghost keep = |outcome: ElementalOutcome<T>| !(outcome is Success);
    let mut kept: Vec<ElementalOutcome<T>> = Vec::new();
    for outcome in it: group.0.into_iter()
        invariant
            it.seq() == outcomes,
            keep == |outcome: ElementalOutcome<T>| !(outcome is Success),
            kept@ == outcomes.take(it.index()).filter(keep),
    {
        proof {
            assert(outcomes.take(it.index() + 1) =~= outcomes.take(it.index()).push(outcome));
            outcomes.take(it.index()).lemma_filter_push(outcome, keep);
        }
        if !outcome.is_success() {
            kept.push(outcome);
        }
    }
    proof {
        assert(outcomes.take(outcomes.len() as int) =~= outcomes);
    }
    GroupingOutcome(kept)
}

} // verus!
