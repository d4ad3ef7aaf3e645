//! A stack of heuristics, applied one after the other.

use crate::grouping_heuristic::apply::reoffered;
use crate::grouping_heuristic::apply::ToApply;
use crate::grouping_heuristic::binpacking::binpacked;
use crate::grouping_heuristic::binpacking::BinpackingWeighted;
use crate::grouping_heuristic::binpacking::FirstFitBinpacking;
use crate::grouping_heuristic::drop_success::without_success;
use crate::grouping_heuristic::drop_success::DropSuccess;
use crate::grouping_heuristic::groups_of;
use crate::grouping_heuristic::skip::SkipFor;
use crate::grouping_heuristic::splitting::split_of;
use crate::grouping_heuristic::splitting::Splitable;
use crate::grouping_heuristic::splitting::Splitting;
use crate::grouping_heuristic::ElementalOutcome;
use crate::grouping_heuristic::GroupingOutcome;
use vstd::prelude::*;

verus! {

/// One of the heuristics.
pub enum GroupingHeuristic {
    /// Drops the items that succeeded.
    DropSuccess(DropSuccess),
    /// Offers failed items again.
    ToApply(ToApply),
    /// Splits the items to apply.
    Splitting(Splitting),
    /// Holds another heuristic back for some rounds.
    SkipFor(SkipFor),
    /// Packs the items to apply into groups that fit a capacity.
    FirstFitBinpacking(FirstFitBinpacking),
}

/// Whether `heuristic`, given the groups `input`, may hand out the groups
/// `output` and be `after` from then on.
pub open spec fn distributes<T: Splitable + BinpackingWeighted>(
    heuristic: GroupingHeuristic,
    input: Seq<Seq<ElementalOutcome<T>>>,
    after: GroupingHeuristic,
    output: Seq<Seq<ElementalOutcome<T>>>,
) -> bool
    decreases heuristic,
{
    match heuristic {
        GroupingHeuristic::DropSuccess(_) => {
            &&& after == heuristic
            &&& output == input.map_values(
                |group: Seq<ElementalOutcome<T>>| without_success(group),
            )
        },
        GroupingHeuristic::ToApply(_) => {
            &&& after == heuristic
            &&& output == input.map_values(|group: Seq<ElementalOutcome<T>>| reoffered(group))
        },
        GroupingHeuristic::Splitting(splitting) => {
            &&& after == heuristic
            &&& output.len() == input.len()
            &&& forall|g: int|
                0 <= g < input.len() ==> split_of(input[g], splitting.factor, #[trigger] output[g])
        },
        GroupingHeuristic::SkipFor(skip_for) => {
            if skip_for.skip > 0 {
                &&& after == GroupingHeuristic::SkipFor(
                    SkipFor { skip: (skip_for.skip - 1) as usize, inner: skip_for.inner },
                )
                &&& output == input
            } else {
                &&& after matches GroupingHeuristic::SkipFor(later)
                &&& later.skip == 0
                &&& distributes(*skip_for.inner, input, *later.inner, output)
            }
        },
        GroupingHeuristic::FirstFitBinpacking(packing) => {
            &&& after == heuristic
            &&& output == binpacked(input.flatten(), packing.capacity)
        },
    }
}

impl DropSuccess {
    /// The heuristic, ready for a stack.
    pub fn boxed() -> (r: GroupingHeuristic)
        ensures
            r == GroupingHeuristic::DropSuccess(DropSuccess),
    {
        GroupingHeuristic::DropSuccess(DropSuccess)
    }
}

impl ToApply {
    /// The heuristic, ready for a stack.
    pub fn boxed() -> (r: GroupingHeuristic)
        ensures
            r == GroupingHeuristic::ToApply(ToApply),
    {
        GroupingHeuristic::ToApply(ToApply)
    }
}

impl Splitting {
    /// The heuristic, ready for a stack.
    pub fn boxed(factor: usize) -> (r: GroupingHeuristic)
        ensures
            r == GroupingHeuristic::Splitting(Splitting { factor }),
    {
        GroupingHeuristic::Splitting(Splitting { factor })
    }
}

impl FirstFitBinpacking {
    /// The heuristic, ready for a stack.
    pub fn boxed(capacity: usize) -> (r: GroupingHeuristic)
        ensures
            r == GroupingHeuristic::FirstFitBinpacking(FirstFitBinpacking { capacity }),
    {
        GroupingHeuristic::FirstFitBinpacking(FirstFitBinpacking { capacity })
    }
}

impl GroupingHeuristic {
    /// Turns one distribution into the next.
    pub fn distribute<T: Splitable + BinpackingWeighted>(
        &mut self,
        distribution: Vec<GroupingOutcome<T>>,
    ) -> (r: Vec<GroupingOutcome<T>>)
        ensures
            distributes(*old(self), groups_of(distribution@), *final(self), groups_of(r@)),
        decreases *old(self),
    {
        match self {
            GroupingHeuristic::DropSuccess(heuristic) => {
                let out = heuristic.distribute(distribution);
                proof {
                    assert(groups_of(out@) =~= groups_of(distribution@).map_values(
                        |group: Seq<ElementalOutcome<T>>| without_success(group),
                    ));
                }
                out
            },
            GroupingHeuristic::ToApply(heuristic) => {
                let out = heuristic.distribute(distribution);
                proof {
                    assert(groups_of(out@) =~= groups_of(distribution@).map_values(
                        |group: Seq<ElementalOutcome<T>>| reoffered(group),
                    ));
                }
                out
            },
            GroupingHeuristic::Splitting(heuristic) => {
                let out = heuristic.distribute(distribution);
                proof {
                    assert forall|g: int| 0 <= g < groups_of(distribution@).len() implies split_of(
                        groups_of(distribution@)[g],
                        heuristic.factor,
                        #[trigger] groups_of(out@)[g],
                    ) by {
                        assert(split_of(distribution@[g]@, heuristic.factor, out@[g]@));
                    }
                }
                out
            },
            GroupingHeuristic::SkipFor(heuristic) => {
                if heuristic.skip > 0 {
                    heuristic.skip = heuristic.skip - 1;
                    distribution
                } else {
                    heuristic.inner.distribute(distribution)
                }
            },
            GroupingHeuristic::FirstFitBinpacking(heuristic) => heuristic.distribute(distribution),
        }
    }
}

/// Whether nothing is left to apply in a distribution.
pub fn all_done<T>(distribution: &Vec<GroupingOutcome<T>>) -> (r: bool)
    ensures
        r == forall|g: int, i: int|
            0 <= g < distribution@.len() && 0 <= i < distribution@[g]@.len() ==> !(
            #[trigger] distribution@[g]@[i] is Apply),
{
    let mut g: usize = 0;
    while g < distribution.len()
        invariant
            g <= distribution.len(),
            forall|h: int, i: int|
                0 <= h < g && 0 <= i < distribution@[h]@.len() ==> !(
                #[trigger] distribution@[h]@[i] is Apply),
        decreases distribution.len() - g,
    {
        if !distribution[g].all_done() {
            return false;
        }
        g += 1;
    }
    true
}

/// Heuristics that are applied in order, each to what the one before it
/// handed out.
pub struct GroupingHeuristicStack {
    /// The heuristics, first to last.
    pub heuristics: Vec<GroupingHeuristic>,
}

/// Whether the heuristics `stack`, given the groups `input`, may hand out the
/// groups `output` and be `after` from then on: each heuristic takes what the
/// one before it handed out.
pub open spec fn stack_distributes<T: Splitable + BinpackingWeighted>(
    stack: Seq<GroupingHeuristic>,
    input: Seq<Seq<ElementalOutcome<T>>>,
    after: Seq<GroupingHeuristic>,
    output: Seq<Seq<ElementalOutcome<T>>>,
) -> bool
    decreases stack.len(),
{
    if stack.len() == 0 {
        after.len() == 0 && output == input
    } else {
        &&& after.len() == stack.len()
        &&& exists|between: Seq<Seq<ElementalOutcome<T>>>|
            {
                &&& stack_distributes(stack.drop_last(), input, after.drop_last(), between)
                &&& #[trigger] distributes(stack.last(), between, after.last(), output)
            }
    }
}

proof fn lemma_stack_step<T: Splitable + BinpackingWeighted>(
    stack: Seq<GroupingHeuristic>,
    input: Seq<Seq<ElementalOutcome<T>>>,
    after: Seq<GroupingHeuristic>,
    between: Seq<Seq<ElementalOutcome<T>>>,
    output: Seq<Seq<ElementalOutcome<T>>>,
)
    requires
        stack.len() > 0,
        after.len() == stack.len(),
        stack_distributes(stack.drop_last(), input, after.drop_last(), between),
        distributes(stack.last(), between, after.last(), output),
    ensures
        stack_distributes(stack, input, after, output),
{
}

impl GroupingHeuristicStack {
    /// A stack of the given heuristics, first to last.
    pub fn new(heuristics: Vec<GroupingHeuristic>) -> (r: Self)
        ensures
            r.heuristics@ == heuristics@,
    {
        GroupingHeuristicStack { heuristics }
    }

    /// Passes a distribution through every heuristic of the stack in order.
    pub fn distribute<T: Splitable + BinpackingWeighted>(
        &mut self,
        distribution: Vec<GroupingOutcome<T>>,
    ) -> (r: Vec<GroupingOutcome<T>>)
        ensures
            stack_distributes(
                old(self).heuristics@,
                groups_of(distribution@),
                final(self).heuristics@,
                groups_of(r@),
            ),
    {
        let ghost start = self.heuristics@;
        let ghost input = groups_of(distribution@);
        let mut current = distribution;
        let mut i: usize = 0;
        while i < self.heuristics.len()
            invariant
                i <= self.heuristics@.len(),
                self.heuristics@.len() == start.len(),
                forall|j: int| i <= j < start.len() ==> self.heuristics@[j] == start[j],
                stack_distributes(
                    start.take(i as int),
                    input,
                    self.heuristics@.take(i as int),
                    groups_of(current@),
                ),
            decreases self.heuristics@.len() - i,
        {
            let ghost before = self.heuristics@;
            let ghost between = groups_of(current@);
            current = self.heuristics[i].distribute(current);
            proof {
                assert(self.heuristics@.len() == before.len());
                assert(forall|j: int|
                    0 <= j < before.len() && j != i ==> self.heuristics@[j] == before[j]);
                assert(start.take(i + 1).last() == before[i as int]);
                assert(self.heuristics@.take(i + 1).last() == self.heuristics@[i as int]);
                assert(distributes(
                    before[i as int],
                    between,
                    self.heuristics@[i as int],
                    groups_of(current@),
                ));
                assert(start.take(i + 1).drop_last() =~= start.take(i as int));
                assert(self.heuristics@.take(i + 1).drop_last() =~= before.take(i as int));
                assert(stack_distributes(
                    start.take(i + 1).drop_last(),
                    input,
                    self.heuristics@.take(i + 1).drop_last(),
                    between,
                ));
                assert(distributes(
                    start.take(i + 1).last(),
                    between,
                    self.heuristics@.take(i + 1).last(),
                    groups_of(current@),
                ));
                lemma_stack_step(
                    start.take(i + 1),
                    input,
                    self.heuristics@.take(i + 1),
                    between,
                    groups_of(current@),
                );
            }
            i += 1;
        }
        proof {
            assert(start.take(start.len() as int) =~= start);
            assert(self.heuristics@.take(start.len() as int) =~= self.heuristics@);
        }
        current
    }
}

} // verus!
