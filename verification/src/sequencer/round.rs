//! One round of a submission: the groups of a distribution are offered to the
//! store one after the other, and what the store says of one group decides
//! what becomes of the groups behind it.

use crate::grouping_heuristic::groups_of;
use crate::grouping_heuristic::originals;
use crate::grouping_heuristic::stack::all_done;
use crate::grouping_heuristic::ElementalOutcome;
use crate::grouping_heuristic::GroupingOutcome;
use crate::sequencer::GroupPlan;
use crate::sequencer::LightNodeV1;
use crate::sequencer::WrappedBlock;
use vstd::prelude::*;

verus! {

/// A round that is under way: the outcomes of the groups that are settled,
/// the group whose blocks are with the store, the groups that wait behind it,
/// and the mark that a refusal leaves.
pub struct Round {
    settled: Vec<GroupingOutcome<WrappedBlock>>,
    pending: Option<Vec<WrappedBlock>>,
    waiting: Vec<GroupingOutcome<WrappedBlock>>,
    mark: bool,
}

/// A round as a mathematical value.
pub struct RoundView {
    /// The outcomes of the groups that are settled, in the order of the groups.
    pub settled: Seq<Seq<ElementalOutcome<WrappedBlock>>>,
    /// The blocks of the group that is with the store, if one is.
    pub pending: Option<Seq<WrappedBlock>>,
    /// The groups that wait, in order.
    pub waiting: Seq<Seq<ElementalOutcome<WrappedBlock>>>,
    /// Whether the store refused a group of this round.
    pub mark: bool,
}

/// A group with every item that was to apply marked as failed.
pub open spec fn failures_of(group: Seq<ElementalOutcome<WrappedBlock>>) -> Seq<
    ElementalOutcome<WrappedBlock>,
> {
    group.map_values(|item: ElementalOutcome<WrappedBlock>| item.failed())
}

/// What becomes of the blocks of a group that the store took or refused: a
/// success each where it took them, each to apply again where it refused.
pub open spec fn answered(blocks: Seq<WrappedBlock>, taken: bool) -> Seq<
    ElementalOutcome<WrappedBlock>,
> {
    if taken {
        Seq::new(blocks.len(), |i: int| ElementalOutcome::<WrappedBlock>::Success)
    } else {
        blocks.map_values(|block: WrappedBlock| ElementalOutcome::Apply(block))
    }
}

/// Whether nothing is left to apply in some groups.
pub open spec fn nothing_to_apply(groups: Seq<Seq<ElementalOutcome<WrappedBlock>>>) -> bool {
    forall|g: int, i: int|
        0 <= g < groups.len() && 0 <= i < groups[g].len() ==> !(#[trigger] groups[g][i] is Apply)
}

impl RoundView {
    /// Whether the groups that wait are held back: a group of the round is
    /// settled, and the store refused one.
    pub open spec fn holds_back(self) -> bool {
        self.settled.len() > 0 && self.mark
    }

    /// The round at its next stop. A round with a group at the store, or with
    /// no group waiting, stays as it is. Otherwise, where a group of the round
    /// was refused, every waiting group is settled with its items to apply
    /// marked as failed; where none was, the blocks of the first waiting
    /// group go to the store.
    pub open spec fn advanced(self) -> RoundView {
        if self.pending is Some || self.waiting.len() == 0 {
            self
        } else if self.holds_back() {
            RoundView {
                settled: self.settled + self.waiting.map_values(
                    |group: Seq<ElementalOutcome<WrappedBlock>>| failures_of(group),
                ),
                pending: None,
                waiting: Seq::empty(),
                mark: self.mark,
            }
        } else {
            RoundView {
                settled: self.settled,
                pending: Some(originals(self.waiting[0])),
                waiting: self.waiting.skip(1),
                mark: self.mark,
            }
        }
    }

    /// The round after the store answered for the group that was with it: the
    /// group is settled as the answer says, and a refusal leaves the mark. A
    /// round with no group at the store stays as it is.
    pub open spec fn submitted(self, taken: bool) -> RoundView {
        match self.pending {
            Some(blocks) => RoundView {
                settled: self.settled.push(answered(blocks, taken)),
                pending: None,
                waiting: self.waiting,
                mark: !taken,
            },
            None => self,
        }
    }
}

impl View for Round {
    type V = RoundView;

    closed spec fn view(&self) -> RoundView {
        RoundView {
            settled: groups_of(self.settled@),
            pending: match self.pending {
                Some(blocks) => Some(blocks@),
                None => None,
            },
            waiting: groups_of(self.waiting@),
            mark: self.mark,
        }
    }
}

impl Round {
    /// A round over the groups of a distribution: all of them wait, and no
    /// group was refused yet.
    pub fn new(distribution: Vec<GroupingOutcome<WrappedBlock>>) -> (r: Self)
        ensures
            r@ == (RoundView {
                settled: Seq::empty(),
                pending: None,
                waiting: groups_of(distribution@),
                mark: false,
            }),
    {
        let settled: Vec<GroupingOutcome<WrappedBlock>> = Vec::new();
        proof {
            assert(groups_of(settled@) =~= Seq::empty());
        }
        Round { settled, pending: None, waiting: distribution, mark: false }
    }

    /// Moves the round to its next stop and says whether a group is with the
    /// store then.
    pub fn next(&mut self) -> (r: bool)
        ensures
            final(self)@ == old(self)@.advanced(),
            r == final(self)@.pending is Some,
    {
        if self.pending.is_some() {
            return true;
        }
        let ghost start = self@;
        let ghost fail = |group: Seq<ElementalOutcome<WrappedBlock>>| failures_of(group);
        let mut passed: usize = 0;
        proof {
            assert(start.waiting.take(0).map_values(fail) =~= Seq::empty());
            assert(start.settled + Seq::empty() =~= start.settled);
            assert(start.waiting.skip(0) =~= start.waiting);
        }
        while self.waiting.len() > 0
            invariant
                fail == |group: Seq<ElementalOutcome<WrappedBlock>>| failures_of(group),
                start == old(self)@,
                self.pending is None,
                start.pending is None,
                self.mark == start.mark,
                passed <= start.waiting.len(),
                passed > 0 ==> start.holds_back(),
                self@.waiting == start.waiting.skip(passed as int),
                self@.settled == start.settled + start.waiting.take(passed as int).map_values(
                    fail,
                ),
            decreases self.waiting.len(),
        {
            let ghost settled = self@.settled;
            let ghost waiting = self@.waiting;
            let index = self.settled.len();
            let group = self.waiting.remove(0);
            proof {
                assert(group@ == waiting[0]);
                assert(groups_of(self.waiting@) =~= waiting.skip(1));
                assert(waiting.skip(1) =~= start.waiting.skip(passed + 1));
                assert(waiting[0] == start.waiting[passed as int]);
            }
            proof {
                assert(index == start.settled.len() + passed);
            }
            let (plan, mark) = LightNodeV1::plan_group(index, group, self.mark);
            match plan {
                GroupPlan::Settled(outcome) => {
                    self.settled.push(outcome);
                    self.mark = mark;
                    proof {
                        assert(outcome@ =~= failures_of(group@));
                        assert(groups_of(self.settled@) =~= settled.push(outcome@));
                        assert(start.waiting.take(passed + 1).map_values(fail)
                            =~= start.waiting.take(passed as int).map_values(fail).push(
                            fail(group@),
                        ));
                        assert(settled.push(outcome@) =~= start.settled + start.waiting.take(
                            passed + 1,
                        ).map_values(fail));
                    }
                    passed = passed + 1;
                },
                GroupPlan::Submit(blocks) => {
                    self.pending = Some(blocks);
                    proof {
                        assert(passed == 0);
                        assert(groups_of(self.settled@) == settled);
                        assert(start.waiting.take(0).map_values(fail) =~= Seq::empty());
                        assert(start.settled + Seq::empty() =~= start.settled);
                        assert(start.waiting.skip(0) =~= start.waiting);
                    }
                    return true;
                },
            }
        }
        proof {
            assert(start.waiting.take(passed as int) =~= start.waiting);
            assert(self@.waiting =~= Seq::empty());
        }
        false
    }

    /// The blocks of the group that is with the store, if one is.
    pub fn pending(&self) -> (r: Option<&Vec<WrappedBlock>>)
        ensures
            match r {
                Some(blocks) => self@.pending == Some(blocks@),
                None => self@.pending is None,
            },
    {
        self.pending.as_ref()
    }

    /// Takes in what the store said of the group that was with it.
    pub fn on_submitted(&mut self, taken: bool)
        ensures
            final(self)@ == old(self)@.submitted(taken),
    {
        let ghost settled = self@.settled;
        let mut pending: Option<Vec<WrappedBlock>> = None;
        std::mem::swap(&mut self.pending, &mut pending);
        match pending {
            Some(blocks) => {
                let (outcome, mark) = LightNodeV1::settle_group(blocks, taken);
                self.settled.push(outcome);
                self.mark = mark;
                proof {
                    assert(groups_of(self.settled@) =~= settled.push(outcome@));
                }
            },
            None => {},
        }
    }

    /// Ends the round: the outcomes of its settled groups, in the order of the
    /// groups, and whether nothing is left to apply in them.
    pub fn finish(self) -> (r: (Vec<GroupingOutcome<WrappedBlock>>, bool))
        ensures
            groups_of(r.0@) == self@.settled,
            r.1 == nothing_to_apply(self@.settled),
    {
        let done = all_done(&self.settled);
        proof {
            let groups = groups_of(self.settled@);
            assert(forall|g: int| 0 <= g < groups.len() ==> groups[g] == self.settled@[g]@);
            if done {
                assert forall|g: int, i: int|
                    0 <= g < groups.len() && 0 <= i < groups[g].len() implies !(
                #[trigger] groups[g][i] is Apply) by {
                    assert(!(self.settled@[g]@[i] is Apply));
                }
            } else if nothing_to_apply(groups) {
                assert forall|g: int, i: int|
                    0 <= g < self.settled@.len() && 0 <= i < self.settled@[g]@.len() implies !(
                #[trigger] self.settled@[g]@[i] is Apply) by {
                    assert(!(groups[g][i] is Apply));
                }
            }
        }
        (self.settled, done)
    }
}

/// The first refusal of a round is sticky: once the store refuses a group,
/// the blocks of that group are to apply again, no further group goes to the
/// store, and every group that waited comes back with its items to apply
/// marked as failed.
pub proof fn lemma_refusal_holds_back_the_rest(round: RoundView)
    requires
        round.pending is Some,
    ensures
        round.submitted(false).advanced().pending is None,
        round.submitted(false).advanced().advanced() == round.submitted(false).advanced(),
        round.submitted(false).advanced().settled == round.settled.push(
            answered(round.pending->0, false),
        ) + round.waiting.map_values(
            |group: Seq<ElementalOutcome<WrappedBlock>>| failures_of(group),
        ),
{
    let after = round.submitted(false);
    if after.waiting.len() == 0 {
        assert(after.waiting.map_values(
            |group: Seq<ElementalOutcome<WrappedBlock>>| failures_of(group),
        ) =~= Seq::empty());
        assert(after.settled + Seq::empty() =~= after.settled);
    }
}

/// While the store takes every group, every group goes to the store: after
/// an acceptance the first waiting group is the next that is offered, with
/// the blocks that it carries.
pub proof fn lemma_acceptance_offers_the_next(round: RoundView)
    requires
        round.pending is Some,
        round.waiting.len() > 0,
    ensures
        round.submitted(true).advanced().pending == Some(originals(round.waiting[0])),
        round.submitted(true).advanced().waiting == round.waiting.skip(1),
        round.submitted(true).advanced().settled == round.settled.push(
            answered(round.pending->0, true),
        ),
{
}

} // verus!
