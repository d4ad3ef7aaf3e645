//! Heuristics that regroup work items between attempts.
//!
//! A distribution is a sequence of groups, and a group is a sequence of labelled
//! items: an item still to apply, an item that succeeded, or an item that
//! failed. A heuristic turns one distribution into the next: it drops what is
//! done, offers failures again, splits items or packs them into groups that fit
//! a capacity.

use vstd::prelude::*;

pub mod apply;
pub mod binpacking;
pub mod drop_success;
pub mod skip;
pub mod splitting;
pub mod stack;

verus! {

/// What became of one item.
pub enum ElementalOutcome<T> {
    /// The item is still to be applied.
    Apply(T),
    /// The item was applied.
    Success,
    /// The item could not be applied.
    Failure(T),
}

impl<T> ElementalOutcome<T> {
    /// The item that the outcome carries, if it carries one.
    pub open spec fn payload(self) -> Option<T> {
        match self {
            ElementalOutcome::Apply(item) => Some(item),
            ElementalOutcome::Success => None,
            ElementalOutcome::Failure(item) => Some(item),
        }
    }

    /// The outcome with a failure offered again.
    pub open spec fn applied(self) -> Self {
        match self {
            ElementalOutcome::Failure(item) => ElementalOutcome::Apply(item),
            other => other,
        }
    }

    /// The outcome with an item to apply given up.
    pub open spec fn failed(self) -> Self {
        match self {
            ElementalOutcome::Apply(item) => ElementalOutcome::Failure(item),
            other => other,
        }
    }

    /// Whether the item is still to be applied.
    pub fn is_apply(&self) -> (r: bool)
        ensures
            r == (*self is Apply),
    {
        match self {
            ElementalOutcome::Apply(_) => true,
            _ => false,
        }
    }

    /// Whether the item was applied.
    pub fn is_success(&self) -> (r: bool)
        ensures
            r == (*self is Success),
    {
        match self {
            ElementalOutcome::Success => true,
            _ => false,
        }
    }

    /// Whether the item could not be applied.
    pub fn is_failure(&self) -> (r: bool)
        ensures
            r == (*self is Failure),
    {
        match self {
            ElementalOutcome::Failure(_) => true,
            _ => false,
        }
    }

    /// Whether nothing is left to do for the item.
    pub fn is_done(&self) -> (r: bool)
        ensures
            r == !(*self is Apply),
    {
        !self.is_apply()
    }

    /// Offers a failure again; other outcomes stay as they are.
    pub fn to_apply(self) -> (r: Self)
        ensures
            r == self.applied(),
    {
        match self {
            ElementalOutcome::Failure(item) => ElementalOutcome::Apply(item),
            other => other,
        }
    }

    /// Gives up an item to apply; other outcomes stay as they are.
    pub fn to_failure(self) -> (r: Self)
        ensures
            r == self.failed(),
    {
        match self {
            ElementalOutcome::Apply(item) => ElementalOutcome::Failure(item),
            other => other,
        }
    }
}

/// The items that a sequence of outcomes carries, in order.
pub open spec fn originals<T>(outcomes: Seq<ElementalOutcome<T>>) -> Seq<T>
    decreases outcomes.len(),
{
    if outcomes.len() == 0 {
        Seq::empty()
    } else {
        let rest = originals(outcomes.drop_last());
        match outcomes.last().payload() {
            Some(item) => rest.push(item),
            None => rest,
        }
    }
}

/// Items that are all to apply carry themselves.
pub proof fn lemma_originals_of_applied<T>(items: Seq<T>)
    ensures
        originals(items.map_values(|item: T| ElementalOutcome::Apply(item))) == items,
    decreases items.len(),
{
    let apply = |item: T| ElementalOutcome::Apply(item);
    if items.len() == 0 {
        assert(originals(items.map_values(apply)) =~= items);
    } else {
        lemma_originals_of_applied(items.drop_last());
        assert(items.map_values(apply).drop_last() =~= items.drop_last().map_values(apply));
        assert(items.drop_last().push(items.last()) =~= items);
    }
}

/// A group of labelled items.
pub struct GroupingOutcome<T>(pub Vec<ElementalOutcome<T>>);

impl<T> View for GroupingOutcome<T> {
    type V = Seq<ElementalOutcome<T>>;

    open spec fn view(&self) -> Seq<ElementalOutcome<T>> {
        self.0@
    }
}

/// The groups of a distribution as sequences of outcomes.
pub open spec fn groups_of<T>(distribution: Seq<GroupingOutcome<T>>) -> Seq<
    Seq<ElementalOutcome<T>>,
> {
    distribution.map_values(|group: GroupingOutcome<T>| group@)
}

impl<T> GroupingOutcome<T> {
    /// A group of the given outcomes.
    pub fn new(outcome: Vec<ElementalOutcome<T>>) -> (r: Self)
        ensures
            r@ == outcome@,
    {
        GroupingOutcome(outcome)
    }

    /// A group in which every item is to be applied.
    pub fn new_apply(grouping: Vec<T>) -> (r: Self)
        ensures
            r@ == grouping@.map_values(|item: T| ElementalOutcome::Apply(item)),
    {
        let ghost items = grouping@;
        let mut outcomes: Vec<ElementalOutcome<T>> = Vec::new();
        for item in it: grouping.into_iter()
            invariant
                it.seq() == items,
                outcomes@ == items.take(it.index()).map_values(
                    |item: T| ElementalOutcome::Apply(item),
                ),
        {
            outcomes.push(ElementalOutcome::Apply(item));
            proof {
                let apply = |item: T| ElementalOutcome::Apply(item);
                assert(items.take(it.index() + 1).map_values(apply) =~= items.take(
                    it.index(),
                ).map_values(apply).push(apply(items[it.index()])));
            }
        }
        proof {
            assert(items.take(items.len() as int) =~= items);
        }
        GroupingOutcome(outcomes)
    }

    /// A group of `size` items that all succeeded.
    pub fn new_all_success(size: usize) -> (r: Self)
        ensures
            r@ == Seq::new(size as nat, |i: int| ElementalOutcome::<T>::Success),
    {
        let mut outcomes: Vec<ElementalOutcome<T>> = Vec::new();
        let mut i: usize = 0;
        while i < size
            invariant
                i <= size,
                outcomes@ == Seq::new(i as nat, |i: int| ElementalOutcome::<T>::Success),
            decreases size - i,
        {
            outcomes.push(ElementalOutcome::Success);
            i += 1;
            proof {
                assert(outcomes@ =~= Seq::new(i as nat, |i: int| ElementalOutcome::<T>::Success));
            }
        }
        GroupingOutcome(outcomes)
    }

    /// The distribution to start from: one group in which every item is to be
    /// applied.
    pub fn new_apply_distribution(distribution: Vec<T>) -> (r: Vec<Self>)
        ensures
            r@.len() == 1,
            r@[0]@ == distribution@.map_values(|item: T| ElementalOutcome::Apply(item)),
    {
        let mut groups: Vec<Self> = Vec::new();
        groups.push(Self::new_apply(distribution));
        groups
    }

    /// The outcomes of the group.
    pub fn into_inner(self) -> (r: Vec<ElementalOutcome<T>>)
        ensures
            r@ == self@,
    {
        self.0
    }

    /// The items that the group carries, in order: those to apply and those
    /// that failed.
    pub fn into_original(self) -> (r: Vec<T>)
        ensures
            r@ == originals(self@),
    {
        let ghost outcomes = self@;
        let mut items: Vec<T> = Vec::new();
        for outcome in it: self.0.into_iter()
            invariant
                it.seq() == outcomes,
                items@ == originals(outcomes.take(it.index())),
        {
            proof {
                assert(outcomes.take(it.index() + 1).drop_last() =~= outcomes.take(it.index()));
            }
            match outcome {
                ElementalOutcome::Apply(item) => items.push(item),
                ElementalOutcome::Success => {},
                ElementalOutcome::Failure(item) => items.push(item),
            }
        }
        proof {
            assert(outcomes.take(outcomes.len() as int) =~= outcomes);
        }
        items
    }

    /// The group with every item that was still to apply given up.
    pub fn to_failures(self) -> (r: Self)
        ensures
            r@ == self@.map_values(|outcome: ElementalOutcome<T>| outcome.failed()),
    {
        let ghost outcomes = self@;
        let ghost fail = |outcome: ElementalOutcome<T>| outcome.failed();
        let mut failures: Vec<ElementalOutcome<T>> = Vec::new();
        for outcome in it: self.0.into_iter()
            invariant
                it.seq() == outcomes,
                fail == |outcome: ElementalOutcome<T>| outcome.failed(),
                failures@ == outcomes.take(it.index()).map_values(fail),
        {
            failures.push(outcome.to_failure());
            proof {
                assert(outcomes.take(it.index() + 1).map_values(fail) =~= outcomes.take(
                    it.index(),
                ).map_values(fail).push(fail(outcomes[it.index()])));
            }
        }
        proof {
            assert(outcomes.take(outcomes.len() as int) =~= outcomes);
        }
        GroupingOutcome(failures)
    }

    /// Whether every item of the group succeeded.
    pub fn all_succeeded(&self) -> (r: bool)
        ensures
            r == forall|i: int| 0 <= i < self@.len() ==> #[trigger] self@[i] is Success,
    {
        let mut i: usize = 0;
        while i < self.0.len()
            invariant
                i <= self.0.len(),
                forall|j: int| 0 <= j < i ==> #[trigger] self@[j] is Success,
            decreases self.0.len() - i,
        {
            if !self.0[i].is_success() {
                return false;
            }
            i += 1;
        }
        true
    }

    /// Whether nothing is left to apply in the group.
    pub fn all_done(&self) -> (r: bool)
        ensures
            r == forall|i: int| 0 <= i < self@.len() ==> !(#[trigger] self@[i] is Apply),
    {
        let mut i: usize = 0;
        while i < self.0.len()
            invariant
                i <= self.0.len(),
                forall|j: int| 0 <= j < i ==> !(#[trigger] self@[j] is Apply),
            decreases self.0.len() - i,
        {
            if !self.0[i].is_done() {
                return false;
            }
            i += 1;
        }
        true
    }
}

} // verus!
