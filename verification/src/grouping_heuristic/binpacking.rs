//! Packing the items that are to apply into groups that fit a capacity.

use crate::grouping_heuristic::groups_of;
use crate::grouping_heuristic::lemma_originals_of_applied;
use crate::grouping_heuristic::originals;
use crate::grouping_heuristic::ElementalOutcome;
use crate::grouping_heuristic::GroupingOutcome;
use vstd::prelude::*;
use vstd::seq_lib::lemma_multiset_commutative;
use vstd::seq_lib::to_multiset_build;
use vstd::seq_lib::to_multiset_contains;

verus! {

/// A value with a weight that counts against a capacity.
pub trait BinpackingWeighted {
    /// The weight of the value.
    spec fn weight_spec(&self) -> usize;

    /// The weight of the value.
    fn weight(&self) -> (w: usize)
        ensures
            w == self.weight_spec(),
    ;
}

/// Packs the items to apply into groups of at most `capacity` weight each,
/// first fit, heaviest item first.
pub struct FirstFitBinpacking {
    /// The weight that a group may hold.
    pub capacity: usize,
}

/// The weight of some items together.
pub open spec fn total_weight<T: BinpackingWeighted>(items: Seq<T>) -> nat
    decreases items.len(),
{
    if items.len() == 0 {
        0
    } else {
        total_weight(items.drop_last()) + items.last().weight_spec() as nat
    }
}

/// Whether an outcome is an item to apply that fits the capacity by itself.
pub open spec fn packable<T: BinpackingWeighted>(
    outcome: ElementalOutcome<T>,
    capacity: usize,
) -> bool {
    outcome matches ElementalOutcome::Apply(item) && item.weight_spec() <= capacity
}

/// The items to apply that fit the capacity, in order.
pub open spec fn fitting<T: BinpackingWeighted>(
    outcomes: Seq<ElementalOutcome<T>>,
    capacity: usize,
) -> Seq<T>
    decreases outcomes.len(),
{
    if outcomes.len() == 0 {
        Seq::empty()
    } else {
        let rest = fitting(outcomes.drop_last(), capacity);
        match outcomes.last() {
            ElementalOutcome::Apply(item) => if item.weight_spec() <= capacity {
                rest.push(item)
            } else {
                rest
            },
            _ => rest,
        }
    }
}

/// What is not packed, in order: the items to apply that are heavier than the
/// capacity, as failures, and the outcomes that were not to apply, as they are.
pub open spec fn leftover<T: BinpackingWeighted>(
    outcomes: Seq<ElementalOutcome<T>>,
    capacity: usize,
) -> Seq<ElementalOutcome<T>>
    decreases outcomes.len(),
{
    if outcomes.len() == 0 {
        Seq::empty()
    } else {
        let rest = leftover(outcomes.drop_last(), capacity);
        if packable(outcomes.last(), capacity) {
            rest
        } else {
            rest.push(outcomes.last().failed())
        }
    }
}

/// `sorted` with `item` put behind the last item that is at least as heavy.
pub open spec fn insert_descending<T: BinpackingWeighted>(sorted: Seq<T>, item: T) -> Seq<T>
    decreases sorted.len(),
{
    if sorted.len() == 0 {
        seq![item]
    } else if sorted.last().weight_spec() >= item.weight_spec() {
        sorted.push(item)
    } else {
        insert_descending(sorted.drop_last(), item).push(sorted.last())
    }
}

/// The items by decreasing weight; items of one weight keep their order.
pub open spec fn descending<T: BinpackingWeighted>(items: Seq<T>) -> Seq<T>
    decreases items.len(),
{
    if items.len() == 0 {
        Seq::empty()
    } else {
        insert_descending(descending(items.drop_last()), items.last())
    }
}

/// The bins with `item` put into the first that has room for it, or into a new
/// last bin where none has.
pub open spec fn place<T: BinpackingWeighted>(bins: Seq<Seq<T>>, item: T, capacity: usize) -> Seq<
    Seq<T>,
>
    decreases bins.len(),
{
    if bins.len() == 0 {
        seq![seq![item]]
    } else if total_weight(bins.first()) + item.weight_spec() <= capacity {
        bins.update(0, bins.first().push(item))
    } else {
        seq![bins.first()] + place(bins.drop_first(), item, capacity)
    }
}

/// The bins that first fit fills with the items, taken in their order.
pub open spec fn first_fit<T: BinpackingWeighted>(items: Seq<T>, capacity: usize) -> Seq<Seq<T>>
    decreases items.len(),
{
    if items.len() == 0 {
        Seq::empty()
    } else {
        place(first_fit(items.drop_last(), capacity), items.last(), capacity)
    }
}

/// The groups that packing makes of a flat sequence of outcomes: one group for
/// each bin that first fit fills with the fitting items by decreasing weight,
/// every item in it to apply; then, if anything is left over, one group of
/// that.
pub open spec fn binpacked<T: BinpackingWeighted>(
    outcomes: Seq<ElementalOutcome<T>>,
    capacity: usize,
) -> Seq<Seq<ElementalOutcome<T>>> {
    let bins = first_fit(descending(fitting(outcomes, capacity)), capacity);
    let groups = bins.map_values(
        |bin: Seq<T>| bin.map_values(|item: T| ElementalOutcome::Apply(item)),
    );
    let left = leftover(outcomes, capacity);
    if left.len() == 0 {
        groups
    } else {
        groups.push(left)
    }
}

/// The index of the first bin in which `weight` more fits, or the number of
/// bins where none has room.
pub open spec fn first_room(weights: Seq<usize>, weight: usize, capacity: usize) -> int
    decreases weights.len(),
{
    if weights.len() == 0 {
        0
    } else if weights.first() + weight <= capacity {
        0
    } else {
        1 + first_room(weights.drop_first(), weight, capacity)
    }
}

proof fn lemma_first_room(weights: Seq<usize>, weight: usize, capacity: usize)
    ensures
        0 <= first_room(weights, weight, capacity) <= weights.len(),
        forall|i: int|
            0 <= i < first_room(weights, weight, capacity) ==> #[trigger] weights[i] + weight
                > capacity,
        first_room(weights, weight, capacity) < weights.len() ==> weights[first_room(
            weights,
            weight,
            capacity,
        )] + weight <= capacity,
    decreases weights.len(),
{
    if weights.len() > 0 && !(weights.first() + weight <= capacity) {
        let rest = weights.drop_first();
        lemma_first_room(rest, weight, capacity);
        assert forall|i: int|
            0 <= i < first_room(weights, weight, capacity) implies #[trigger] weights[i] + weight
            > capacity by {
            if i > 0 {
                assert(rest[i - 1] == weights[i]);
            }
        }
    }
}

proof fn lemma_first_room_found(weights: Seq<usize>, weight: usize, capacity: usize, at: int)
    requires
        0 <= at <= weights.len(),
        forall|i: int| 0 <= i < at ==> #[trigger] weights[i] + weight > capacity,
        at < weights.len() ==> weights[at] + weight <= capacity,
    ensures
        first_room(weights, weight, capacity) == at,
    decreases weights.len(),
{
    if weights.len() > 0 {
        if at == 0 {
        } else {
            assert(weights[0] + weight > capacity);
            let rest = weights.drop_first();
            assert forall|i: int| 0 <= i < at - 1 implies #[trigger] rest[i] + weight
                > capacity by {
                assert(rest[i] == weights[i + 1]);
            }
            lemma_first_room_found(rest, weight, capacity, at - 1);
        }
    }
}

/// Placing an item changes the bin that `first_room` names, or adds a bin.
proof fn lemma_place<T: BinpackingWeighted>(
    bins: Seq<Seq<T>>,
    weights: Seq<usize>,
    item: T,
    capacity: usize,
)
    requires
        weights.len() == bins.len(),
        forall|i: int| 0 <= i < bins.len() ==> #[trigger] weights[i] == total_weight(bins[i]),
        item.weight_spec() <= capacity,
    ensures
        ({
            let at = first_room(weights, item.weight_spec(), capacity);
            if at < bins.len() {
                place(bins, item, capacity) == bins.update(at, bins[at].push(item))
            } else {
                place(bins, item, capacity) == bins.push(seq![item])
            }
        }),
    decreases bins.len(),
{
    let weight = item.weight_spec();
    if bins.len() == 0 {
        assert(bins.push(seq![item]) =~= seq![seq![item]]);
    } else {
        assert(weights.first() == total_weight(bins.first()));
        if total_weight(bins.first()) + item.weight_spec() <= capacity {
        } else {
            let rest = bins.drop_first();
            let rest_weights = weights.drop_first();
            assert forall|i: int| 0 <= i < rest.len() implies #[trigger] rest_weights[i]
                == total_weight(rest[i]) by {
                assert(rest_weights[i] == weights[i + 1]);
                assert(rest[i] == bins[i + 1]);
            }
            lemma_place(rest, rest_weights, item, capacity);
            let at = first_room(rest_weights, weight, capacity);
            lemma_first_room(rest_weights, weight, capacity);
            if at < rest.len() {
                assert(seq![bins.first()] + rest.update(at, rest[at].push(item)) =~= bins.update(
                    at + 1,
                    bins[at + 1].push(item),
                ));
            } else {
                assert(seq![bins.first()] + rest.push(seq![item]) =~= bins.push(seq![item]));
            }
        }
    }
}

/// Inserting into a descending sequence puts the item at the first place
/// behind which everything is lighter.
proof fn lemma_insert_descending<T: BinpackingWeighted>(sorted: Seq<T>, item: T, at: int)
    requires
        0 <= at <= sorted.len(),
        at > 0 ==> sorted[at - 1].weight_spec() >= item.weight_spec(),
        forall|i: int| at <= i < sorted.len() ==> (#[trigger] sorted[i]).weight_spec()
            < item.weight_spec(),
    ensures
        insert_descending(sorted, item) == sorted.insert(at, item),
    decreases sorted.len(),
{
    if sorted.len() == 0 {
        assert(sorted.insert(at, item) =~= seq![item]);
    } else if at == sorted.len() {
        assert(sorted.insert(at, item) =~= sorted.push(item));
    } else {
        assert(sorted.last().weight_spec() < item.weight_spec());
        let rest = sorted.drop_last();
        assert forall|i: int| at <= i < rest.len() implies (#[trigger] rest[i]).weight_spec()
            < item.weight_spec() by {
            assert(rest[i] == sorted[i]);
        }
        lemma_insert_descending(rest, item, at);
        assert(rest.insert(at, item).push(sorted.last()) =~= sorted.insert(at, item));
    }
}

/// The items to apply of a group, in order.
pub open spec fn applies_of<T>(group: Seq<ElementalOutcome<T>>) -> Seq<T>
    decreases group.len(),
{
    if group.len() == 0 {
        Seq::empty()
    } else {
        let rest = applies_of(group.drop_last());
        match group.last() {
            ElementalOutcome::Apply(item) => rest.push(item),
            _ => rest,
        }
    }
}

/// The weight that a group brings to its submission: that of its items to
/// apply.
pub open spec fn group_weight<T: BinpackingWeighted>(group: Seq<ElementalOutcome<T>>) -> nat {
    total_weight(applies_of(group))
}

proof fn lemma_total_weight_push<T: BinpackingWeighted>(items: Seq<T>, item: T)
    ensures
        total_weight(items.push(item)) == total_weight(items) + item.weight_spec(),
{
    assert(items.push(item).drop_last() =~= items);
}

proof fn lemma_place_within<T: BinpackingWeighted>(bins: Seq<Seq<T>>, item: T, capacity: usize)
    requires
        forall|b: int| 0 <= b < bins.len() ==> total_weight(#[trigger] bins[b]) <= capacity,
        item.weight_spec() <= capacity,
    ensures
        forall|b: int|
            0 <= b < place(bins, item, capacity).len() ==> total_weight(
                #[trigger] place(bins, item, capacity)[b],
            ) <= capacity,
    decreases bins.len(),
{
    if bins.len() == 0 {
        lemma_total_weight_push(Seq::<T>::empty(), item);
        assert(Seq::<T>::empty().push(item) =~= seq![item]);
    } else if total_weight(bins.first()) + item.weight_spec() <= capacity {
        lemma_total_weight_push(bins.first(), item);
    } else {
        let rest = bins.drop_first();
        assert forall|b: int| 0 <= b < rest.len() implies total_weight(#[trigger] rest[b])
            <= capacity by {
            assert(rest[b] == bins[b + 1]);
        }
        lemma_place_within(rest, item, capacity);
        let placed = place(rest, item, capacity);
        assert forall|b: int| 0 <= b < place(bins, item, capacity).len() implies total_weight(
            #[trigger] place(bins, item, capacity)[b],
        ) <= capacity by {
            if b > 0 {
                assert(place(bins, item, capacity)[b] == placed[b - 1]);
            }
        }
    }
}

/// First fit overfills no bin, provided every item fits the capacity by itself.
pub proof fn lemma_first_fit_within<T: BinpackingWeighted>(items: Seq<T>, capacity: usize)
    requires
        forall|i: int| 0 <= i < items.len() ==> (#[trigger] items[i]).weight_spec() <= capacity,
    ensures
        forall|b: int|
            0 <= b < first_fit(items, capacity).len() ==> total_weight(
                #[trigger] first_fit(items, capacity)[b],
            ) <= capacity,
    decreases items.len(),
{
    if items.len() > 0 {
        let rest = items.drop_last();
        assert forall|i: int| 0 <= i < rest.len() implies (#[trigger] rest[i]).weight_spec()
            <= capacity by {
            assert(rest[i] == items[i]);
        }
        lemma_first_fit_within(rest, capacity);
        lemma_place_within(first_fit(rest, capacity), items.last(), capacity);
    }
}

proof fn lemma_place_items<T: BinpackingWeighted>(bins: Seq<Seq<T>>, item: T, capacity: usize)
    ensures
        place(bins, item, capacity).flatten().to_multiset() == bins.flatten().to_multiset().insert(
            item,
        ),
    decreases bins.len(),
{
    if bins.len() == 0 {
        let one = seq![seq![item]];
        one.lemma_flatten_singleton();
        assert(Seq::<T>::empty().push(item) =~= seq![item]);
        to_multiset_build(Seq::<T>::empty(), item);
    } else {
        let first = bins.first();
        let rest = bins.drop_first();
        if total_weight(first) + item.weight_spec() <= capacity {
            let updated = bins.update(0, first.push(item));
            assert(updated.first() == first.push(item));
            assert(updated.drop_first() =~= rest);
            assert(updated.flatten() == first.push(item) + rest.flatten());
            assert(bins.flatten() == first + rest.flatten());
            lemma_multiset_commutative(first.push(item), rest.flatten());
            to_multiset_build(first, item);
            lemma_multiset_commutative(first, rest.flatten());
            assert(first.to_multiset().insert(item).add(rest.flatten().to_multiset())
                =~= first.to_multiset().add(rest.flatten().to_multiset()).insert(item));
        } else {
            lemma_place_items(rest, item, capacity);
            let placed = seq![first] + place(rest, item, capacity);
            assert(placed.first() == first);
            assert(placed.drop_first() =~= place(rest, item, capacity));
            assert(placed.flatten() == first + place(rest, item, capacity).flatten());
            assert(bins.flatten() == first + rest.flatten());
            lemma_multiset_commutative(first, place(rest, item, capacity).flatten());
            lemma_multiset_commutative(first, rest.flatten());
            assert(first.to_multiset().add(rest.flatten().to_multiset().insert(item))
                =~= first.to_multiset().add(rest.flatten().to_multiset()).insert(item));
        }
    }
}

/// First fit puts every item into some bin, once.
pub proof fn lemma_first_fit_items<T: BinpackingWeighted>(items: Seq<T>, capacity: usize)
    ensures
        first_fit(items, capacity).flatten().to_multiset() == items.to_multiset(),
    decreases items.len(),
{
    if items.len() == 0 {
        assert(items =~= Seq::<T>::empty());
    } else {
        let rest = items.drop_last();
        lemma_first_fit_items(rest, capacity);
        lemma_place_items(first_fit(rest, capacity), items.last(), capacity);
        assert(items =~= rest.push(items.last()));
        to_multiset_build(rest, items.last());
    }
}

proof fn lemma_insert_descending_items<T: BinpackingWeighted>(sorted: Seq<T>, item: T)
    ensures
        insert_descending(sorted, item).to_multiset() == sorted.to_multiset().insert(item),
    decreases sorted.len(),
{
    if sorted.len() == 0 {
        assert(sorted.push(item) =~= seq![item]);
        to_multiset_build(sorted, item);
    } else if sorted.last().weight_spec() >= item.weight_spec() {
        to_multiset_build(sorted, item);
    } else {
        let rest = sorted.drop_last();
        lemma_insert_descending_items(rest, item);
        to_multiset_build(insert_descending(rest, item), sorted.last());
        assert(sorted =~= rest.push(sorted.last()));
        to_multiset_build(rest, sorted.last());
        assert(insert_descending(sorted, item).to_multiset() =~= sorted.to_multiset().insert(
            item,
        ));
    }
}

/// Ordering by weight neither adds nor loses an item.
pub proof fn lemma_descending_items<T: BinpackingWeighted>(items: Seq<T>)
    ensures
        descending(items).to_multiset() == items.to_multiset(),
    decreases items.len(),
{
    if items.len() == 0 {
        assert(items =~= Seq::<T>::empty());
    } else {
        let rest = items.drop_last();
        lemma_descending_items(rest);
        lemma_insert_descending_items(descending(rest), items.last());
        assert(items =~= rest.push(items.last()));
        to_multiset_build(rest, items.last());
    }
}

proof fn lemma_fitting_fits<T: BinpackingWeighted>(
    outcomes: Seq<ElementalOutcome<T>>,
    capacity: usize,
)
    ensures
        forall|i: int|
            0 <= i < fitting(outcomes, capacity).len() ==> (#[trigger] fitting(
                outcomes,
                capacity,
            )[i]).weight_spec() <= capacity,
    decreases outcomes.len(),
{
    if outcomes.len() > 0 {
        let rest = fitting(outcomes.drop_last(), capacity);
        lemma_fitting_fits(outcomes.drop_last(), capacity);
        let fit = fitting(outcomes, capacity);
        assert forall|i: int| 0 <= i < fit.len() implies (#[trigger] fit[i]).weight_spec()
            <= capacity by {
            if i < rest.len() {
                assert(fit[i] == rest[i]);
            }
        }
    }
}

proof fn lemma_leftover_applies<T: BinpackingWeighted>(
    outcomes: Seq<ElementalOutcome<T>>,
    capacity: usize,
)
    ensures
        applies_of(leftover(outcomes, capacity)) == Seq::<T>::empty(),
        forall|i: int|
            0 <= i < outcomes.len() && !packable(#[trigger] outcomes[i], capacity) ==> leftover(
                outcomes,
                capacity,
            ).contains(outcomes[i].failed()),
    decreases outcomes.len(),
{
    if outcomes.len() > 0 {
        let rest = outcomes.drop_last();
        let last = outcomes.last();
        lemma_leftover_applies(rest, capacity);
        let left = leftover(outcomes, capacity);
        if !packable(last, capacity) {
            assert(left.drop_last() =~= leftover(rest, capacity));
            assert(left[left.len() - 1] == last.failed());
        }
        assert forall|i: int|
            0 <= i < outcomes.len() && !packable(
                #[trigger] outcomes[i],
                capacity,
            ) implies left.contains(outcomes[i].failed()) by {
            if i < outcomes.len() - 1 {
                assert(rest[i] == outcomes[i]);
                let at = choose|at: int|
                    0 <= at < leftover(rest, capacity).len() && leftover(rest, capacity)[at]
                        == outcomes[i].failed();
                assert(left[at] == outcomes[i].failed());
            }
        }
    }
}

proof fn lemma_applies_of_applied<T>(items: Seq<T>)
    ensures
        applies_of(items.map_values(|item: T| ElementalOutcome::Apply(item))) == items,
    decreases items.len(),
{
    let apply = |item: T| ElementalOutcome::Apply(item);
    if items.len() == 0 {
        assert(applies_of(items.map_values(apply)) =~= items);
    } else {
        lemma_applies_of_applied(items.drop_last());
        assert(items.map_values(apply).drop_last() =~= items.drop_last().map_values(apply));
        assert(items.drop_last().push(items.last()) =~= items);
    }
}

proof fn lemma_originals_concat<T>(a: Seq<ElementalOutcome<T>>, b: Seq<ElementalOutcome<T>>)
    ensures
        originals(a + b) == originals(a) + originals(b),
    decreases b.len(),
{
    if b.len() == 0 {
        assert(a + b =~= a);
        assert(originals(a) + originals(b) =~= originals(a));
    } else {
        lemma_originals_concat(a, b.drop_last());
        assert((a + b).drop_last() =~= a + b.drop_last());
        assert((a + b).last() == b.last());
        match b.last().payload() {
            Some(item) => {
                assert((originals(a) + originals(b.drop_last())).push(item) =~= originals(a)
                    + originals(b.drop_last()).push(item));
            },
            None => {},
        }
    }
}

proof fn lemma_originals_of_bins<T>(bins: Seq<Seq<T>>)
    ensures
        originals(
            bins.map_values(
                |bin: Seq<T>| bin.map_values(|item: T| ElementalOutcome::Apply(item)),
            ).flatten(),
        ) == bins.flatten(),
    decreases bins.len(),
{
    let apply = |bin: Seq<T>| bin.map_values(|item: T| ElementalOutcome::Apply(item));
    let groups = bins.map_values(apply);
    if bins.len() == 0 {
        assert(originals(groups.flatten()) =~= bins.flatten());
    } else {
        let rest = bins.drop_last();
        lemma_originals_of_bins(rest);
        assert(groups =~= rest.map_values(apply).push(apply(bins.last())));
        rest.map_values(apply).lemma_flatten_push(apply(bins.last()));
        assert(bins =~= rest.push(bins.last()));
        rest.lemma_flatten_push(bins.last());
        lemma_originals_concat(rest.map_values(apply).flatten(), apply(bins.last()));
        lemma_originals_of_applied(bins.last());
    }
}

proof fn lemma_fitting_and_leftover<T: BinpackingWeighted>(
    outcomes: Seq<ElementalOutcome<T>>,
    capacity: usize,
)
    ensures
        fitting(outcomes, capacity).to_multiset().add(
            originals(leftover(outcomes, capacity)).to_multiset(),
        ) == originals(outcomes).to_multiset(),
    decreases outcomes.len(),
{
    let fit = fitting(outcomes, capacity);
    let left = leftover(outcomes, capacity);
    if outcomes.len() == 0 {
        let none = Seq::<T>::empty();
        assert(fit == none && originals(left) == none && originals(outcomes) == none);
        vstd::seq_lib::to_multiset_len(none);
        vstd::multiset::lemma_multiset_empty_len(none.to_multiset());
        assert(fit.to_multiset().add(originals(left).to_multiset()) =~= originals(
            outcomes,
        ).to_multiset());
    } else {
        let rest = outcomes.drop_last();
        let last = outcomes.last();
        lemma_fitting_and_leftover(rest, capacity);
        let rest_fit = fitting(rest, capacity);
        let rest_left = leftover(rest, capacity);
        if packable(last, capacity) {
            let item = last->Apply_0;
            assert(fit == rest_fit.push(item));
            assert(left == rest_left);
            assert(originals(outcomes) == originals(rest).push(item));
            to_multiset_build(rest_fit, item);
            to_multiset_build(originals(rest), item);
            assert(rest_fit.to_multiset().insert(item).add(originals(rest_left).to_multiset())
                =~= rest_fit.to_multiset().add(originals(rest_left).to_multiset()).insert(item));
        } else {
            assert(fit == rest_fit);
            assert(left == rest_left.push(last.failed()));
            assert(left.drop_last() =~= rest_left);
            assert(left.last() == last.failed());
            match last.payload() {
                Some(item) => {
                    assert(last.failed().payload() == Some(item));
                    assert(originals(left) == originals(rest_left).push(item));
                    assert(originals(outcomes) == originals(rest).push(item));
                    to_multiset_build(originals(rest_left), item);
                    to_multiset_build(originals(rest), item);
                    assert(rest_fit.to_multiset().add(
                        originals(rest_left).to_multiset().insert(item),
                    ) =~= rest_fit.to_multiset().add(originals(rest_left).to_multiset()).insert(
                        item,
                    ));
                },
                None => {
                    assert(last.failed().payload() is None);
                    assert(originals(left) == originals(rest_left));
                    assert(originals(outcomes) == originals(rest));
                },
            }
        }
        assert(fit.to_multiset().add(originals(left).to_multiset()) =~= originals(
            outcomes,
        ).to_multiset());
    }
}

/// What packing promises of its groups: no group brings more weight than the
/// capacity; every item that was to apply and is heavier than the capacity
/// comes out as a failure, as does every outcome that was not to apply, as it
/// was; and the groups together carry the items that went in, each once.
pub proof fn lemma_binpacked<T: BinpackingWeighted>(
    outcomes: Seq<ElementalOutcome<T>>,
    capacity: usize,
)
    ensures
        forall|g: int|
            0 <= g < binpacked(outcomes, capacity).len() ==> group_weight(
                #[trigger] binpacked(outcomes, capacity)[g],
            ) <= capacity,
        forall|i: int|
            0 <= i < outcomes.len() && !packable(#[trigger] outcomes[i], capacity) ==> binpacked(
                outcomes,
                capacity,
            ).flatten().contains(outcomes[i].failed()),
        originals(binpacked(outcomes, capacity).flatten()).to_multiset() == originals(
            outcomes,
        ).to_multiset(),
{
    let fit = fitting(outcomes, capacity);
    let sorted = descending(fit);
    let bins = first_fit(sorted, capacity);
    let apply = |bin: Seq<T>| bin.map_values(|item: T| ElementalOutcome::Apply(item));
    let groups = bins.map_values(apply);
    let left = leftover(outcomes, capacity);
    let packed = binpacked(outcomes, capacity);
    lemma_fitting_fits(outcomes, capacity);
    lemma_descending_items(fit);
    assert forall|i: int| 0 <= i < sorted.len() implies (#[trigger] sorted[i]).weight_spec()
        <= capacity by {
        assert(sorted.contains(sorted[i]));
        to_multiset_contains(sorted, sorted[i]);
        to_multiset_contains(fit, sorted[i]);
        assert(fit.contains(sorted[i]));
        let j = choose|j: int| 0 <= j < fit.len() && fit[j] == sorted[i];
        assert(fit[j].weight_spec() <= capacity);
    }
    lemma_first_fit_within(sorted, capacity);
    lemma_leftover_applies(outcomes, capacity);
    assert forall|g: int| 0 <= g < packed.len() implies group_weight(#[trigger] packed[g])
        <= capacity by {
        if g < bins.len() {
            lemma_applies_of_applied(bins[g]);
            assert(packed[g] == apply(bins[g]));
        } else {
            assert(packed[g] == left);
        }
    }
    if left.len() == 0 {
        assert(groups.flatten() + left =~= groups.flatten());
    } else {
        groups.lemma_flatten_push(left);
    }
    assert(packed.flatten() == groups.flatten() + left);
    assert forall|i: int|
        0 <= i < outcomes.len() && !packable(
            #[trigger] outcomes[i],
            capacity,
        ) implies packed.flatten().contains(outcomes[i].failed()) by {
        let at = choose|at: int| 0 <= at < left.len() && left[at] == outcomes[i].failed();
        assert(packed.flatten()[groups.flatten().len() + at] == outcomes[i].failed());
    }
    lemma_originals_concat(groups.flatten(), left);
    lemma_originals_of_bins(bins);
    lemma_first_fit_items(sorted, capacity);
    lemma_multiset_commutative(bins.flatten(), originals(left));
    lemma_fitting_and_leftover(outcomes, capacity);
}

impl FirstFitBinpacking {
    /// The heuristic that packs groups of at most `capacity` weight.
    pub fn new(capacity: usize) -> (r: Self)
        ensures
            r.capacity == capacity,
    {
        FirstFitBinpacking { capacity }
    }

    /// Packs the items of all groups anew. The items to apply that fit the
    /// capacity go into bins, first fit by decreasing weight, and each bin
    /// becomes a group; everything else goes into one last group, the items
    /// that are too heavy as failures.
    pub fn distribute<T: BinpackingWeighted>(
        &self,
        distribution: Vec<GroupingOutcome<T>>,
    ) -> (r: Vec<GroupingOutcome<T>>)
        ensures
            groups_of(r@) == binpacked(groups_of(distribution@).flatten(), self.capacity),
    {
        let capacity = self.capacity;
        let ghost groups = distribution@;
        let ghost mut seen: Seq<ElementalOutcome<T>> = Seq::empty();
        let mut sorted: Vec<T> = Vec::new();
        let mut sorted_weights: Vec<usize> = Vec::new();
        let mut left: Vec<ElementalOutcome<T>> = Vec::new();
        for group in it: distribution.into_iter()
            invariant
                it.seq() == groups,
                seen == groups_of(groups.take(it.index())).flatten(),
                sorted@ == descending(fitting(seen, capacity)),
                sorted_weights@.len() == sorted@.len(),
                forall|i: int|
                    0 <= i < sorted@.len() ==> #[trigger] sorted_weights@[i]
                        == sorted@[i].weight_spec(),
                forall|i: int| 0 <= i < sorted@.len() ==> #[trigger] sorted_weights@[i] <= capacity,
                left@ == leftover(seen, capacity),
        {
            let ghost outcomes = group@;
            let ghost before = seen;
            for outcome in inner: group.0.into_iter()
                invariant
                    inner.seq() == outcomes,
                    seen == before + outcomes.take(inner.index()),
                    sorted@ == descending(fitting(seen, capacity)),
                    sorted_weights@.len() == sorted@.len(),
                    forall|i: int|
                        0 <= i < sorted@.len() ==> #[trigger] sorted_weights@[i]
                            == sorted@[i].weight_spec(),
                    forall|i: int|
                        0 <= i < sorted@.len() ==> #[trigger] sorted_weights@[i] <= capacity,
                    left@ == leftover(seen, capacity),
            {
                proof {
                    assert(seen.push(outcome).drop_last() =~= seen);
                    assert(before + outcomes.take(inner.index() + 1) =~= seen.push(outcome));
                    seen = seen.push(outcome);
                }
                match outcome {
                    ElementalOutcome::Apply(item) => {
                        let weight = item.weight();
                        if weight <= capacity {
                            let mut at: usize = sorted.len();
                            while at > 0 && sorted_weights[at - 1] < weight
                                invariant
                                    at <= sorted@.len(),
                                    sorted_weights@.len() == sorted@.len(),
                                    forall|i: int|
                                        at <= i < sorted@.len() ==> #[trigger] sorted_weights@[i]
                                            < weight,
                                decreases at,
                            {
                                at -= 1;
                            }
                            let ghost old_sorted = sorted@;
                            let ghost old_weights = sorted_weights@;
                            proof {
                                assert forall|i: int| at <= i < old_sorted.len() implies (
                                #[trigger] old_sorted[i]).weight_spec() < item.weight_spec() by {
                                    assert(old_weights[i] < weight);
                                }
                                if at > 0 {
                                    assert(old_weights[at - 1] == old_sorted[at - 1].weight_spec());
                                }
                                lemma_insert_descending(old_sorted, item, at as int);
                                let fit = fitting(seen.drop_last(), capacity);
                                assert(fit.push(item).drop_last() =~= fit);
                            }
                            sorted.insert(at, item);
                            sorted_weights.insert(at, weight);
                            proof {
                                assert forall|i: int|
                                    0 <= i < sorted@.len() implies #[trigger] sorted_weights@[i]
                                    == sorted@[i].weight_spec() && sorted_weights@[i]
                                    <= capacity by {
                                    if i < at {
                                        assert(sorted_weights@[i] == old_weights[i]);
                                        assert(sorted@[i] == old_sorted[i]);
                                    } else if i > at {
                                        assert(sorted_weights@[i] == old_weights[i - 1]);
                                        assert(sorted@[i] == old_sorted[i - 1]);
                                    }
                                }
                            }
                        } else {
                            left.push(ElementalOutcome::Failure(item));
                        }
                    },
                    other => {
                        left.push(other);
                    },
                }
            }
            proof {
                assert(outcomes.take(outcomes.len() as int) =~= outcomes);
                let earlier = groups_of(groups.take(it.index()));
                assert(groups_of(groups.take(it.index() + 1)) =~= earlier.push(outcomes));
                earlier.lemma_flatten_push(outcomes);
            }
        }
        proof {
            assert(groups.take(groups.len() as int) =~= groups);
        }
        let ghost items = sorted@;
        let total = sorted.len();
        let mut bins: Vec<Vec<T>> = Vec::new();
        let mut bin_weights: Vec<usize> = Vec::new();
        let mut next: usize = 0;
        for item in it: sorted.into_iter()
            invariant
                it.seq() == items,
                next == it.index(),
                next <= total,
                total == items.len(),
                sorted_weights@.len() == items.len(),
                forall|i: int|
                    0 <= i < items.len() ==> #[trigger] sorted_weights@[i]
                        == items[i].weight_spec(),
                forall|i: int| 0 <= i < items.len() ==> #[trigger] sorted_weights@[i] <= capacity,
                bin_weights@.len() == bins@.len(),
                forall|i: int|
                    0 <= i < bins@.len() ==> #[trigger] bin_weights@[i] == total_weight(
                        bins@[i]@,
                    ),
                forall|i: int| 0 <= i < bins@.len() ==> #[trigger] bin_weights@[i] <= capacity,
                bins@.map_values(|bin: Vec<T>| bin@) == first_fit(
                    items.take(it.index()),
                    capacity,
                ),
        {
            let weight = sorted_weights[next];
            let ghost views = bins@.map_values(|bin: Vec<T>| bin@);
            let mut at: usize = 0;
            while at < bins.len() && bin_weights[at] > capacity - weight
                invariant
                    at <= bins@.len(),
                    weight <= capacity,
                    bin_weights@.len() == bins@.len(),
                    forall|i: int| 0 <= i < at ==> #[trigger] bin_weights@[i] + weight > capacity,
                decreases bins@.len() - at,
            {
                at += 1;
            }
            proof {
                lemma_first_room_found(bin_weights@, weight, capacity, at as int);
                assert forall|i: int| 0 <= i < views.len() implies #[trigger] bin_weights@[i]
                    == total_weight(views[i]) by {
                    assert(bin_weights@[i] == total_weight(bins@[i]@));
                }
                lemma_place(views, bin_weights@, item, capacity);
                assert(items.take(it.index() + 1).drop_last() =~= items.take(it.index()));
            }
            if at < bins.len() {
                let mut bin = bins.remove(at);
                let ghost filled = bin@;
                bin.push(item);
                proof {
                    assert(filled.push(item).drop_last() =~= filled);
                }
                bins.insert(at, bin);
                bin_weights.set(at, bin_weights[at] + weight);
                proof {
                    assert(bins@.map_values(|bin: Vec<T>| bin@) =~= views.update(
                        at as int,
                        views[at as int].push(item),
                    ));
                }
            } else {
                let mut bin: Vec<T> = Vec::new();
                bin.push(item);
                proof {
                    assert(bin@ =~= seq![item]);
                    assert(seq![item].drop_last() =~= Seq::<T>::empty());
                    assert(total_weight(Seq::<T>::empty()) == 0);
                }
                bins.push(bin);
                bin_weights.push(weight);
                proof {
                    assert(bins@.map_values(|bin: Vec<T>| bin@) =~= views.push(seq![item]));
                }
            }
            next += 1;
        }
        proof {
            assert(items.take(items.len() as int) =~= items);
        }
        let ghost filled = bins@.map_values(|bin: Vec<T>| bin@);
        let ghost apply = |bin: Seq<T>| bin.map_values(|item: T| ElementalOutcome::Apply(item));
        let mut out: Vec<GroupingOutcome<T>> = Vec::new();
        for bin in it: bins.into_iter()
            invariant
                it.seq().map_values(|bin: Vec<T>| bin@) == filled,
                apply == |bin: Seq<T>| bin.map_values(|item: T| ElementalOutcome::Apply(item)),
                groups_of(out@) == filled.take(it.index()).map_values(apply),
        {
            let ghost done = out@;
            let group = GroupingOutcome::new_apply(bin);
            out.push(group);
            proof {
                assert(filled[it.index()] == bin@);
                assert(groups_of(out@) =~= groups_of(done).push(group@));
                assert(filled.take(it.index() + 1).map_values(apply) =~= filled.take(
                    it.index(),
                ).map_values(apply).push(apply(bin@)));
            }
        }
        proof {
            assert(filled.take(filled.len() as int) =~= filled);
        }
        if left.len() > 0 {
            let ghost done = out@;
            let group = GroupingOutcome::new(left);
            out.push(group);
            proof {
                assert(groups_of(out@) =~= groups_of(done).push(group@));
            }
        }
        out
    }
}

} // verus!
