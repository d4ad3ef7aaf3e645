//! A counter whose units expire, bucketed by time slot.
//!
//! The counter is modelled as the multiset of the slots of its live units: an
//! increment adds the current slot once, a decrement takes one unit out of the
//! oldest slot, and a collection drops every unit of an expired slot.

use crate::garbage::cutoff;
use crate::garbage::expired;
use crate::garbage::slot_at;
use crate::garbage::slots::sorted_slots;
use crate::garbage::Duration;
use std::collections::BTreeMap;
use vstd::multiset::Multiset;
use vstd::prelude::*;

verus! {

/// Counts events, forgetting those older than a time to live.
pub struct GcCounter {
    /// The number of milliseconds a unit is valid for.
    value_ttl_ms: Duration,
    /// The width of a garbage collection slot in milliseconds.
    gc_slot_duration_ms: Duration,
    /// The number of live units of each slot.
    value_lifetimes: BTreeMap<u64, u64>,
}

/// The multiset that holds each slot as often as its bucket counts.
pub closed spec fn units_of(buckets: Map<u64, u64>) -> Multiset<u64> {
    Multiset::from_map(Map::new(|s: u64| buckets.contains_key(s), |s: u64| buckets[s] as nat))
}

/// Whether `slot` is the oldest slot that has a unit in `units`.
pub open spec fn is_oldest(units: Multiset<u64>, slot: u64) -> bool {
    &&& units.count(slot) > 0
    &&& forall|t: u64| units.count(t) > 0 ==> slot <= t
}

/// The oldest slot that has a unit; meaningful for a counter that is not empty.
pub open spec fn oldest(units: Multiset<u64>) -> u64 {
    choose|s: u64| is_oldest(units, s)
}

/// The units after one more is recorded at `now_ms`.
pub open spec fn incremented(units: Multiset<u64>, now_ms: u64, width: Duration) -> Multiset<u64> {
    units.insert(slot_at(now_ms, width))
}

/// The units after one is taken back: the oldest slot loses one, and an empty
/// counter stays as it is.
pub open spec fn decremented(units: Multiset<u64>) -> Multiset<u64> {
    if units.len() == 0 {
        units
    } else {
        units.remove(oldest(units))
    }
}

/// The units that a collection at `now_ms` drops.
pub open spec fn dropped(units: Multiset<u64>, now_ms: u64, ttl: Duration, width: Duration)
    -> Multiset<u64> {
    units.filter(|s: u64| expired(s, now_ms, ttl, width))
}

/// The units that a collection at `now_ms` keeps.
pub open spec fn collected(units: Multiset<u64>, now_ms: u64, ttl: Duration, width: Duration)
    -> Multiset<u64> {
    units.filter(|s: u64| !expired(s, now_ms, ttl, width))
}

/// The units in slots before `bound`.
spec fn below(units: Multiset<u64>, bound: int) -> Multiset<u64> {
    units.filter(|s: u64| s < bound)
}

proof fn lemma_units_count(buckets: Map<u64, u64>, s: u64)
    requires
        buckets.dom().finite(),
    ensures
        units_of(buckets).count(s) == if buckets.contains_key(s) {
            buckets[s] as nat
        } else {
            0
        },
{
    let counts = Map::new(|s: u64| buckets.contains_key(s), |s: u64| buckets[s] as nat);
    assert(counts.dom() =~= buckets.dom());
}

proof fn lemma_units_counts(buckets: Map<u64, u64>)
    requires
        buckets.dom().finite(),
    ensures
        forall|s: u64|
            #[trigger] units_of(buckets).count(s) == if buckets.contains_key(s) {
                buckets[s] as nat
            } else {
                0
            },
{
    assert forall|s: u64|
        #[trigger] units_of(buckets).count(s) == if buckets.contains_key(s) {
            buckets[s] as nat
        } else {
            0
        } by {
        lemma_units_count(buckets, s);
    }
}

/// A multiset whose units all lie in one slot is as long as that slot's count.
proof fn lemma_single_slot_len(units: Multiset<u64>, slot: u64)
    requires
        forall|t: u64| t != slot ==> units.count(t) == 0,
    ensures
        units.len() == units.count(slot),
    decreases units.count(slot),
{
    if units.count(slot) == 0 {
        assert(units =~= Multiset::empty());
    } else {
        let rest = units.remove(slot);
        assert(Multiset::singleton(slot).subset_of(units)) by {
            assert forall|t: u64| Multiset::singleton(slot).count(t) <= units.count(t) by {
                if t != slot {
                    assert(Multiset::singleton(slot).count(t) == 0);
                }
            }
        }
        assert(rest.len() == units.len() - 1);
        assert forall|t: u64| t != slot implies rest.count(t) == 0 by {
            assert(units.count(t) == 0);
        }
        lemma_single_slot_len(rest, slot);
    }
}

/// A predicate splits a multiset into two parts that together are as long as it.
pub proof fn lemma_filter_len(units: Multiset<u64>, f: spec_fn(u64) -> bool)
    ensures
        units.filter(f).len() + units.filter(|s: u64| !f(s)).len() == units.len(),
{
    let yes = units.filter(f);
    let no = units.filter(|s: u64| !f(s));
    assert(yes.add(no) =~= units);
}

proof fn lemma_below_step(units: Multiset<u64>, slot: u64)
    ensures
        below(units, slot + 1).len() == below(units, slot as int).len() + units.count(slot),
        below(units, slot + 1).len() <= units.len(),
{
    let here = units.filter(|s: u64| s == slot);
    assert(below(units, slot as int).add(here) =~= below(units, slot + 1));
    lemma_single_slot_len(here, slot);
    lemma_filter_len(units, |s: u64| s < slot + 1);
}

proof fn lemma_below_gap(units: Multiset<u64>, from: int, to: int)
    requires
        from <= to,
        forall|s: u64| from <= s < to ==> units.count(s) == 0,
    ensures
        below(units, from) == below(units, to),
{
    assert(below(units, from) =~= below(units, to));
}

proof fn lemma_below_all(units: Multiset<u64>, bound: int)
    requires
        forall|s: u64| bound <= s ==> units.count(s) == 0,
    ensures
        below(units, bound) == units,
{
    assert(below(units, bound) =~= units);
}

proof fn lemma_units_empty()
    ensures
        units_of(Map::<u64, u64>::empty()) == Multiset::<u64>::empty(),
        Multiset::<u64>::empty().len() == 0,
{
    lemma_units_counts(Map::<u64, u64>::empty());
    assert(units_of(Map::<u64, u64>::empty()) =~= Multiset::<u64>::empty());
}

/// Taking out a unit that is there shortens the multiset by one.
pub proof fn lemma_remove_len(units: Multiset<u64>, slot: u64)
    requires
        units.count(slot) > 0,
    ensures
        units.remove(slot).len() == units.len() - 1,
{
    assert(Multiset::singleton(slot).subset_of(units)) by {
        assert forall|t: u64| Multiset::singleton(slot).count(t) <= units.count(t) by {
            if t != slot {
                assert(Multiset::singleton(slot).count(t) == 0);
            }
        }
    }
}

/// An oldest slot is the oldest slot.
pub proof fn lemma_oldest_unique(units: Multiset<u64>, slot: u64)
    requires
        is_oldest(units, slot),
    ensures
        oldest(units) == slot,
{
    let o = oldest(units);
    assert(is_oldest(units, o));
}

/// One call on a counter, as it appears in a history of calls.
pub enum CounterCall {
    /// `increment` at a time in milliseconds.
    Increment(u64),
    /// `decrement`.
    Decrement,
    /// `gc` at a time in milliseconds.
    Collect(u64),
}

/// The units after one call.
pub open spec fn after_call(units: Multiset<u64>, call: CounterCall, ttl: Duration, width: Duration)
    -> Multiset<u64> {
    match call {
        CounterCall::Increment(now_ms) => incremented(units, now_ms, width),
        CounterCall::Decrement => decremented(units),
        CounterCall::Collect(now_ms) => collected(units, now_ms, ttl, width),
    }
}

/// The units of a new counter after a history of calls.
pub open spec fn after_calls(calls: Seq<CounterCall>, ttl: Duration, width: Duration) -> Multiset<
    u64,
>
    decreases calls.len(),
{
    if calls.len() == 0 {
        Multiset::empty()
    } else {
        after_call(after_calls(calls.drop_last(), ttl, width), calls.last(), ttl, width)
    }
}

/// How many increments a history holds.
pub open spec fn increments(calls: Seq<CounterCall>) -> nat
    decreases calls.len(),
{
    if calls.len() == 0 {
        0
    } else {
        increments(calls.drop_last()) + if calls.last() is Increment {
            1nat
        } else {
            0nat
        }
    }
}

/// How many decrements of a history found a unit to take.
pub open spec fn honored_decrements(calls: Seq<CounterCall>, ttl: Duration, width: Duration) -> nat
    decreases calls.len(),
{
    if calls.len() == 0 {
        0
    } else {
        let before = after_calls(calls.drop_last(), ttl, width);
        honored_decrements(calls.drop_last(), ttl, width) + if calls.last() is Decrement
            && before.len() > 0 {
            1nat
        } else {
            0nat
        }
    }
}

/// How many units the collections of a history dropped: at each collection, the
/// units then counted whose slot had expired.
pub open spec fn expired_units(calls: Seq<CounterCall>, ttl: Duration, width: Duration) -> nat
    decreases calls.len(),
{
    if calls.len() == 0 {
        0
    } else {
        let before = after_calls(calls.drop_last(), ttl, width);
        expired_units(calls.drop_last(), ttl, width) + match calls.last() {
            CounterCall::Collect(now_ms) => dropped(before, now_ms, ttl, width).len(),
            _ => 0nat,
        }
    }
}

/// After any history of calls on a new counter, the count is the number of
/// increments, less the decrements that found a unit, less the units that
/// collections dropped.
pub proof fn lemma_count_balance(calls: Seq<CounterCall>, ttl: Duration, width: Duration)
    ensures
        after_calls(calls, ttl, width).len() + honored_decrements(calls, ttl, width)
            + expired_units(calls, ttl, width) == increments(calls),
    decreases calls.len(),
{
    if calls.len() > 0 {
        let before = after_calls(calls.drop_last(), ttl, width);
        lemma_count_balance(calls.drop_last(), ttl, width);
        match calls.last() {
            CounterCall::Increment(now_ms) => {},
            CounterCall::Decrement => {
                if before.len() > 0 {
                    lemma_oldest_exists(before);
                    lemma_remove_len(before, oldest(before));
                }
            },
            CounterCall::Collect(now_ms) => {
                let gone = |s: u64| expired(s, now_ms, ttl, width);
                lemma_filter_len(before, gone);
                assert(before.filter(|s: u64| !gone(s)) =~= collected(before, now_ms, ttl, width));
            },
        }
    }
}

/// A decrement leaves a counter as it was if and only if the counter was empty.
pub proof fn lemma_decrement_noop(units: Multiset<u64>)
    ensures
        decremented(units) == units <==> units.len() == 0,
{
    if units.len() > 0 {
        lemma_oldest_exists(units);
        lemma_remove_len(units, oldest(units));
    }
}

/// A counter that is not empty has an oldest slot.
pub proof fn lemma_oldest_exists(units: Multiset<u64>)
    requires
        units.len() > 0,
    ensures
        is_oldest(units, oldest(units)),
{
    let some = units.choose();
    assert(units.count(some) > 0);
    lemma_least_slot(units, some);
}

proof fn lemma_least_slot(units: Multiset<u64>, bound: u64)
    requires
        units.count(bound) > 0,
    ensures
        exists|s: u64| is_oldest(units, s),
    decreases bound,
{
    if forall|t: u64| units.count(t) > 0 ==> bound <= t {
        assert(is_oldest(units, bound));
    } else {
        let t = choose|t: u64| units.count(t) > 0 && !(bound <= t);
        lemma_least_slot(units, t);
    }
}

impl View for GcCounter {
    type V = Multiset<u64>;

    closed spec fn view(&self) -> Multiset<u64> {
        units_of(self.value_lifetimes@)
    }
}

impl GcCounter {
    /// The time that a unit stays counted.
    pub closed spec fn ttl(&self) -> Duration {
        self.value_ttl_ms
    }

    /// The width of a slot.
    pub closed spec fn slot_width(&self) -> Duration {
        self.gc_slot_duration_ms
    }

    #[verifier::type_invariant]
    spec fn count_fits(&self) -> bool {
        units_of(self.value_lifetimes@).len() <= u64::MAX
    }

    /// An empty counter.
    pub fn new(value_ttl_ms: Duration, gc_slot_duration_ms: Duration) -> (r: Self)
        ensures
            r@ == Multiset::<u64>::empty(),
            r.ttl() == value_ttl_ms,
            r.slot_width() == gc_slot_duration_ms,
    {
        let value_lifetimes: BTreeMap<u64, u64> = BTreeMap::new();
        proof {
            lemma_units_counts(value_lifetimes@);
            assert(units_of(value_lifetimes@) =~= Multiset::<u64>::empty());
        }
        GcCounter { value_ttl_ms, gc_slot_duration_ms, value_lifetimes }
    }

    /// Takes one unit out of the oldest slot that has any; does nothing on an
    /// empty counter.
    pub fn decrement(&mut self)
        ensures
            final(self)@ == decremented(old(self)@),
            final(self)@ == old(self)@ <==> old(self)@.len() == 0,
            final(self).ttl() == old(self).ttl(),
            final(self).slot_width() == old(self).slot_width(),
    {
        proof {
            use_type_invariant(&*self);
            lemma_units_empty();
        }
        let ghost before = self@;
        let mut buckets: BTreeMap<u64, u64> = BTreeMap::new();
        std::mem::swap(&mut self.value_lifetimes, &mut buckets);
        proof {
            lemma_units_counts(buckets@);
        }
        let slots = sorted_slots(&buckets);
        let mut found: Option<(u64, u64)> = None;
        let mut i: usize = 0;
        while i < slots.len() && found.is_none()
            invariant
                i <= slots.len(),
                forall|a: int, b: int| 0 <= a < b < slots@.len() ==> slots@[a] < slots@[b],
                forall|s: u64| slots@.contains(s) <==> buckets@.contains_key(s),
                found is None ==> forall|j: int|
                    0 <= j < i ==> before.count(#[trigger] slots@[j]) == 0,
                found matches Some((slot, lifetime)) ==> {
                    &&& is_oldest(before, slot)
                    &&& buckets@.contains_key(slot)
                    &&& buckets@[slot] == lifetime
                    &&& lifetime > 0
                },
                forall|s: u64|
                    #[trigger] before.count(s) == if buckets@.contains_key(s) {
                        buckets@[s] as nat
                    } else {
                        0
                    },
            decreases slots.len() - i,
        {
            let slot = slots[i];
            assert(slots@.contains(slot));
            let lifetime: u64 = match buckets.get(&slot) {
                Some(n) => *n,
                None => 0,
            };
            if lifetime > 0 {
                proof {
                    assert forall|t: u64| before.count(t) > 0 implies slot <= t by {
                        assert(slots@.contains(t));
                        let j = choose|j: int| 0 <= j < slots@.len() && slots@[j] == t;
                        if j < i {
                            assert(before.count(slots@[j]) == 0);
                        }
                    }
                }
                found = Some((slot, lifetime));
            }
            i += 1;
        }
        match found {
            Some((slot, lifetime)) => {
                buckets.insert(slot, lifetime - 1);
                proof {
                    lemma_units_counts(buckets@);
                    lemma_oldest_unique(before, slot);
                    assert(before.count(slot) <= before.len());
                    assert(units_of(buckets@) =~= before.remove(slot));
                    lemma_remove_len(before, slot);
                }
            },
            None => {
                proof {
                    assert(before =~= Multiset::<u64>::empty()) by {
                        assert forall|t: u64| before.count(t) == 0 by {
                            if buckets@.contains_key(t) {
                                assert(slots@.contains(t));
                                let j = choose|j: int| 0 <= j < slots@.len() && slots@[j] == t;
                                assert(before.count(slots@[j]) == 0);
                            }
                        }
                    }
                }
            },
        }
        self.value_lifetimes = buckets;
    }

    /// Records one unit at `current_time_ms`.
    pub fn increment(&mut self, current_time_ms: u64)
        requires
            old(self)@.len() < u64::MAX,
        ensures
            final(self)@ == incremented(old(self)@, current_time_ms, old(self).slot_width()),
            final(self).ttl() == old(self).ttl(),
            final(self).slot_width() == old(self).slot_width(),
    {
        proof {
            lemma_units_empty();
        }
        let ghost before = self@;
        let slot = current_time_ms / self.gc_slot_duration_ms.get();
        let mut buckets: BTreeMap<u64, u64> = BTreeMap::new();
        std::mem::swap(&mut self.value_lifetimes, &mut buckets);
        proof {
            lemma_units_counts(buckets@);
        }
        let lifetime: u64 = match buckets.get(&slot) {
            Some(n) => *n,
            None => 0,
        };
        assert(lifetime < u64::MAX) by {
            assert(before.count(slot) <= before.len());
        }
        buckets.insert(slot, lifetime + 1);
        proof {
            lemma_units_counts(buckets@);
            assert(units_of(buckets@) =~= before.insert(slot));
        }
        self.value_lifetimes = buckets;
    }

    /// The number of live units.
    pub fn get_count(&self) -> (r: u64)
        ensures
            r == self@.len(),
    {
        proof {
            use_type_invariant(self);
            lemma_units_counts(self.value_lifetimes@);
        }
        let slots = sorted_slots(&self.value_lifetimes);
        let mut total: u64 = 0;
        let mut i: usize = 0;
        let ghost mut bound: int = 0;
        proof {
            assert(below(self@, 0) =~= Multiset::<u64>::empty());
        }
        while i < slots.len()
            invariant
                i <= slots.len(),
                forall|a: int, b: int| 0 <= a < b < slots@.len() ==> slots@[a] < slots@[b],
                forall|s: u64| slots@.contains(s) <==> self.value_lifetimes@.contains_key(s),
                forall|s: u64|
                    #[trigger] self@.count(s) == if self.value_lifetimes@.contains_key(s) {
                        self.value_lifetimes@[s] as nat
                    } else {
                        0
                    },
                self@.len() <= u64::MAX,
                total == below(self@, bound).len(),
                i == 0 ==> bound == 0,
                i > 0 ==> bound == slots@[i - 1] + 1,
            decreases slots.len() - i,
        {
            let slot = slots[i];
            assert(slots@.contains(slot));
            let lifetime: u64 = match self.value_lifetimes.get(&slot) {
                Some(n) => *n,
                None => 0,
            };
            proof {
                assert forall|s: u64| bound <= s < slot implies self@.count(s) == 0 by {
                    if self.value_lifetimes@.contains_key(s) {
                        assert(slots@.contains(s));
                        let j = choose|j: int| 0 <= j < slots@.len() && slots@[j] == s;
                        if j < i {
                            assert(slots@[j] <= slots@[i - 1]);
                        } else if j > i {
                            assert(slots@[i as int] < slots@[j]);
                        }
                    }
                }
                if i > 0 {
                    assert(slots@[i - 1] < slots@[i as int]);
                }
                lemma_below_gap(self@, bound, slot as int);
                lemma_below_step(self@, slot);
                bound = slot + 1;
            }
            total = total + lifetime;
            i += 1;
        }
        proof {
            assert forall|s: u64| bound <= s implies self@.count(s) == 0 by {
                if self.value_lifetimes@.contains_key(s) {
                    assert(slots@.contains(s));
                    let j = choose|j: int| 0 <= j < slots@.len() && slots@[j] == s;
                    if j < i - 1 {
                        assert(slots@[j] < slots@[i - 1]);
                    }
                }
            }
            lemma_below_all(self@, bound);
        }
        total
    }

    /// Drops every unit whose slot has expired at `current_time_ms`.
    pub fn gc(&mut self, current_time_ms: u64)
        ensures
            final(self)@ == collected(
                old(self)@,
                current_time_ms,
                old(self).ttl(),
                old(self).slot_width(),
            ),
            final(self).ttl() == old(self).ttl(),
            final(self).slot_width() == old(self).slot_width(),
    {
        proof {
            use_type_invariant(&*self);
            lemma_units_empty();
        }
        let ghost before = self@;
        let ghost keep = |s: u64|
            !expired(s, current_time_ms, self.value_ttl_ms, self.gc_slot_duration_ms);
        let width = self.gc_slot_duration_ms.get();
        let gc_slot = current_time_ms / width;
        let ttl_slots = self.value_ttl_ms.get() / width;
        if gc_slot < ttl_slots {
            proof {
                assert(before.filter(keep) =~= before);
            }
            return ;
        }
        let slot_cutoff = gc_slot - ttl_slots;
        assert(slot_cutoff == cutoff(current_time_ms, self.value_ttl_ms, self.gc_slot_duration_ms));
        let mut buckets: BTreeMap<u64, u64> = BTreeMap::new();
        std::mem::swap(&mut self.value_lifetimes, &mut buckets);
        let ghost start = buckets@;
        proof {
            lemma_units_counts(start);
        }
        let slots = sorted_slots(&buckets);
        let mut i: usize = 0;
        proof {
            assert forall|j: int| 0 <= j < slots@.len() implies buckets@.contains_key(
                #[trigger] slots@[j],
            ) by {
                assert(slots@.contains(slots@[j]));
            }
        }
        while i < slots.len() && slots[i] <= slot_cutoff
            invariant
                i <= slots.len(),
                start.dom().finite(),
                before == units_of(start),
                forall|a: int, b: int| 0 <= a < b < slots@.len() ==> slots@[a] < slots@[b],
                forall|s: u64| slots@.contains(s) <==> start.contains_key(s),
                forall|j: int| 0 <= j < i ==> #[trigger] slots@[j] <= slot_cutoff,
                forall|j: int|
                    0 <= j < slots@.len() ==> (buckets@.contains_key(#[trigger] slots@[j]) <==> j
                        >= i),
                forall|s: u64| #[trigger]
                    buckets@.contains_key(s) ==> start.contains_key(s) && buckets@[s] == start[s],
            decreases slots.len() - i,
        {
            let slot = slots[i];
            let ghost prior = buckets@;
            buckets.remove(&slot);
            proof {
                assert(buckets@ == prior.remove(slot));
                assert forall|s: u64| #[trigger]
                    buckets@.contains_key(s) implies start.contains_key(s) && buckets@[s]
                    == start[s] by {
                    assert(prior.contains_key(s));
                }
                assert forall|j: int| 0 <= j < slots@.len() implies (buckets@.contains_key(
                    #[trigger] slots@[j],
                ) <==> j >= i + 1) by {
                    if j < i {
                        assert(slots@[j] < slots@[i as int]);
                    } else if j > i {
                        assert(slots@[i as int] < slots@[j]);
                    }
                }
            }
            i += 1;
        }
        proof {
            lemma_units_counts(start);
            lemma_units_counts(buckets@);
            assert(units_of(buckets@) =~= before.filter(keep)) by {
                assert forall|s: u64|
                    units_of(buckets@).count(s) == before.filter(keep).count(s) by {
                    assert(before.filter(keep).count(s) == if keep(s) {
                        before.count(s)
                    } else {
                        0
                    });
                    assert(keep(s) <==> s > slot_cutoff);
                    if start.contains_key(s) {
                        assert(slots@.contains(s));
                        let j = choose|j: int| 0 <= j < slots@.len() && slots@[j] == s;
                        assert(buckets@.contains_key(slots@[j]) <==> j >= i);
                        if j < i {
                            assert(slots@[j] <= slot_cutoff);
                            assert(units_of(buckets@).count(s) == 0);
                        } else {
                            if j > i {
                                assert(slots@[i as int] < slots@[j]);
                            }
                            assert(s > slot_cutoff);
                            assert(buckets@[s] == start[s]);
                            assert(units_of(buckets@).count(s) == before.count(s));
                        }
                    } else {
                        assert(!buckets@.contains_key(s));
                        assert(before.count(s) == 0);
                    }
                }
            }
            let gone = |s: u64|
                expired(s, current_time_ms, self.value_ttl_ms, self.gc_slot_duration_ms);
            lemma_filter_len(before, gone);
            assert(before.filter(|s: u64| !gone(s)) =~= before.filter(keep));
        }
        self.value_lifetimes = buckets;
    }
}

} // verus!
