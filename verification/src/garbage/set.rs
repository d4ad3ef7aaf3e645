//! A set whose members expire, bucketed by time slot.
//!
//! The set is modelled as a map from each member to the slot it was last
//! inserted in. Inserting a member again moves it to the current slot, and a
//! collection drops every member whose slot has expired.

use crate::garbage::cutoff;
use crate::garbage::expired;
use crate::garbage::slot_at;
use crate::garbage::slots::sorted_slots;
use crate::garbage::Duration;
use std::collections::BTreeMap;
use std::collections::HashSet;
use std::hash::Hash;
use vstd::prelude::*;
use vstd::std_specs::hash::obeys_key_model;

verus! {

/// Remembers values, forgetting those inserted longer ago than a time to live.
pub struct GcSet<V> where V: Eq + Hash {
    /// The number of milliseconds a value is valid for.
    value_ttl_ms: Duration,
    /// The width of a garbage collection slot in milliseconds.
    gc_slot_duration_ms: Duration,
    /// The values of each slot.
    value_lifetimes: BTreeMap<u64, HashSet<V>>,
}

/// Whether the bucket of `slot` holds `value`.
pub closed spec fn held<V>(buckets: Map<u64, HashSet<V>>, value: V, slot: u64) -> bool {
    buckets.contains_key(slot) && buckets[slot]@.contains(value)
}

/// The slot of each value that some bucket holds.
pub closed spec fn slots_of<V>(buckets: Map<u64, HashSet<V>>) -> Map<V, u64> {
    Map::new(
        |v: V| exists|s: u64| held(buckets, v, s),
        |v: V| choose|s: u64| held(buckets, v, s),
    )
}

/// No value lies in two buckets.
pub closed spec fn disjoint<V>(buckets: Map<u64, HashSet<V>>) -> bool {
    forall|v: V, s: u64, t: u64|
        #![trigger held(buckets, v, s), held(buckets, v, t)]
        held(buckets, v, s) && held(buckets, v, t) ==> s == t
}

/// The members that a collection at `now_ms` keeps, each with its slot.
pub open spec fn kept<V>(members: Map<V, u64>, now_ms: u64, ttl: Duration, width: Duration) -> Map<
    V,
    u64,
> {
    Map::new(
        |v: V| members.contains_key(v) && !expired(members[v], now_ms, ttl, width),
        |v: V| members[v],
    )
}

proof fn lemma_slot_of<V>(buckets: Map<u64, HashSet<V>>, value: V, slot: u64)
    requires
        disjoint(buckets),
        held(buckets, value, slot),
    ensures
        slots_of(buckets).contains_key(value),
        slots_of(buckets)[value] == slot,
{
    let chosen = choose|s: u64| held(buckets, value, s);
    assert(held(buckets, value, chosen));
}

proof fn lemma_slot_held<V>(buckets: Map<u64, HashSet<V>>, value: V)
    requires
        slots_of(buckets).contains_key(value),
    ensures
        held(buckets, value, slots_of(buckets)[value]),
{
}

proof fn lemma_no_slot<V>(buckets: Map<u64, HashSet<V>>, value: V)
    requires
        forall|s: u64| !held(buckets, value, s),
    ensures
        !slots_of(buckets).contains_key(value),
{
}

/// Takes `value` out of the newest bucket that holds it.
fn remove_from<V>(buckets: &mut BTreeMap<u64, HashSet<V>>, value: &V) where V: Eq + Hash
    requires
        obeys_key_model::<V>() ==> disjoint(old(buckets)@),
    ensures
        obeys_key_model::<V>() ==> {
            &&& disjoint(final(buckets)@)
            &&& slots_of(final(buckets)@) == slots_of(old(buckets)@).remove(*value)
            &&& forall|s: u64| !held(final(buckets)@, *value, s)
        },
{
    let ghost start = buckets@;
    let slots = sorted_slots(buckets);
    let mut i: usize = slots.len();
    let mut found = false;
    proof {
        assert forall|j: int| 0 <= j < slots@.len() implies buckets@.contains_key(
            #[trigger] slots@[j],
        ) by {
            assert(slots@.contains(slots@[j]));
        }
    }
    while i > 0 && !found
        invariant
            i <= slots.len(),
            obeys_key_model::<V>() ==> disjoint(start),
            forall|s: u64| slots@.contains(s) <==> start.contains_key(s),
            forall|j: int| 0 <= j < slots@.len() ==> start.contains_key(#[trigger] slots@[j]),
            forall|s: u64| #[trigger] buckets@.contains_key(s) <==> start.contains_key(s),
            obeys_key_model::<V>() && !found ==> forall|s: u64| #[trigger]
                buckets@.contains_key(s) ==> buckets@[s]@ == start[s]@,
            obeys_key_model::<V>() && !found ==> forall|j: int|
                i <= j < slots@.len() ==> !held(start, *value, #[trigger] slots@[j]),
            obeys_key_model::<V>() && found ==> exists|k: u64|
                {
                    &&& #[trigger] held(start, *value, k)
                    &&& buckets@[k]@ == start[k]@.remove(*value)
                    &&& forall|s: u64| #[trigger]
                        buckets@.contains_key(s) && s != k ==> buckets@[s]@ == start[s]@
                },
        decreases i + (if found { 0int } else { 1int }),
    {
        let slot = slots[i - 1];
        let ghost prior = buckets@;
        match buckets.remove(&slot) {
            Some(lifetimes) => {
                let mut lifetimes = lifetimes;
                let ghost before = lifetimes@;
                let removed = lifetimes.remove(value);
                buckets.insert(slot, lifetimes);
                proof {
                    if obeys_key_model::<V>() {
                        assert(before == start[slot]@);
                        assert(buckets@[slot]@ == before.remove(*value));
                        if removed {
                            assert(held(start, *value, slot));
                            assert forall|s: u64| #[trigger]
                                buckets@.contains_key(s) && s != slot implies buckets@[s]@
                                == start[s]@ by {
                                assert(prior.contains_key(s));
                            }
                        } else {
                            assert(before.remove(*value) =~= before);
                            assert forall|s: u64| #[trigger]
                                buckets@.contains_key(s) implies buckets@[s]@ == start[s]@ by {
                                if s != slot {
                                    assert(prior.contains_key(s));
                                }
                            }
                            assert(!held(start, *value, slot));
                        }
                    }
                    assert forall|s: u64| #[trigger]
                        buckets@.contains_key(s) <==> start.contains_key(s) by {
                        if s != slot {
                            assert(prior.contains_key(s) <==> buckets@.contains_key(s));
                        }
                    }
                }
                found = removed;
            },
            None => {
                proof {
                    assert(false);
                }
            },
        }
        i -= 1;
    }
    proof {
        if !obeys_key_model::<V>() {
        } else if found {
            let k = choose|k: u64|
                {
                    &&& #[trigger] held(start, *value, k)
                    &&& buckets@[k]@ == start[k]@.remove(*value)
                    &&& forall|s: u64| #[trigger]
                        buckets@.contains_key(s) && s != k ==> buckets@[s]@ == start[s]@
                };
            assert forall|v: V, s: u64| #[trigger]
                held(buckets@, v, s) <==> held(start, v, s) && v != *value by {
                if s != k {
                    if buckets@.contains_key(s) {
                        assert(buckets@[s]@ == start[s]@);
                    }
                    if held(start, v, s) && v == *value {
                        assert(held(start, *value, k));
                    }
                }
            }
        } else {
            assert forall|v: V, s: u64| #[trigger]
                held(buckets@, v, s) <==> held(start, v, s) && v != *value by {
                if buckets@.contains_key(s) {
                    assert(buckets@[s]@ == start[s]@);
                    assert(slots@.contains(s));
                    let j = choose|j: int| 0 <= j < slots@.len() && slots@[j] == s;
                    assert(!held(start, *value, slots@[j]));
                }
            }
        }
        if obeys_key_model::<V>() {
            lemma_same_members_but(start, buckets@, *value);
        }
    }
}

/// Buckets that hold what others hold, but for one value, map the same values
/// to the same slots, but for that value.
proof fn lemma_same_members_but<V>(
    start: Map<u64, HashSet<V>>,
    end: Map<u64, HashSet<V>>,
    value: V,
)
    requires
        disjoint(start),
        forall|v: V, s: u64| #[trigger] held(end, v, s) <==> held(start, v, s) && v != value,
    ensures
        disjoint(end),
        slots_of(end) == slots_of(start).remove(value),
        forall|s: u64| !held(end, value, s),
{
    assert forall|v: V, s: u64, t: u64|
        #![trigger held(end, v, s), held(end, v, t)]
        held(end, v, s) && held(end, v, t) implies s == t by {
        assert(held(start, v, s) && held(start, v, t));
    }
    assert forall|v: V| slots_of(end).contains_key(v) <==> slots_of(start).remove(
        value,
    ).contains_key(v) by {
        if slots_of(end).contains_key(v) {
            lemma_slot_held(end, v);
            let s = slots_of(end)[v];
            assert(held(start, v, s));
            lemma_slot_of(start, v, s);
        }
        if slots_of(start).remove(value).contains_key(v) {
            lemma_slot_held(start, v);
            let s = slots_of(start)[v];
            assert(held(end, v, s));
            lemma_slot_of(end, v, s);
        }
    }
    assert forall|v: V| slots_of(end).contains_key(v) implies slots_of(end)[v] == slots_of(
        start,
    ).remove(value)[v] by {
        lemma_slot_held(end, v);
        let s = slots_of(end)[v];
        assert(held(start, v, s));
        lemma_slot_of(start, v, s);
    }
    assert(slots_of(end) =~= slots_of(start).remove(value));
}

/// Puts `value` into the bucket of `slot`; no other bucket may hold it.
fn insert_into<V>(buckets: &mut BTreeMap<u64, HashSet<V>>, value: V, slot: u64) where V: Eq + Hash
    requires
        obeys_key_model::<V>() ==> disjoint(old(buckets)@),
        obeys_key_model::<V>() ==> forall|s: u64| !held(old(buckets)@, value, s),
    ensures
        obeys_key_model::<V>() ==> {
            &&& disjoint(final(buckets)@)
            &&& slots_of(final(buckets)@) == slots_of(old(buckets)@).insert(value, slot)
        },
{
    let ghost start = buckets@;
    let mut lifetimes: HashSet<V> = match buckets.remove(&slot) {
        Some(lifetimes) => lifetimes,
        None => HashSet::new(),
    };
    let ghost before = lifetimes@;
    let ghost prior = buckets@;
    lifetimes.insert(value);
    buckets.insert(slot, lifetimes);
    proof {
        if obeys_key_model::<V>() {
            assert(start.contains_key(slot) ==> before == start[slot]@);
            assert forall|v: V, s: u64| #[trigger]
                held(buckets@, v, s) <==> held(start, v, s) || (v == value && s == slot) by {
                if s != slot {
                    assert(prior.contains_key(s) <==> start.contains_key(s));
                }
            }
            lemma_one_more_member(start, buckets@, value, slot);
        }
    }
}

/// Buckets that hold what others hold and one value more, in one slot, map
/// the same values to the same slots, and that value to that slot.
proof fn lemma_one_more_member<V>(
    start: Map<u64, HashSet<V>>,
    end: Map<u64, HashSet<V>>,
    value: V,
    slot: u64,
)
    requires
        disjoint(start),
        forall|s: u64| !held(start, value, s),
        forall|v: V, s: u64| #[trigger]
            held(end, v, s) <==> held(start, v, s) || (v == value && s == slot),
    ensures
        disjoint(end),
        slots_of(end) == slots_of(start).insert(value, slot),
{
    assert forall|v: V, s: u64, t: u64|
        #![trigger held(end, v, s), held(end, v, t)]
        held(end, v, s) && held(end, v, t) implies s == t by {
        if v != value {
            assert(held(start, v, s) && held(start, v, t));
        }
    }
    assert(held(end, value, slot));
    assert forall|v: V| slots_of(end).contains_key(v) <==> slots_of(start).insert(
        value,
        slot,
    ).contains_key(v) by {
        if slots_of(end).contains_key(v) && v != value {
            lemma_slot_held(end, v);
            let s = slots_of(end)[v];
            assert(held(start, v, s));
            lemma_slot_of(start, v, s);
        }
        if v == value {
            lemma_slot_of(end, value, slot);
        } else if slots_of(start).contains_key(v) {
            lemma_slot_held(start, v);
            let s = slots_of(start)[v];
            assert(held(end, v, s));
            lemma_slot_of(end, v, s);
        }
    }
    assert forall|v: V| slots_of(end).contains_key(v) implies slots_of(end)[v] == slots_of(
        start,
    ).insert(value, slot)[v] by {
        if v == value {
            lemma_slot_of(end, value, slot);
        } else {
            lemma_slot_held(end, v);
            let s = slots_of(end)[v];
            assert(held(start, v, s));
            lemma_slot_of(start, v, s);
        }
    }
    assert(slots_of(end) =~= slots_of(start).insert(value, slot));
}

proof fn lemma_empty_buckets<V>()
    ensures
        disjoint(Map::<u64, HashSet<V>>::empty()),
        slots_of(Map::<u64, HashSet<V>>::empty()) == Map::<V, u64>::empty(),
{
    assert(slots_of(Map::<u64, HashSet<V>>::empty()) =~= Map::<V, u64>::empty());
}

/// One call on a set, as it appears in a history of calls.
pub enum SetCall<V> {
    /// `insert` of a value at a time in milliseconds.
    Insert(V, u64),
    /// `remove_value` of a value.
    Remove(V),
    /// `gc` at a time in milliseconds.
    Collect(u64),
}

/// The members after one call.
pub open spec fn after_set_call<V>(
    members: Map<V, u64>,
    call: SetCall<V>,
    ttl: Duration,
    width: Duration,
) -> Map<V, u64> {
    match call {
        SetCall::Insert(value, now_ms) => members.insert(value, slot_at(now_ms, width)),
        SetCall::Remove(value) => members.remove(value),
        SetCall::Collect(now_ms) => kept(members, now_ms, ttl, width),
    }
}

/// The members of a new set after a history of calls.
pub open spec fn after_set_calls<V>(calls: Seq<SetCall<V>>, ttl: Duration, width: Duration) -> Map<
    V,
    u64,
>
    decreases calls.len(),
{
    if calls.len() == 0 {
        Map::empty()
    } else {
        after_set_call(after_set_calls(calls.drop_last(), ttl, width), calls.last(), ttl, width)
    }
}

/// Whether a later call leaves alone a value that was inserted at `inserted_ms`:
/// it neither inserts nor removes that value, nor collects its slot.
pub open spec fn spares<V>(
    call: SetCall<V>,
    value: V,
    inserted_ms: u64,
    ttl: Duration,
    width: Duration,
) -> bool {
    match call {
        SetCall::Insert(other, _) => other != value,
        SetCall::Remove(other) => other != value,
        SetCall::Collect(now_ms) => !expired(slot_at(inserted_ms, width), now_ms, ttl, width),
    }
}

/// Whether call `i` of a history is the most recent insert of `value`, at
/// `inserted_ms`, and every call after it spares the value.
pub open spec fn survives<V>(
    calls: Seq<SetCall<V>>,
    i: int,
    value: V,
    inserted_ms: u64,
    ttl: Duration,
    width: Duration,
) -> bool {
    &&& 0 <= i < calls.len()
    &&& calls[i] == SetCall::Insert(value, inserted_ms)
    &&& forall|j: int|
        i < j < calls.len() ==> spares(#[trigger] calls[j], value, inserted_ms, ttl, width)
}

/// After any history of calls on a new set, a value is a member if and only if
/// its most recent insert has been spared by every call since: no removal of
/// the value, and no collection at which the slot of that insert had expired.
/// A member's slot is the slot of that insert.
pub proof fn lemma_member_iff_survives<V>(
    calls: Seq<SetCall<V>>,
    value: V,
    ttl: Duration,
    width: Duration,
)
    ensures
        after_set_calls(calls, ttl, width).contains_key(value) <==> exists|i: int, t: u64|
            survives(calls, i, value, t, ttl, width),
        forall|i: int, t: u64|
            survives(calls, i, value, t, ttl, width) ==> after_set_calls(calls, ttl, width)[value]
                == slot_at(t, width),
    decreases calls.len(),
{
    let after = after_set_calls(calls, ttl, width);
    if calls.len() == 0 {
    } else {
        let earlier = calls.drop_last();
        let before = after_set_calls(earlier, ttl, width);
        let last = calls.last();
        let n = calls.len() - 1;
        lemma_member_iff_survives(earlier, value, ttl, width);
        assert forall|i: int, t: u64|
            survives(calls, i, value, t, ttl, width) && i < n implies survives(
            earlier,
            i,
            value,
            t,
            ttl,
            width,
        ) && spares(last, value, t, ttl, width) by {
            assert(earlier[i] == calls[i]);
            assert forall|j: int| i < j < earlier.len() implies spares(
                #[trigger] earlier[j],
                value,
                t,
                ttl,
                width,
            ) by {
                assert(earlier[j] == calls[j]);
            }
            assert(spares(calls[n], value, t, ttl, width));
        }
        assert forall|i: int, t: u64|
            survives(earlier, i, value, t, ttl, width) && spares(
                last,
                value,
                t,
                ttl,
                width,
            ) implies survives(calls, i, value, t, ttl, width) by {
            assert(earlier[i] == calls[i]);
            assert forall|j: int| i < j < calls.len() implies spares(
                #[trigger] calls[j],
                value,
                t,
                ttl,
                width,
            ) by {
                if j < n {
                    assert(earlier[j] == calls[j]);
                }
            }
        }
        assert forall|i: int, t: u64|
            survives(calls, i, value, t, ttl, width) implies after.contains_key(value)
            && after[value] == slot_at(t, width) by {
            if i < n {
                assert(survives(earlier, i, value, t, ttl, width));
                assert(spares(last, value, t, ttl, width));
                assert(before.contains_key(value));
                assert(before[value] == slot_at(t, width));
            }
        }
        if after.contains_key(value) {
            match last {
                SetCall::Insert(other, now_ms) => {
                    if other == value {
                        assert(survives(calls, n, value, now_ms, ttl, width));
                    } else {
                        let (i, t) = choose|i: int, t: u64|
                            survives(earlier, i, value, t, ttl, width);
                        assert(survives(calls, i, value, t, ttl, width));
                    }
                },
                SetCall::Remove(other) => {
                    let (i, t) = choose|i: int, t: u64|
                        survives(earlier, i, value, t, ttl, width);
                    assert(survives(calls, i, value, t, ttl, width));
                },
                SetCall::Collect(now_ms) => {
                    let (i, t) = choose|i: int, t: u64|
                        survives(earlier, i, value, t, ttl, width);
                    assert(before[value] == slot_at(t, width));
                    assert(survives(calls, i, value, t, ttl, width));
                },
            }
        }
    }
}

impl<V> View for GcSet<V> where V: Eq + Hash {
    type V = Map<V, u64>;

    closed spec fn view(&self) -> Map<V, u64> {
        slots_of(self.value_lifetimes@)
    }
}

impl<V> GcSet<V> where V: Eq + Hash {
    /// The time that a value stays in the set.
    pub closed spec fn ttl(&self) -> Duration {
        self.value_ttl_ms
    }

    /// The width of a slot.
    pub closed spec fn slot_width(&self) -> Duration {
        self.gc_slot_duration_ms
    }

    #[verifier::type_invariant]
    spec fn one_bucket_each(&self) -> bool {
        obeys_key_model::<V>() ==> disjoint(self.value_lifetimes@)
    }

    /// An empty set.
    pub fn new(value_ttl_ms: Duration, gc_slot_duration_ms: Duration) -> (r: Self)
        ensures
            r@ == Map::<V, u64>::empty(),
            r.ttl() == value_ttl_ms,
            r.slot_width() == gc_slot_duration_ms,
    {
        proof {
            lemma_empty_buckets::<V>();
        }
        GcSet { value_ttl_ms, gc_slot_duration_ms, value_lifetimes: BTreeMap::new() }
    }

    /// Takes a value out of the set.
    pub fn remove_value(&mut self, value: &V)
        ensures
            obeys_key_model::<V>() ==> final(self)@ == old(self)@.remove(*value),
            final(self).ttl() == old(self).ttl(),
            final(self).slot_width() == old(self).slot_width(),
    {
        proof {
            use_type_invariant(&*self);
            lemma_empty_buckets::<V>();
        }
        let mut buckets: BTreeMap<u64, HashSet<V>> = BTreeMap::new();
        std::mem::swap(&mut self.value_lifetimes, &mut buckets);
        remove_from(&mut buckets, value);
        self.value_lifetimes = buckets;
    }

    /// Puts a value into the set at `current_time_ms`; a value that was there
    /// already moves to the slot of that time.
    pub fn insert(&mut self, value: V, current_time_ms: u64)
        ensures
            obeys_key_model::<V>() ==> final(self)@ == old(self)@.insert(
                value,
                slot_at(current_time_ms, old(self).slot_width()),
            ),
            final(self).ttl() == old(self).ttl(),
            final(self).slot_width() == old(self).slot_width(),
    {
        proof {
            use_type_invariant(&*self);
            lemma_empty_buckets::<V>();
        }
        let ghost before = self@;
        let slot = current_time_ms / self.gc_slot_duration_ms.get();
        let mut buckets: BTreeMap<u64, HashSet<V>> = BTreeMap::new();
        std::mem::swap(&mut self.value_lifetimes, &mut buckets);
        remove_from(&mut buckets, &value);
        insert_into(&mut buckets, value, slot);
        proof {
            assert(before.remove(value).insert(value, slot) =~= before.insert(value, slot));
        }
        self.value_lifetimes = buckets;
    }

    /// Whether a value is in the set.
    pub fn contains(&self, value: &V) -> (r: bool)
        ensures
            obeys_key_model::<V>() ==> r == self@.contains_key(*value),
    {
        proof {
            use_type_invariant(self);
        }
        let slots = sorted_slots(&self.value_lifetimes);
        let mut i: usize = 0;
        while i < slots.len()
            invariant
                i <= slots.len(),
                forall|s: u64| slots@.contains(s) <==> self.value_lifetimes@.contains_key(s),
                obeys_key_model::<V>() ==> forall|j: int|
                    0 <= j < i ==> !held(self.value_lifetimes@, *value, #[trigger] slots@[j]),
            decreases slots.len() - i,
        {
            let slot = slots[i];
            let here = match self.value_lifetimes.get(&slot) {
                Some(lifetimes) => lifetimes.contains(value),
                None => false,
            };
            if here {
                proof {
                    if obeys_key_model::<V>() {
                        assert(held(self.value_lifetimes@, *value, slot));
                    }
                }
                return true;
            }
            i += 1;
        }
        proof {
            if obeys_key_model::<V>() {
                assert forall|s: u64| !held(self.value_lifetimes@, *value, s) by {
                    if self.value_lifetimes@.contains_key(s) {
                        assert(slots@.contains(s));
                        let j = choose|j: int| 0 <= j < slots@.len() && slots@[j] == s;
                        assert(!held(self.value_lifetimes@, *value, slots@[j]));
                    }
                }
                lemma_no_slot(self.value_lifetimes@, *value);
            }
        }
        false
    }

    /// Drops every value whose slot has expired at `current_time_ms`.
    pub fn gc(&mut self, current_time_ms: u64)
        ensures
            obeys_key_model::<V>() ==> final(self)@ == kept(
                old(self)@,
                current_time_ms,
                old(self).ttl(),
                old(self).slot_width(),
            ),
            final(self).ttl() == old(self).ttl(),
            final(self).slot_width() == old(self).slot_width(),
    {
        proof {
            use_type_invariant(&*self);
            lemma_empty_buckets::<V>();
        }
        let ghost before = self@;
        let ghost ttl = self.value_ttl_ms;
        let ghost slot_width = self.gc_slot_duration_ms;
        let width = self.gc_slot_duration_ms.get();
        let gc_slot = current_time_ms / width;
        let ttl_slots = self.value_ttl_ms.get() / width;
        if gc_slot < ttl_slots {
            proof {
                assert(kept(before, current_time_ms, ttl, slot_width) =~= before);
            }
            return ;
        }
        let slot_cutoff = gc_slot - ttl_slots;
        assert(slot_cutoff == cutoff(current_time_ms, ttl, slot_width));
        let mut buckets: BTreeMap<u64, HashSet<V>> = BTreeMap::new();
        std::mem::swap(&mut self.value_lifetimes, &mut buckets);
        let ghost start = buckets@;
        let slots = sorted_slots(&buckets);
        let mut i: usize = 0;
        proof {
            assert forall|j: int| 0 <= j < slots@.len() implies buckets@.contains_key(
                #[trigger] slots@[j],
            ) by {
                assert(slots@.contains(slots@[j]));
            }
        }
        while i < slots.len() && slots[i] <= slot_cutoff
            invariant
                i <= slots.len(),
                forall|a: int, b: int| 0 <= a < b < slots@.len() ==> slots@[a] < slots@[b],
                forall|s: u64| slots@.contains(s) <==> start.contains_key(s),
                forall|j: int| 0 <= j < i ==> #[trigger] slots@[j] <= slot_cutoff,
                forall|j: int|
                    0 <= j < slots@.len() ==> (buckets@.contains_key(#[trigger] slots@[j]) <==> j
                        >= i),
                forall|s: u64| #[trigger]
                    buckets@.contains_key(s) ==> start.contains_key(s) && buckets@[s] == start[s],
            decreases slots.len() - i,
        {
            let slot = slots[i];
            let ghost prior = buckets@;
            buckets.remove(&slot);
            proof {
                assert(buckets@ == prior.remove(slot));
                assert forall|s: u64| #[trigger]
                    buckets@.contains_key(s) implies start.contains_key(s) && buckets@[s]
                    == start[s] by {
                    assert(prior.contains_key(s));
                }
                assert forall|j: int| 0 <= j < slots@.len() implies (buckets@.contains_key(
                    #[trigger] slots@[j],
                ) <==> j >= i + 1) by {
                    if j < i {
                        assert(slots@[j] < slots@[i as int]);
                    } else if j > i {
                        assert(slots@[i as int] < slots@[j]);
                    }
                }
            }
            i += 1;
        }
        proof {
            let end = buckets@;
            assert forall|v: V, s: u64| #[trigger]
                held(end, v, s) <==> held(start, v, s) && s > slot_cutoff by {
                if start.contains_key(s) {
                    assert(slots@.contains(s));
                    let j = choose|j: int| 0 <= j < slots@.len() && slots@[j] == s;
                    assert(buckets@.contains_key(slots@[j]) <==> j >= i);
                    if j < i {
                        assert(slots@[j] <= slot_cutoff);
                    } else {
                        if j > i {
                            assert(slots@[i as int] < slots@[j]);
                        }
                        assert(s > slot_cutoff);
                        assert(end[s] == start[s]);
                    }
                } else {
                    assert(!end.contains_key(s));
                }
            }
            if obeys_key_model::<V>() {
                lemma_newer_members(start, end, current_time_ms, ttl, slot_width);
            }
        }
        self.value_lifetimes = buckets;
    }
}

/// Buckets that hold what others hold in the slots that have not expired map
/// the values of those slots to them, and no other value.
proof fn lemma_newer_members<V>(
    start: Map<u64, HashSet<V>>,
    end: Map<u64, HashSet<V>>,
    now_ms: u64,
    ttl: Duration,
    width: Duration,
)
    requires
        disjoint(start),
        forall|v: V, s: u64| #[trigger]
            held(end, v, s) <==> held(start, v, s) && !expired(s, now_ms, ttl, width),
    ensures
        disjoint(end),
        slots_of(end) == kept(slots_of(start), now_ms, ttl, width),
{
    assert forall|v: V, s: u64, t: u64|
        #![trigger held(end, v, s), held(end, v, t)]
        held(end, v, s) && held(end, v, t) implies s == t by {
        assert(held(start, v, s) && held(start, v, t));
    }
    let goal = kept(slots_of(start), now_ms, ttl, width);
    assert forall|v: V| slots_of(end).contains_key(v) <==> goal.contains_key(v) by {
        if slots_of(end).contains_key(v) {
            lemma_slot_held(end, v);
            let s = slots_of(end)[v];
            assert(held(start, v, s));
            lemma_slot_of(start, v, s);
        }
        if goal.contains_key(v) {
            lemma_slot_held(start, v);
            let s = slots_of(start)[v];
            assert(held(end, v, s));
            lemma_slot_of(end, v, s);
        }
    }
    assert forall|v: V| slots_of(end).contains_key(v) implies slots_of(end)[v] == goal[v] by {
        lemma_slot_held(end, v);
        let s = slots_of(end)[v];
        assert(held(start, v, s));
        lemma_slot_of(start, v, s);
    }
    assert(slots_of(end) =~= goal);
}

} // verus!
