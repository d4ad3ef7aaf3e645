//! Walking the buckets of a slot-indexed map in slot order.

use std::collections::BTreeMap;
use vstd::prelude::*;
use vstd::std_specs::btree::increasing_seq;
use vstd::std_specs::btree::spec_keys_iter;
use vstd::std_specs::cmp::OrdSpec;
use vstd::std_specs::iter::IteratorSpec;

verus! {

/// The slots that have a bucket in `m`, oldest first.
pub(crate) fn sorted_slots<T>(m: &BTreeMap<u64, T>) -> (r: Vec<u64>)
    ensures
        forall|i: int, j: int| 0 <= i < j < r@.len() ==> r@[i] < r@[j],
        forall|s: u64| r@.contains(s) <==> m@.contains_key(s),
{
    let mut out: Vec<u64> = Vec::new();
    for k in it: m.keys()
        invariant
            out@.len() == it.index(),
            forall|i: int| 0 <= i < out@.len() ==> out@[i] == *it.seq()[i],
            it.seq() == spec_keys_iter(m).remaining(),
    {
        out.push(*k);
    }
    proof {
        let ks = spec_keys_iter(m).remaining();
        assert(increasing_seq(ks));
        assert(vstd::laws_cmp::obeys_cmp::<&u64>());
        assert forall|i: int, j: int| 0 <= i < j < out@.len() implies out@[i] < out@[j] by {
            assert(OrdSpec::cmp_spec(&ks[i], &ks[j]) is Less);
        }
        assert(ks.unref().to_set() == m@.dom());
        assert forall|s: u64| out@.contains(s) <==> m@.contains_key(s) by {
            if out@.contains(s) {
                let i = choose|i: int| 0 <= i < out@.len() && out@[i] == s;
                assert(ks.unref()[i] == s);
                assert(ks.unref().to_set().contains(s));
            }
            if m@.contains_key(s) {
                assert(ks.unref().to_set().contains(s));
                let i = choose|i: int| 0 <= i < ks.unref().len() && ks.unref()[i] == s;
                assert(out@[i] == s);
            }
        }
    }
    out
}

} // verus!
