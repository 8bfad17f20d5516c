//! Hash collections read out as vectors, so that the loops over them can
//! count positions.

use std::collections::{HashMap, HashSet};
use vstd::prelude::*;
use vstd::std_specs::hash::*;
use vstd::std_specs::iter::IteratorSpec;

verus! {

broadcast use vstd::std_specs::hash::group_hash_axioms;

/// `s` names each element of `set` once and nothing else.
pub open spec fn lists(s: Seq<u32>, set: Set<u32>) -> bool {
    s.no_duplicates() && s.to_set() == set
}

/// The keys of `m`, each once, in the order in which the map hands them out.
pub fn key_list<V>(m: &HashMap<u32, V>) -> (ids: Vec<u32>)
    ensures
        lists(ids@, m@.dom()),
        ids@.len() == m@.dom().len(),
{
    let mut ids: Vec<u32> = Vec::new();
    for k in it: m.keys()
        invariant
            it.seq() == spec_keys_iter(m).remaining(),
            ids@.len() == it.index(),
            forall|j: int| 0 <= j < ids@.len() ==> ids@[j] == *it.seq()[j],
    {
        ids.push(*k);
    }
    proof {
        let keys = spec_keys_iter(m).remaining();
        assert(ids@ =~= keys.unref());
        assert(ids@.no_duplicates()) by {
            assert forall|i: int, j: int| 0 <= i < ids@.len() && 0 <= j < ids@.len() && i != j implies ids@[i] != ids@[j] by {
                assert(keys[i] != keys[j]);
            }
        }
    }
    ids
}

/// The elements of `set`, each once, in the order in which the set hands them out.
pub fn member_list(set: &HashSet<u32>) -> (ids: Vec<u32>)
    ensures
        lists(ids@, set@),
        ids@.len() == set@.len(),
        set@.finite(),
{
    let mut ids: Vec<u32> = Vec::new();
    for k in it: set.iter()
        invariant
            it.seq() == spec_hash_keys_iter(set).remaining(),
            ids@.len() == it.index(),
            forall|j: int| 0 <= j < ids@.len() ==> ids@[j] == *it.seq()[j],
    {
        ids.push(*k);
    }
    proof {
        let keys = spec_hash_keys_iter(set).remaining();
        assert(ids@ =~= keys.unref());
        assert(ids@.no_duplicates()) by {
            assert forall|i: int, j: int| 0 <= i < ids@.len() && 0 <= j < ids@.len() && i != j implies ids@[i] != ids@[j] by {
                assert(keys[i] != keys[j]);
            }
        }
        vstd::seq_lib::seq_to_set_is_finite(ids@);
    }
    ids
}

} // verus!
