//! Listing the contents of hash collections as vectors, so that the
//! algorithms can walk them by index.

use std::collections::HashMap;
use std::collections::HashSet;
use std::hash::Hash;
use vstd::prelude::*;
use vstd::std_specs::hash::obeys_key_model;
use vstd::std_specs::iter::IteratorSpec;

verus! {

broadcast use vstd::std_specs::hash::group_hash_axioms;

/// The members of `s`, each exactly once, in the order the set yields them.
pub(crate) fn set_members<K: Copy + Eq + Hash>(s: &HashSet<K>) -> (out: Vec<K>)
    requires
        obeys_key_model::<K>(),
    ensures
        out@.to_set() == s@,
        out@.no_duplicates(),
        out@.len() == s@.len(),
{
    let mut out: Vec<K> = Vec::new();
    for k in it: s.iter()
        invariant
            obeys_key_model::<K>(),
            out@ == it.seq().unref().take(it.index()),
    {
        out.push(*k);
    }
    proof {
        assert(out@ == s.iter().remaining().unref());
    }
    out
}

/// The keys of `m`, each exactly once, in the order the map yields them.
pub(crate) fn map_keys<K: Copy + Eq + Hash, V>(m: &HashMap<K, V>) -> (out: Vec<K>)
    requires
        obeys_key_model::<K>(),
    ensures
        out@.to_set() == m@.dom(),
        out@.no_duplicates(),
        out@.len() == m@.dom().len(),
{
    let mut out: Vec<K> = Vec::new();
    for k in it: m.keys()
        invariant
            obeys_key_model::<K>(),
            out@ == it.seq().unref().take(it.index()),
    {
        out.push(*k);
    }
    proof {
        assert(out@ == m.keys().remaining().unref());
    }
    out
}

/// The items of `v` from the last to the first.
pub(crate) fn reversed<T: Copy>(v: &Vec<T>) -> (out: Vec<T>)
    ensures
        out@ == v@.reverse(),
{
    let mut out: Vec<T> = Vec::new();
    let mut i: usize = v.len();
    while i > 0
        invariant
            i <= v.len(),
            out@.len() == v.len() - i,
            forall|k: int| 0 <= k < out@.len() ==> out@[k] == v@[v.len() - 1 - k],
        decreases i,
    {
        i -= 1;
        out.push(v[i]);
    }
    out
}

/// The set of the items of `v`.
pub(crate) fn collect<K: Copy + Eq + Hash>(v: &Vec<K>) -> (out: HashSet<K>)
    requires
        obeys_key_model::<K>(),
    ensures
        out@ == v@.to_set(),
{
    let mut out: HashSet<K> = HashSet::new();
    let mut i: usize = 0;
    while i < v.len()
        invariant
            obeys_key_model::<K>(),
            i <= v.len(),
            out@ == v@.take(i as int).to_set(),
        decreases v.len() - i,
    {
        proof {
            assert(v@.take(i + 1) == v@.take(i as int).push(v@[i as int]));
            v@.take(i as int).lemma_push_to_set_commute(v@[i as int]);
        }
        out.insert(v[i]);
        i += 1;
    }
    proof {
        assert(v@.take(i as int) == v@);
    }
    out
}

} // verus!
