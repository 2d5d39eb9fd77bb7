//! Walking over sets and maps keyed by integers.

use std::collections::{BTreeSet, HashMap};
use std::hash::Hash;

use vstd::prelude::*;
use vstd::std_specs::iter::IteratorSpec;

verus! {

broadcast use {
    vstd::std_specs::btree::group_btree_axioms,
    vstd::std_specs::hash::group_hash_axioms,
    vstd::laws_cmp::group_laws_cmp,
};

/// The members of a set.
pub fn members(s: &BTreeSet<u64>) -> (v: Vec<u64>)
    ensures
        forall|t: u64| s@.contains(t) <==> v@.contains(t),
{
    let mut v: Vec<u64> = Vec::new();
    let keys = s.iter();
    let ghost all = keys.remaining().unref();
    for x in it: keys
        invariant
            it.seq().unref() == all,
            v@ == all.take(it.index()),
            all.to_set() == s@,
    {
        v.push(*x);
    }
    assert(v@ =~= all);
    assert forall|t: u64| s@.contains(t) <==> v@.contains(t) by {
        assert(all.to_set().contains(t) <==> all.contains(t));
    }
    v
}

/// The keys of a map, each once.
pub fn map_keys<K: Copy + Eq + Hash, V>(m: &HashMap<K, V>) -> (v: Vec<K>)
    requires
        vstd::std_specs::hash::obeys_key_model::<K>(),
    ensures
        forall|k: K| m@.dom().contains(k) <==> v@.contains(k),
        v@.no_duplicates(),
{
    let mut v: Vec<K> = Vec::new();
    let keys = m.keys();
    let ghost all = keys.remaining().unref();
    for x in it: keys
        invariant
            it.seq().unref() == all,
            v@ == all.take(it.index()),
            all.to_set() == m@.dom(),
            all.no_duplicates(),
    {
        v.push(*x);
    }
    assert(v@ =~= all);
    assert forall|k: K| m@.dom().contains(k) <==> v@.contains(k) by {
        assert(all.to_set().contains(k) <==> all.contains(k));
    }
    v
}

} // verus!
