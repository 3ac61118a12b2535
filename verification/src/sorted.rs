//! The keys of sorted maps and sets, in their order.

use std::collections::{BTreeMap, BTreeSet};

use vstd::prelude::*;

verus! {

/// The keys of a map by price, in ascending order.
pub fn prices<V>(map: &BTreeMap<i64, V>) -> (keys: Vec<i64>)
    ensures
        forall|i: int, j: int| 0 <= i < j < keys@.len() ==> keys@[i] < keys@[j],
        keys@.to_set() == map@.dom(),
{
    let mut keys: Vec<i64> = Vec::new();
    let iter = map.iter();
    let ghost entries = vstd::std_specs::iter::IteratorSpec::remaining(&iter);
    for entry in it: iter
        invariant
            keys@.len() == it.index(),
            forall|i: int| 0 <= i < keys@.len() ==> keys@[i] == *it.seq()[i].0,
            it.seq() == entries,
    {
        keys.push(*entry.0);
    }
    proof {
        assert(keys@ =~= entries.map_values(|kv: (&i64, &V)| *kv.0));
        assert(vstd::std_specs::btree::increasing_seq(keys@));
        assert forall|i: int, j: int| 0 <= i < j < keys@.len() implies keys@[i] < keys@[j] by {
            assert(vstd::std_specs::cmp::OrdSpec::cmp_spec(&keys@[i], &keys@[j]) is Less);
        }
        assert forall|k: i64| keys@.to_set().contains(k) <==> map@.dom().contains(k) by {
            if map@.contains_key(k) {
                assert(entries.contains((&k, &map@[k])));
                let i = choose|i: int| 0 <= i < entries.len() && entries[i] == (&k, &map@[k]);
                assert(keys@[i] == k);
            }
            if keys@.contains(k) {
                let i = choose|i: int| 0 <= i < keys@.len() && keys@[i] == k;
                assert(map@.contains_key(*entries[i].0));
            }
        }
        assert(keys@.to_set() =~= map@.dom());
    }
    keys
}

/// The keys of a map by identifier, in ascending order.
pub fn identifiers<V>(map: &BTreeMap<u64, V>) -> (keys: Vec<u64>)
    ensures
        forall|i: int, j: int| 0 <= i < j < keys@.len() ==> keys@[i] < keys@[j],
        keys@.to_set() == map@.dom(),
{
    let mut keys: Vec<u64> = Vec::new();
    let iter = map.iter();
    let ghost entries = vstd::std_specs::iter::IteratorSpec::remaining(&iter);
    for entry in it: iter
        invariant
            keys@.len() == it.index(),
            forall|i: int| 0 <= i < keys@.len() ==> keys@[i] == *it.seq()[i].0,
            it.seq() == entries,
    {
        keys.push(*entry.0);
    }
    proof {
        assert(keys@ =~= entries.map_values(|kv: (&u64, &V)| *kv.0));
        assert(vstd::std_specs::btree::increasing_seq(keys@));
        assert forall|i: int, j: int| 0 <= i < j < keys@.len() implies keys@[i] < keys@[j] by {
            assert(vstd::std_specs::cmp::OrdSpec::cmp_spec(&keys@[i], &keys@[j]) is Less);
        }
        assert forall|k: u64| keys@.to_set().contains(k) <==> map@.dom().contains(k) by {
            if map@.contains_key(k) {
                assert(entries.contains((&k, &map@[k])));
                let i = choose|i: int| 0 <= i < entries.len() && entries[i] == (&k, &map@[k]);
                assert(keys@[i] == k);
            }
            if keys@.contains(k) {
                let i = choose|i: int| 0 <= i < keys@.len() && keys@[i] == k;
                assert(map@.contains_key(*entries[i].0));
            }
        }
        assert(keys@.to_set() =~= map@.dom());
    }
    keys
}

/// The elements of a set of identifiers, in ascending order.
pub fn elements(set: &BTreeSet<u64>) -> (keys: Vec<u64>)
    ensures
        forall|i: int, j: int| 0 <= i < j < keys@.len() ==> keys@[i] < keys@[j],
        keys@.to_set() == set@,
{
    let mut keys: Vec<u64> = Vec::new();
    let iter = set.iter();
    let ghost entries = vstd::std_specs::iter::IteratorSpec::remaining(&iter);
    for key in it: iter
        invariant
            keys@.len() == it.index(),
            forall|i: int| 0 <= i < keys@.len() ==> keys@[i] == *it.seq()[i],
            it.seq() == entries,
    {
        keys.push(*key);
    }
    proof {
        assert(vstd::laws_cmp::obeys_cmp::<&u64>());
        assert(keys@ =~= entries.unref());
        assert forall|i: int, j: int| 0 <= i < j < keys@.len() implies keys@[i] < keys@[j] by {
            assert(vstd::std_specs::cmp::OrdSpec::cmp_spec(&entries[i], &entries[j]) is Less);
        }
    }
    keys
}

} // verus!
