//! The keys of a `BTreeMap` in increasing order.

use vstd::prelude::*;
use std::collections::BTreeMap;
use vstd::std_specs::iter::IteratorSpec;
use vstd::std_specs::cmp::OrdSpec;

verus! {

broadcast use {vstd::std_specs::btree::group_btree_axioms, vstd::laws_cmp::group_laws_cmp};

/// `s[i]` comes before `s[j]` in the order of `K`.
pub open spec fn less_at<K: Ord>(s: Seq<K>, i: int, j: int) -> bool {
    s[i].cmp_spec(&s[j]) is Less
}

pub proof fn lemma_increasing_keys(all: Seq<&u64>)
    requires
        vstd::std_specs::btree::increasing_seq(all),
    ensures
        forall|i: int, j: int| 0 <= i < j < all.len() ==> *all[i] < *all[j],
{
    assert(vstd::laws_cmp::obeys_cmp::<&u64>());
    vstd::std_specs::btree::axiom_increasing_seq_meaning::<&u64>(all);
    assert forall|i: int, j: int| 0 <= i < j < all.len() implies *all[i] < *all[j] by {
        assert(less_at(all, i, j));
    }
}

/// `keys` holds the elements of `dom`, each once, in increasing order.
pub open spec fn increasing_keys(keys: Seq<u64>, dom: Set<u64>) -> bool {
    &&& keys.to_set() == dom
    &&& keys.no_duplicates()
    &&& forall|i: int, j: int| 0 <= i < j < keys.len() ==> keys[i] < keys[j]
}

/// The keys of the map, each once, in increasing order.
pub fn sorted_keys<V>(m: &BTreeMap<u64, V>) -> (keys: Vec<u64>)
    ensures
        increasing_keys(keys@, m@.dom()),
{
    let mut keys: Vec<u64> = Vec::new();
    let ghost all = vstd::std_specs::btree::spec_keys_iter(m).remaining();
    for k in it: m.keys()
        invariant
            it.seq() == all,
            keys@ == it.seq().take(it.index() as int).map_values(|k: &u64| *k),
    {
        keys.push(*k);
    }
    proof {
        assert(keys@ =~= all.map_values(|k: &u64| *k));
        assert(keys@ =~= all.unref());
        assert(all.unref().to_set() == m@.dom());
        assert(vstd::std_specs::btree::increasing_seq(all));
        lemma_increasing_keys(all);
    }
    keys
}

/// The smallest key of the map, if any.
pub fn first_key<V>(m: &BTreeMap<u64, V>) -> (first: Option<u64>)
    ensures
        first is None <==> m@.dom().is_empty(),
        first matches Some(k) ==> m@.contains_key(k) && forall|j: u64| #[trigger] m@.contains_key(j) ==> k <= j,
{
    let ghost all = vstd::std_specs::btree::spec_keys_iter(m).remaining();
    proof {
        assert(all.unref().to_set() == m@.dom());
        lemma_increasing_keys(all);
    }
    let mut first: Option<u64> = None;
    for k in it: m.keys()
        invariant
            it.seq() == all,
            (first is None && it.index() == 0) || (all.len() > 0 && first == Some(*all[0])),
        ensures
            first is None ==> all.len() == 0,
            first matches Some(x) ==> all.len() > 0 && x == *all[0],
    {
        if first.is_none() {
            first = Some(*k);
        }
        break;
    }
    proof {
        if let Some(k) = first {
            assert(all.unref()[0] == k);
            assert(m@.dom().contains(k));
            assert forall|j: u64| #[trigger] m@.contains_key(j) implies k <= j by {
                assert(all.unref().to_set().contains(j));
                let i = choose|i: int| 0 <= i < all.unref().len() && all.unref()[i] == j;
                if i > 0 {
                    assert(*all[0] < *all[i]);
                }
            }
        } else {
            assert(all.unref() =~= Seq::<u64>::empty());
            assert(m@.dom() =~= Set::<u64>::empty());
        }
    }
    first
}

} // verus!
