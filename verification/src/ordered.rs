//! Walking integer-keyed maps in key order.

use crate::content::{increasing, lemma_increasing_is_determined};
use std::collections::BTreeMap;
use vstd::prelude::*;
use vstd::std_specs::cmp::OrdSpec;
use vstd::std_specs::iter::IteratorSpec;

verus! {

/// Whether `keys` lists the members of `set` in increasing order.
pub open spec fn enumerates(keys: Seq<u64>, set: Set<u64>) -> bool {
    &&& increasing(keys)
    &&& forall|key: u64| #[trigger] keys.contains(key) <==> set.contains(key)
}

/// The members of a finite set in increasing order.
pub open spec fn in_order(set: Set<u64>) -> Seq<u64> {
    choose|keys: Seq<u64>| enumerates(keys, set)
}

/// A set has only one listing in increasing order.
pub proof fn lemma_in_order(keys: Seq<u64>, set: Set<u64>)
    requires
        enumerates(keys, set),
    ensures
        in_order(set) == keys,
{
    let other = in_order(set);
    assert(enumerates(other, set));
    assert forall|i: int| 0 <= i < keys.len() implies #[trigger] other.contains(keys[i]) by {
        assert(keys.contains(keys[i]));
        assert(set.contains(keys[i]));
    }
    assert forall|i: int| 0 <= i < other.len() implies #[trigger] keys.contains(other[i]) by {
        assert(other.contains(other[i]));
        assert(set.contains(other[i]));
    }
    lemma_increasing_is_determined(other, keys);
}

/// A listing in increasing order has as many entries as the set.
pub proof fn lemma_listing_length(keys: Seq<u64>, set: Set<u64>)
    requires
        enumerates(keys, set),
    ensures
        set.finite(),
        keys.len() == set.len(),
{
    assert(keys.no_duplicates()) by {
        assert forall|i: int, j: int|
            0 <= i < keys.len() && 0 <= j < keys.len() && i != j implies keys[i] != keys[j] by {
            if i < j {
                assert(keys[i] < keys[j]);
            } else {
                assert(keys[j] < keys[i]);
            }
        }
    }
    keys.unique_seq_to_set();
    assert(keys.to_set() =~= set);
}

/// Every finite set has a listing in increasing order.
pub proof fn lemma_enumerable(set: Set<u64>)
    requires
        set.finite(),
    ensures
        enumerates(in_order(set), set),
    decreases set.len(),
{
    if set.len() == 0 {
        assert(set =~= Set::empty());
        assert(enumerates(Seq::<u64>::empty(), set));
    } else {
        let top = lemma_has_greatest(set);
        let rest = set.remove(top);
        lemma_enumerable(rest);
        let shorter = in_order(rest);
        let keys = shorter.push(top);
        assert(increasing(keys)) by {
            assert forall|i: int, j: int|
                #![trigger keys[i], keys[j]]
                0 <= i < j < keys.len() implies keys[i] < keys[j] by {
                if j < shorter.len() {
                    assert(shorter[i] < shorter[j]);
                } else {
                    assert(shorter.contains(shorter[i]));
                    assert(rest.contains(shorter[i]));
                }
            }
        }
        assert forall|key: u64| #[trigger] keys.contains(key) <==> set.contains(key) by {
            if keys.contains(key) {
                let i = choose|i: int| 0 <= i < keys.len() && keys[i] == key;
                if i < shorter.len() {
                    assert(shorter.contains(shorter[i]));
                }
            }
            if set.contains(key) {
                if key == top {
                    assert(keys[shorter.len() as int] == key);
                } else {
                    assert(rest.contains(key));
                    assert(shorter.contains(key));
                    let i = choose|i: int| 0 <= i < shorter.len() && shorter[i] == key;
                    assert(keys[i] == key);
                }
            }
        }
        assert(enumerates(keys, set));
    }
}

proof fn lemma_has_greatest(set: Set<u64>) -> (top: u64)
    requires
        set.finite(),
        set.len() > 0,
    ensures
        set.contains(top),
        forall|key: u64| #[trigger] set.contains(key) ==> key <= top,
    decreases set.len(),
{
    let some = set.choose();
    let rest = set.remove(some);
    if rest.len() == 0 {
        assert forall|key: u64| #[trigger] set.contains(key) implies key <= some by {
            if key != some {
                assert(rest.contains(key));
                vstd::set_lib::lemma_set_empty_equivalency_len(rest);
            }
        }
        some
    } else {
        let top = lemma_has_greatest(rest);
        let best = if top < some {
            some
        } else {
            top
        };
        assert forall|key: u64| #[trigger] set.contains(key) implies key <= best by {
            if key != some {
                assert(rest.contains(key));
            }
        }
        best
    }
}

/// Returns the keys of a map in increasing order.
pub fn keys_of<V>(map: &BTreeMap<u64, V>) -> (keys: Vec<u64>)
    ensures
        enumerates(keys@, map@.dom()),
        keys@ == in_order(map@.dom()),
        keys@.len() == map@.dom().len(),
{
    broadcast use vstd::laws_cmp::group_laws_cmp;

    let mut keys: Vec<u64> = Vec::new();
    for key in iter: map.keys()
        invariant
            keys@.len() == iter.index(),
            forall|i: int| 0 <= i < keys@.len() ==> keys@[i] == *iter.seq()[i],
    {
        keys.push(*key);
    }
    proof {
        let listed = vstd::std_specs::btree::spec_keys_iter(map).remaining();
        assert(listed.unref() =~= keys@);
        assert(vstd::std_specs::btree::increasing_seq(listed));
        assert(vstd::laws_cmp::obeys_cmp::<&u64>());
        assert forall|i: int, j: int|
            #![trigger keys@[i], keys@[j]]
            0 <= i < j < keys@.len() implies keys@[i] < keys@[j] by {
            assert(OrdSpec::cmp_spec(&listed[i], &listed[j]) is Less);
        }
        assert forall|key: u64| #[trigger] keys@.contains(key) <==> map@.dom().contains(key) by {
            assert(keys@.to_set().contains(key) <==> map@.dom().contains(key));
        }
        lemma_in_order(keys@, map@.dom());
    }
    keys
}

} // verus!
