//! The values of a finite map, counted as often as they occur.

use vstd::prelude::*;
use vstd::multiset::Multiset;

verus! {

/// The multiset of the values of `m`: a value that `n` keys hold occurs
/// `n` times.
pub open spec fn bag<K, V>(m: Map<K, V>) -> Multiset<V>
    decreases m.dom().len(),
    when m.dom().finite()
{
    if m.dom().len() == 0 {
        Multiset::empty()
    } else {
        let k = m.dom().choose();
        bag(m.remove(k)).insert(m[k])
    }
}

/// The empty map has no values.
pub proof fn lemma_bag_empty<K, V>()
    ensures
        bag(Map::<K, V>::empty()) == Multiset::<V>::empty(),
{
    assert(Map::<K, V>::empty().dom().len() == 0);
}

/// Taking the entry of `k` out of `m` takes one occurrence of its value
/// out of the bag.
pub proof fn lemma_bag_remove<K, V>(m: Map<K, V>, k: K)
    requires
        m.dom().finite(),
        m.dom().contains(k),
    ensures
        bag(m) == bag(m.remove(k)).insert(m[k]),
        bag(m.remove(k)) == bag(m).remove(m[k]),
        bag(m).contains(m[k]),
    decreases m.dom().len(),
{
    broadcast use vstd::multiset::group_multiset_axioms;

    let c = m.dom().choose();
    if c != k {
        lemma_bag_remove(m.remove(c), k);
        lemma_bag_remove(m.remove(k), c);
        assert(m.remove(c).remove(k) =~= m.remove(k).remove(c));
        assert(bag(m) =~= bag(m.remove(k)).insert(m[k]));
    }
    assert(bag(m.remove(k)).insert(m[k]).remove(m[k]) =~= bag(m.remove(k)));
}

/// A new entry adds one occurrence of its value to the bag.
pub proof fn lemma_bag_insert<K, V>(m: Map<K, V>, k: K, v: V)
    requires
        m.dom().finite(),
        !m.dom().contains(k),
    ensures
        bag(m.insert(k, v)) == bag(m).insert(v),
{
    lemma_bag_remove(m.insert(k, v), k);
    assert(m.insert(k, v).remove(k) =~= m);
}

/// Giving the entry of `k` a new value exchanges one occurrence of the old
/// value for one of the new.
pub proof fn lemma_bag_update<K, V>(m: Map<K, V>, k: K, v: V)
    requires
        m.dom().finite(),
        m.dom().contains(k),
    ensures
        bag(m.insert(k, v)) == bag(m).remove(m[k]).insert(v),
{
    lemma_bag_remove(m, k);
    lemma_bag_remove(m.insert(k, v), k);
    assert(m.insert(k, v).remove(k) =~= m.remove(k));
}

/// The bag has one element for each entry.
pub proof fn lemma_bag_len<K, V>(m: Map<K, V>)
    requires
        m.dom().finite(),
    ensures
        bag(m).len() == m.dom().len(),
    decreases m.dom().len(),
{
    broadcast use vstd::multiset::group_multiset_axioms;

    if m.dom().len() != 0 {
        let k = m.dom().choose();
        lemma_bag_len(m.remove(k));
    }
}

/// What the bag contains is what some key holds.
pub proof fn lemma_bag_contains<K, V>(m: Map<K, V>, v: V)
    requires
        m.dom().finite(),
    ensures
        bag(m).contains(v) <==> exists|k: K| m.dom().contains(k) && m[k] == v,
    decreases m.dom().len(),
{
    broadcast use vstd::multiset::group_multiset_axioms;

    if m.dom().len() != 0 {
        let c = m.dom().choose();
        lemma_bag_contains(m.remove(c), v);
        if bag(m).contains(v) && m[c] != v {
            let k = choose|k: K| m.remove(c).dom().contains(k) && m.remove(c)[k] == v;
            assert(m.dom().contains(k) && m[k] == v);
        }
        if exists|k: K| m.dom().contains(k) && m[k] == v {
            let k = choose|k: K| m.dom().contains(k) && m[k] == v;
            if k != c {
                assert(m.remove(c).dom().contains(k) && m.remove(c)[k] == v);
            }
        }
    } else {
        assert(forall|k: K| !m.dom().contains(k)) by {
            m.dom().lemma_len0_is_empty();
        }
    }
}

} // verus!
