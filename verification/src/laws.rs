//! What holds of successive operations on a heap.
//!
//! Each law speaks of the entries of a heap before and after an operation,
//! in the terms in which the operation's own contract describes them.

use vstd::prelude::*;
use crate::bag::{bag, lemma_bag_contains, lemma_bag_insert, lemma_bag_remove};
use crate::fibheap::{
    after_decrease_key,
    decrease_key_outcome,
    delete_outcome,
    is_min_entry,
    pop_step,
    push_step,
    Handle,
    HeapError,
};
use crate::order::{sorted, TotalOrder};

verus! {

/// Pushes add up: after the values of `values` have been pushed one by
/// one, the heap has that many entries more, and its values are those
/// it had and the pushed ones. A heap that was empty then has as many
/// entries as values were pushed.
pub proof fn lemma_pushes<T>(states: Seq<Map<Handle, T>>, values: Seq<T>)
    requires
        states.len() == values.len() + 1,
        states[0].dom().finite(),
        forall|i: int|
            0 <= i < values.len() ==> push_step(states[i], states[i + 1], #[trigger] values[i]),
    ensures
        states.last().dom().finite(),
        states.last().dom().len() == states[0].dom().len() + values.len(),
        bag(states.last()) == bag(states[0]).add(values.to_multiset()),
    decreases values.len(),
{
    broadcast use vstd::multiset::group_multiset_axioms;
    broadcast use vstd::seq_lib::group_to_multiset_ensures;

    if values.len() == 0 {
        assert(values.to_multiset().len() == 0);
        assert(bag(states[0]).add(values.to_multiset()) =~= bag(states[0]));
    } else {
        let n = values.len() - 1;
        let earlier = states.drop_last();
        let pushed = values.drop_last();
        assert forall|i: int| 0 <= i < pushed.len() implies push_step(
            earlier[i],
            earlier[i + 1],
            #[trigger] pushed[i],
        ) by {
            assert(push_step(states[i], states[i + 1], values[i]));
        }
        lemma_pushes(earlier, pushed);
        assert(push_step(states[n], states[n + 1], values[n]));
        let h = choose|h: Handle|
            !states[n].dom().contains(h) && states[n + 1] == states[n].insert(h, values[n]);
        lemma_bag_insert(states[n], h, values[n]);
        assert(values =~= pushed.push(values[n]));
        assert(bag(states.last()) =~= bag(states[0]).add(values.to_multiset()));
    }
}

/// Pops come out in order: the values that successive pops return are
/// sorted, each pop takes one entry away, and the values the heap had are
/// those it still has and the popped ones.
pub proof fn lemma_pops<T: TotalOrder>(states: Seq<Map<Handle, T>>, out: Seq<T>)
    requires
        states.len() == out.len() + 1,
        states[0].dom().finite(),
        forall|i: int| 0 <= i < out.len() ==> pop_step(states[i], states[i + 1], #[trigger] out[i]),
    ensures
        sorted(out),
        states.last().dom().finite(),
        states.last().dom().len() + out.len() == states[0].dom().len(),
        bag(states[0]) == bag(states.last()).add(out.to_multiset()),
    decreases out.len(),
{
    broadcast use vstd::multiset::group_multiset_axioms;
    broadcast use vstd::seq_lib::group_to_multiset_ensures;

    if out.len() == 0 {
        assert(out.to_multiset().len() == 0);
        assert(bag(states.last()).add(out.to_multiset()) =~= bag(states[0]));
    } else {
        assert(pop_step(states[0], states[1], out[0]));
        let h = choose|h: Handle|
            is_min_entry(states[0], h) && out[0] == states[0][h] && states[1] == states[0].remove(
                h,
            );
        let later = states.drop_first();
        let rest = out.drop_first();
        assert forall|i: int| 0 <= i < rest.len() implies pop_step(
            later[i],
            later[i + 1],
            #[trigger] rest[i],
        ) by {
            assert(pop_step(states[i + 1], states[i + 2], out[i + 1]));
        }
        lemma_pops(later, rest);
        lemma_bag_remove(states[0], h);
        assert(out.remove(0) =~= rest);
        assert(out.contains(out[0]));
        assert(out.to_multiset() =~= rest.to_multiset().insert(out[0]));
        assert(bag(states[0]) =~= bag(states.last()).add(out.to_multiset()));
        assert forall|i: int, j: int| 0 <= i <= j < out.len() implies out[i].le(out[j]) by {
            if i == 0 {
                if j == 0 {
                    T::le_total(out[0], out[0]);
                } else {
                    assert(rest[j - 1] == out[j]);
                    assert(rest.contains(out[j]));
                    assert(bag(states[1]).contains(out[j]));
                    lemma_bag_contains(states[1], out[j]);
                    let k = choose|k: Handle| states[1].dom().contains(k) && states[1][k] == out[j];
                    assert(states[0].dom().contains(k));
                }
            } else {
                assert(rest[i - 1].le(rest[j - 1]));
            }
        }
    }
}

/// A heap sorts: when values are pushed into an empty heap and the heap is
/// then popped until it is empty, the popped values are the pushed values
/// in sorted order.
pub proof fn lemma_heap_sort<T: TotalOrder>(
    values: Seq<T>,
    filling: Seq<Map<Handle, T>>,
    draining: Seq<Map<Handle, T>>,
    out: Seq<T>,
)
    requires
        filling.len() == values.len() + 1,
        filling[0] == Map::<Handle, T>::empty(),
        forall|i: int|
            0 <= i < values.len() ==> push_step(filling[i], filling[i + 1], #[trigger] values[i]),
        draining.len() == out.len() + 1,
        draining[0] == filling.last(),
        forall|i: int|
            0 <= i < out.len() ==> pop_step(draining[i], draining[i + 1], #[trigger] out[i]),
        draining.last() == Map::<Handle, T>::empty(),
    ensures
        sorted(out),
        out.len() == values.len(),
        out.to_multiset() == values.to_multiset(),
{
    broadcast use vstd::multiset::group_multiset_axioms;

    lemma_pushes(filling, values);
    lemma_pops(draining, out);
    crate::bag::lemma_bag_empty::<Handle, T>();
    let none = bag(Map::<Handle, T>::empty());
    assert(none.add(out.to_multiset()) =~= out.to_multiset());
    assert(none.add(values.to_multiset()) =~= values.to_multiset());
    vstd::seq_lib::to_multiset_len(out);
    vstd::seq_lib::to_multiset_len(values);
}

/// A key that was lowered cannot be raised again: once the value of `h`
/// has been lowered to `v`, a request to set it to a `w` that `v` strictly
/// precedes is rejected as an increase and leaves the entries as they are.
pub proof fn lemma_increase_after_decrease_rejected<T: TotalOrder>(
    m: Map<Handle, T>,
    h: Handle,
    v: T,
    w: T,
)
    requires
        decrease_key_outcome(m, h, v) is Ok,
        !w.le(v),
    ensures
        decrease_key_outcome(after_decrease_key(m, h, v), h, w) == Err::<(), HeapError>(
            HeapError::InvalidKeyIncrease,
        ),
        after_decrease_key(after_decrease_key(m, h, v), h, w) == after_decrease_key(m, h, v),
{
}

/// A deleted value is gone: when the entry of `h` has been deleted and
/// the heap is then popped until it is empty, the popped values are sorted
/// and are the values the heap had, less one occurrence of the deleted one.
pub proof fn lemma_delete_then_drain<T: TotalOrder>(
    m: Map<Handle, T>,
    h: Handle,
    draining: Seq<Map<Handle, T>>,
    out: Seq<T>,
)
    requires
        m.dom().finite(),
        delete_outcome(m, h) is Ok,
        draining.len() == out.len() + 1,
        draining[0] == m.remove(h),
        forall|i: int|
            0 <= i < out.len() ==> pop_step(draining[i], draining[i + 1], #[trigger] out[i]),
        draining.last() == Map::<Handle, T>::empty(),
    ensures
        sorted(out),
        out.len() + 1 == m.dom().len(),
        out.to_multiset() == bag(m).remove(m[h]),
{
    broadcast use vstd::multiset::group_multiset_axioms;

    lemma_pops(draining, out);
    lemma_bag_remove(m, h);
    crate::bag::lemma_bag_empty::<Handle, T>();
    let none = bag(Map::<Handle, T>::empty());
    assert(none.add(out.to_multiset()) =~= out.to_multiset());
}

} // verus!
