//! A mergeable priority queue of the Fibonacci-heap family.
//!
//! Nodes live in an arena of slots and refer to each other by slot index.
//! A caller keeps a [`Handle`] to a node it pushed and may later lower the
//! node's key or delete it. A handle names its slot and the generation of
//! the slot's occupant, so a handle whose node is gone is recognised and
//! rejected instead of reaching whatever occupies the slot next.
//!
//! The abstract state of a heap is the map from its live handles to their
//! values (`heap@`), the set of handles it has ever issued, and the handle
//! that is currently designated as holding a least value.

use vstd::prelude::*;
use crate::bag::{bag, lemma_bag_insert, lemma_bag_len, lemma_bag_remove, lemma_bag_update};
use crate::order::TotalOrder;

verus! {

/// A stable reference to one node of a heap, valid until the node is removed.
#[derive(Clone, Copy, Debug, PartialEq, Eq, Hash, Structural)]
pub struct Handle {
    index: usize,
    generation: u64,
}

/// Why an operation addressed to a node was rejected.
#[derive(Clone, Copy, Debug, PartialEq, Eq, Structural)]
pub enum HeapError {
    /// The new key is greater than the key the node holds.
    InvalidKeyIncrease,
    /// The handle's node has been removed, or was never part of this heap.
    InvalidHandle,
}

struct Node<T> {
    value: T,
    /// The slot of the parent; `None` for a root.
    parent: Option<usize>,
    /// The slots of the children, in no particular order.
    children: Vec<usize>,
    /// Where this node stands in the list that owns it: the parent's
    /// `children`, or the heap's `roots`.
    pos: usize,
    /// Set on a non-root that lost a child since it was last attached.
    mark: bool,
}

struct Slot<T> {
    /// Generation of the current occupant, or of the next one if vacant.
    generation: u64,
    node: Option<Node<T>>,
}

/// A Fibonacci heap whose least element is found in constant time.
pub struct FibHeap<T> {
    slots: Vec<Slot<T>>,
    /// Vacant slots that may be occupied again.
    free: Vec<usize>,
    roots: Vec<usize>,
    /// The root designated as holding a least value.
    min: Option<usize>,
    len: usize,
    /// A strictly larger number for a parent than for each of its children.
    height: Ghost<Seq<nat>>,
    /// Exceeds the height of every live node.
    ceiling: Ghost<nat>,
}

/// `h` is an entry of `m` whose value precedes every value of `m`.
pub open spec fn is_min_entry<T: TotalOrder>(m: Map<Handle, T>, h: Handle) -> bool {
    &&& m.dom().contains(h)
    &&& forall|k: Handle| #[trigger] m.dom().contains(k) ==> m[h].le(m[k])
}

/// `v` is a value of `m` that precedes every value of `m`.
pub open spec fn is_minimum<T: TotalOrder>(m: Map<Handle, T>, v: T) -> bool {
    exists|h: Handle| is_min_entry(m, h) && m[h] == v
}

/// `post` is `pre` with one more entry, which holds `v`.
pub open spec fn push_step<T>(pre: Map<Handle, T>, post: Map<Handle, T>, v: T) -> bool {
    exists|h: Handle| !pre.dom().contains(h) && post == pre.insert(h, v)
}

/// `post` is `pre` without one of its least entries, which held `v`.
pub open spec fn pop_step<T: TotalOrder>(pre: Map<Handle, T>, post: Map<Handle, T>, v: T) -> bool {
    exists|h: Handle| is_min_entry(pre, h) && v == pre[h] && post == pre.remove(h)
}

/// How a request to lower the value of `h` to `v` ends on the entries `m`.
pub open spec fn decrease_key_outcome<T: TotalOrder>(m: Map<Handle, T>, h: Handle, v: T) -> Result<
    (),
    HeapError,
> {
    if !m.dom().contains(h) {
        Err(HeapError::InvalidHandle)
    } else if !v.le(m[h]) {
        Err(HeapError::InvalidKeyIncrease)
    } else {
        Ok(())
    }
}

/// The entries after a request to lower the value of `h` to `v`: changed
/// only if the request succeeds.
pub open spec fn after_decrease_key<T: TotalOrder>(m: Map<Handle, T>, h: Handle, v: T) -> Map<
    Handle,
    T,
> {
    if decrease_key_outcome(m, h, v) is Ok {
        m.insert(h, v)
    } else {
        m
    }
}

/// How a request to delete the entry of `h` ends on the entries `m`.
pub open spec fn delete_outcome<T>(m: Map<Handle, T>, h: Handle) -> Result<T, HeapError> {
    if m.dom().contains(h) {
        Ok(m[h])
    } else {
        Err(HeapError::InvalidHandle)
    }
}

/// The lesser of two optional values, where an absent value constrains
/// nothing. Of two equal values the second is taken.
pub open spec fn least_of<T: TotalOrder>(a: Option<T>, b: Option<T>) -> Option<T> {
    match (a, b) {
        (Some(x), Some(y)) => if y.le(x) {
            b
        } else {
            a
        },
        (Some(_), None) => a,
        (None, _) => b,
    }
}

/// `merged` holds the entries of `first` under their own handles and the
/// entries of `second` under their handles rebased by `by`, and nothing
/// else.
pub open spec fn is_union_of<T>(
    merged: Map<Handle, T>,
    first: Map<Handle, T>,
    second: Map<Handle, T>,
    by: nat,
) -> bool {
    &&& forall|h: Handle| #[trigger]
        first.dom().contains(h) ==> merged.dom().contains(h) && merged[h] == first[h]
    &&& forall|h: Handle| #[trigger]
        second.dom().contains(h) ==> !first.dom().contains(h.rebased(by)) && merged.dom().contains(
            h.rebased(by),
        ) && merged[h.rebased(by)] == second[h]
    &&& forall|k: Handle| #[trigger]
        merged.dom().contains(k) ==> first.dom().contains(k) || exists|h: Handle|
            second.dom().contains(h) && h.rebased(by) == k
}

impl Handle {
    /// The handle that stands for `self` once the heap that issued it has
    /// been the second argument of a union with a heap of span `by`.
    pub closed spec fn rebased(self, by: nat) -> Handle {
        Handle { index: (self.index + by) as usize, generation: self.generation }
    }

    /// Computes `rebased`; `None` if no heap can hold the result.
    pub fn rebase(self, by: usize) -> (r: Option<Handle>)
        ensures
            r matches Some(h) ==> h == self.rebased(by as nat),
            r is Some <==> self.slot() + by <= usize::MAX,
    {
        if by <= usize::MAX - self.index {
            Some(Handle { index: self.index + by, generation: self.generation })
        } else {
            None
        }
    }

    /// The number of the slot that the handle names.
    pub closed spec fn slot(self) -> nat {
        self.index as nat
    }
}

impl<T: TotalOrder> FibHeap<T> {
    /// The live handles of the heap, each with the value of its node.
    pub closed spec fn view(&self) -> Map<Handle, T> {
        Map::new(|h: Handle| self.holds(h), |h: Handle| self.slots@[h.index as int].node->0.value)
    }

    /// Every handle this heap has handed out so far, live or not.
    pub closed spec fn issued(&self) -> Set<Handle> {
        Set::new(
            |h: Handle|
                h.index < self.slots@.len() && (h.generation < self.slots@[h.index as int].generation
                    || self.holds(h)),
        )
    }

    /// The handle of the node that `peek` shows and `pop` removes.
    pub closed spec fn designated(&self) -> Option<Handle> {
        match self.min {
            Some(m) => Some(self.handle_at(m as int)),
            None => None,
        }
    }

    /// The value of the designated node, if there is one.
    pub open spec fn least(&self) -> Option<T> {
        match self.designated() {
            Some(h) => Some(self@[h]),
            None => None,
        }
    }

    /// The number of slots the heap has opened so far. Every handle it
    /// has issued names a slot below this number.
    pub closed spec fn spec_span(&self) -> nat {
        self.slots@.len()
    }

    /// The number of children of each root, in the order of the root list.
    pub closed spec fn root_degrees(&self) -> Seq<nat> {
        Seq::new(self.roots@.len(), |k: int| self.nd(self.roots@[k] as int).children@.len())
    }

    /// The representation invariant, together with the designation of a
    /// least root.
    pub closed spec fn wf(&self) -> bool {
        self.inv() && self.min_ok()
    }

    spec fn holds(&self, h: Handle) -> bool {
        &&& h.index < self.slots@.len()
        &&& self.slots@[h.index as int].node is Some
        &&& self.slots@[h.index as int].generation == h.generation
    }

    spec fn handle_at(&self, i: int) -> Handle {
        Handle { index: i as usize, generation: self.slots@[i].generation }
    }

    spec fn live(&self, i: int) -> bool {
        0 <= i < self.slots@.len() && self.slots@[i].node is Some
    }

    #[verifier::inline]
    spec fn nd(&self, i: int) -> Node<T> {
        self.slots@[i].node->0
    }

    /// What ties node `c` to the list that owns it.
    spec fn link_up_ok(&self, c: int) -> bool {
        let n = self.nd(c);
        match n.parent {
            Some(p) => {
                let pn = self.nd(p as int);
                &&& p < self.slots@.len()
                &&& self.slots@[p as int].node is Some
                &&& n.pos < pn.children@.len()
                &&& pn.children@[n.pos as int] == c
                &&& pn.value.le(n.value)
                &&& self.height@[c] < self.height@[p as int]
            },
            None => {
                &&& n.pos < self.roots@.len()
                &&& self.roots@[n.pos as int] == c
                &&& !n.mark
            },
        }
    }

    /// What ties node `p` to each of its children.
    spec fn link_down_ok(&self, p: int) -> bool {
        forall|k: int|
            0 <= k < self.nd(p).children@.len() ==> {
                let c = #[trigger] self.nd(p).children@[k];
                &&& c < self.slots@.len()
                &&& self.slots@[c as int].node is Some
                &&& self.nd(c as int).parent == Some(p as usize)
                &&& self.nd(c as int).pos == k
            }
    }

    spec fn node_ok(&self, i: int) -> bool {
        &&& self.link_up_ok(i)
        &&& self.link_down_ok(i)
        &&& self.slots@[i].generation < u64::MAX
        &&& self.height@[i] < self.ceiling@
    }

    spec fn roots_ok(&self) -> bool {
        forall|k: int|
            0 <= k < self.roots@.len() ==> {
                let r = #[trigger] self.roots@[k];
                &&& r < self.slots@.len()
                &&& self.slots@[r as int].node is Some
                &&& self.nd(r as int).parent is None
                &&& self.nd(r as int).pos == k
            }
    }

    spec fn free_ok(&self) -> bool {
        &&& forall|k: int|
            0 <= k < self.free@.len() ==> {
                let f = #[trigger] self.free@[k];
                &&& f < self.slots@.len()
                &&& self.slots@[f as int].node is None
                &&& self.slots@[f as int].generation < u64::MAX
            }
        &&& forall|k: int, l: int|
            0 <= k < l < self.free@.len() ==> self.free@[k] != self.free@[l]
    }

    /// Everything but the designation of the minimum.
    spec fn inv(&self) -> bool {
        &&& self.height@.len() == self.slots@.len()
        &&& forall|i: int| #[trigger] self.live(i) ==> self.node_ok(i)
        &&& self.roots_ok()
        &&& self.free_ok()
        &&& self.len + self.free@.len() <= self.slots@.len()
        &&& self@.dom().finite()
        &&& self@.dom().len() == self.len
    }

    /// The designated node is a root that precedes every root.
    spec fn min_ok(&self) -> bool {
        match self.min {
            Some(m) => {
                &&& m < self.slots@.len()
                &&& self.slots@[m as int].node is Some
                &&& self.nd(m as int).parent is None
                &&& forall|k: int|
                    0 <= k < self.roots@.len() ==> self.nd(m as int).value.le(
                        self.nd(#[trigger] self.roots@[k] as int).value,
                    )
            },
            None => self.roots@.len() == 0,
        }
    }

    /// The invariant reads nothing but the forest: two heaps that differ
    /// only in their designation satisfy it together.
    proof fn lemma_inv_frame(&self, other: &Self)
        requires
            self.inv(),
            other.slots@ == self.slots@,
            other.roots@ == self.roots@,
            other.free@ == self.free@,
            other.len == self.len,
            other.height@ == self.height@,
            other.ceiling@ == self.ceiling@,
        ensures
            other.inv(),
            other@ == self@,
            other.issued() == self.issued(),
    {
        assert forall|i: int| #[trigger] other.live(i) implies other.node_ok(i) by {
            assert(self.live(i));
            assert(self.node_ok(i));
        }
        assert(other@ =~= self@);
        assert(other.issued() =~= self.issued());
    }

    /// A heap that keeps the occupants of every slot, with their values,
    /// keeps the entries, the issued handles and the vacant slots.
    proof fn lemma_occupants_kept(&self, other: &Self)
        requires
            self.free_ok(),
            other.free@ == self.free@,
            other.slots@.len() == self.slots@.len(),
            forall|j: int|
                0 <= j < self.slots@.len() ==> {
                    &&& (#[trigger] other.slots@[j]).generation == self.slots@[j].generation
                    &&& other.slots@[j].node is Some == self.slots@[j].node is Some
                    &&& other.nd(j).value == self.nd(j).value
                },
        ensures
            other.free_ok(),
            other@ == self@,
            other.issued() == self.issued(),
    {
        assert forall|x: int| 0 <= x < other.free@.len() implies ({
            let f = #[trigger] other.free@[x];
            &&& f < other.slots@.len()
            &&& other.slots@[f as int].node is None
            &&& other.slots@[f as int].generation < u64::MAX
        }) by {
            let f = self.free@[x];
        }
        assert(other@ =~= self@);
        assert(other.issued() =~= self.issued());
    }

    /// Above every node stands a root whose value precedes the node's.
    proof fn lemma_root_above(&self, i: int) -> (r: int)
        requires
            self.inv(),
            self.live(i),
        ensures
            self.live(r),
            self.nd(r).parent is None,
            self.nd(r).value.le(self.nd(i).value),
        decreases self.ceiling@ - self.height@[i],
    {
        match self.nd(i).parent {
            Some(p) => {
                assert(self.live(p as int));
                let r = self.lemma_root_above(p as int);
                T::le_transitive(self.nd(r).value, self.nd(p as int).value, self.nd(i).value);
                r
            },
            None => {
                T::le_total(self.nd(i).value, self.nd(i).value);
                i
            },
        }
    }

    /// The designated root precedes every node, not only the roots.
    proof fn lemma_min_precedes(&self, i: int)
        requires
            self.inv(),
            self.min_ok(),
            self.live(i),
        ensures
            self.min is Some,
            self.nd(self.min->0 as int).value.le(self.nd(i).value),
    {
        let r = self.lemma_root_above(i);
        assert(self.roots@[self.nd(r).pos as int] == r);
        let m = self.min->0 as int;
        T::le_transitive(self.nd(m).value, self.nd(r).value, self.nd(i).value);
    }

    /// What well-formedness says of the abstract state: the live handles
    /// are finitely many and were all issued, every issued handle names a
    /// slot below the span, and the designated handle, absent exactly when
    /// the heap is empty, holds a least value.
    pub proof fn lemma_wf(&self)
        requires
            self.wf(),
        ensures
            self@.dom().finite(),
            self@.dom().subset_of(self.issued()),
            forall|h: Handle| #[trigger] self.issued().contains(h) ==> h.slot() < self.spec_span(),
            self.spec_span() <= usize::MAX,
            match self.designated() {
                Some(h) => is_min_entry(self@, h),
                None => self@ == Map::<Handle, T>::empty(),
            },
    {
        assert(self.slots.len() <= usize::MAX);
        match self.min {
            Some(m) => {
                let h = self.handle_at(m as int);
                assert(self.holds(h));
                assert forall|k: Handle| #[trigger] self@.dom().contains(k) implies self@[h].le(
                    self@[k],
                ) by {
                    assert(self.live(k.index as int));
                    self.lemma_min_precedes(k.index as int);
                }
            },
            None => {
                assert forall|k: Handle| !self@.dom().contains(k) by {
                    if self@.dom().contains(k) {
                        assert(self.live(k.index as int));
                        let r = self.lemma_root_above(k.index as int);
                    }
                }
                assert(self@ =~= Map::<Handle, T>::empty());
            },
        }
    }

    /// An empty heap that has issued no handle.
    pub fn new() -> (heap: Self)
        ensures
            heap.wf(),
            heap@ == Map::<Handle, T>::empty(),
            heap.issued() == Set::<Handle>::empty(),
            heap.designated() is None,
    {
        let heap = FibHeap {
            slots: Vec::new(),
            free: Vec::new(),
            roots: Vec::new(),
            min: None,
            len: 0,
            height: Ghost(Seq::empty()),
            ceiling: Ghost(0),
        };
        assert(heap@ =~= Map::<Handle, T>::empty());
        assert(heap.issued() =~= Set::<Handle>::empty());
        heap
    }

    /// The number of nodes in the heap.
    pub fn len(&self) -> (n: usize)
        requires
            self.wf(),
        ensures
            n == self@.dom().len(),
    {
        self.len
    }

    /// Whether the heap holds no node.
    pub fn is_empty(&self) -> (r: bool)
        requires
            self.wf(),
        ensures
            r == (self@ == Map::<Handle, T>::empty()),
    {
        proof {
            if self.len == 0 {
                assert(self@.dom() =~= Set::<Handle>::empty());
                assert(self@ =~= Map::<Handle, T>::empty());
            }
        }
        self.len == 0
    }

    /// The value of the designated node: a least value of the heap, or
    /// nothing if the heap is empty.
    pub fn peek(&self) -> (r: Option<&T>)
        requires
            self.wf(),
        ensures
            match r {
                Some(v) => self.least() == Some(*v) && is_minimum(self@, *v),
                None => self.least() is None && self@ == Map::<Handle, T>::empty(),
            },
    {
        proof {
            self.lemma_wf();
        }
        match self.min {
            Some(m) => Some(&self.slots[m].node.as_ref().unwrap().value),
            None => None,
        }
    }

    /// Places `value` in a slot of its own and appends it to the roots.
    fn insert_root(&mut self, value: T) -> (i: usize)
        requires
            old(self).inv(),
        ensures
            final(self).inv(),
            final(self).live(i as int),
            final(self).nd(i as int).value == value,
            final(self).nd(i as int).parent is None,
            !old(self).live(i as int),
            !old(self).issued().contains(final(self).handle_at(i as int)),
            final(self).issued() == old(self).issued().insert(final(self).handle_at(i as int)),
            final(self)@ == old(self)@.insert(final(self).handle_at(i as int), value),
            final(self).roots@ == old(self).roots@.push(i),
            final(self).min == old(self).min,
            final(self).slots@.len() >= old(self).slots@.len(),
            forall|j: int|
                0 <= j < old(self).slots@.len() && j != i ==> final(self).slots@[j] == old(
                    self,
                ).slots@[j],
    {
        let pos = self.roots.len();
        let node = Node { value, parent: None, children: Vec::new(), pos, mark: false };
        let i: usize = match self.free.pop() {
            Some(i) => {
                assert(old(self).free@.len() > 0 && old(self).free@[old(self).free@.len() - 1] == i);
                self.slots[i].node = Some(node);
                proof {
                    self.height@ = self.height@.update(i as int, 0);
                }
                i
            },
            None => {
                self.slots.push(Slot { generation: 0, node: Some(node) });
                proof {
                    self.height@ = self.height@.push(0);
                }
                self.slots.len() - 1
            },
        };
        self.roots.push(i);
        assert(self.len < self.slots.len());
        self.len = self.len + 1;
        proof {
            self.ceiling@ = self.ceiling@ + 1;
            let h = self.handle_at(i as int);
            assert forall|j: int| #[trigger] self.live(j) implies self.node_ok(j) by {
                if j != i {
                    assert(old(self).live(j));
                    assert(old(self).node_ok(j));
                }
            }
            assert(self@ =~= old(self)@.insert(h, value));
            assert(self.issued() =~= old(self).issued().insert(h));
        }
        i
    }

    /// Adds `value` to the heap as a new root and returns its handle.
    ///
    /// The new node becomes the designated one if the heap was empty or if
    /// `value` precedes the designated value; on a tie the new node wins.
    pub fn push(&mut self, value: T) -> (h: Handle)
        requires
            old(self).wf(),
        ensures
            final(self).wf(),
            !old(self).issued().contains(h),
            !old(self)@.dom().contains(h),
            final(self).issued() == old(self).issued().insert(h),
            final(self)@ == old(self)@.insert(h, value),
            push_step(old(self)@, final(self)@, value),
            final(self)@.dom().len() == old(self)@.dom().len() + 1,
            bag(final(self)@) == bag(old(self)@).insert(value),
            final(self).designated() == (if old(self).designated() is None || value.le(
                old(self)@[old(self).designated()->0],
            ) {
                Some(h)
            } else {
                old(self).designated()
            }),
    {
        let takes_over = match self.min {
            Some(m) => value.compare_le(&self.slots[m].node.as_ref().unwrap().value),
            None => true,
        };
        let i = self.insert_root(value);
        proof {
            old(self).lemma_wf();
            lemma_bag_insert(old(self)@, self.handle_at(i as int), value);
        }
        let ghost mid = *self;
        if takes_over {
            self.min = Some(i);
        }
        proof {
            mid.lemma_inv_frame(self);
            match old(self).min {
                Some(m) => {
                    let mv = old(self).nd(m as int).value;
                    assert(old(self).holds(old(self).handle_at(m as int)));
                    assert(old(self).live(m as int));
                    assert(self.slots@[m as int] == old(self).slots@[m as int]);
                    assert forall|k: int| 0 <= k < self.roots@.len() implies self.nd(
                        self.min->0 as int,
                    ).value.le(self.nd(#[trigger] self.roots@[k] as int).value) by {
                        let rv = self.nd(self.roots@[k] as int).value;
                        if k < old(self).roots@.len() {
                            assert(old(self).roots@[k] == self.roots@[k]);
                            if takes_over {
                                T::le_transitive(value, mv, rv);
                            }
                        } else {
                            T::le_total(value, mv);
                            T::le_total(value, value);
                        }
                    }
                },
                None => {
                    T::le_total(value, value);
                },
            }
        }
        Handle { index: i, generation: self.slots[i].generation }
    }

    /// Detaches the non-root `c` from its parent and makes it a root.
    fn cut(&mut self, c: usize)
        requires
            old(self).inv(),
            old(self).min_ok(),
            old(self).live(c as int),
            old(self).nd(c as int).parent is Some,
        ensures
            final(self).inv(),
            final(self).min_ok(),
            final(self)@ == old(self)@,
            final(self).issued() == old(self).issued(),
            final(self).min == old(self).min,
            final(self).height@ == old(self).height@,
            final(self).ceiling@ == old(self).ceiling@,
            final(self).free@ == old(self).free@,
            final(self).len == old(self).len,
            final(self).roots@ == old(self).roots@.push(c),
            final(self).slots@.len() == old(self).slots@.len(),
            final(self).nd(c as int).parent is None,
            !final(self).nd(c as int).mark,
            final(self).nd(c as int).children@ == old(self).nd(c as int).children@,
            final(self).nd(old(self).nd(c as int).parent->0 as int).children@.len() + 1 == old(
                self,
            ).nd(old(self).nd(c as int).parent->0 as int).children@.len(),
            forall|j: int|
                0 <= j < old(self).slots@.len() ==> {
                    &&& (#[trigger] final(self).slots@[j]).generation == old(
                        self,
                    ).slots@[j].generation
                    &&& final(self).slots@[j].node is Some == old(self).slots@[j].node is Some
                    &&& final(self).nd(j).value == old(self).nd(j).value
                    &&& j != c ==> final(self).nd(j).parent == old(self).nd(j).parent
                    &&& j != c ==> final(self).nd(j).mark == old(self).nd(j).mark
                    &&& j != old(self).nd(c as int).parent->0 ==> final(self).nd(j).children@
                        == old(self).nd(j).children@
                },
    {
        proof {
            assert(old(self).node_ok(c as int));
            self.lemma_min_precedes(c as int);
        }
        let p = self.slots[c].node.as_ref().unwrap().parent.unwrap();
        let k = self.slots[c].node.as_ref().unwrap().pos;
        assert(old(self).live(p as int));
        match &mut self.slots[p].node {
            Some(pn) => {
                pn.children.swap_remove(k);
            },
            None => {},
        }
        let ghost moved: int = -1;
        if k < self.slots[p].node.as_ref().unwrap().children.len() {
            let s = self.slots[p].node.as_ref().unwrap().children[k];
            proof {
                moved = s as int;
                let last = old(self).nd(p as int).children@.len() - 1;
                assert(old(self).nd(p as int).children@[last] == s);
                assert(old(self).live(s as int));
            }
            match &mut self.slots[s].node {
                Some(sn) => {
                    sn.pos = k;
                },
                None => {},
            }
        }
        let rp = self.roots.len();
        match &mut self.slots[c].node {
            Some(n) => {
                n.parent = None;
                n.pos = rp;
                n.mark = false;
            },
            None => {},
        }
        self.roots.push(c);
        proof {
            let last = old(self).nd(p as int).children@.len() - 1;
            assert(old(self).node_ok(p as int));
            assert forall|j: int| #[trigger] self.live(j) implies self.node_ok(j) by {
                assert(old(self).live(j));
                assert(old(self).node_ok(j));
                if moved >= 0 {
                    assert(old(self).node_ok(moved));
                }
                assert(self.link_up_ok(j)) by {
                    match old(self).nd(j).parent {
                        Some(q) => {
                            assert(old(self).live(q as int));
                            assert(old(self).node_ok(q as int));
                            if j != c && q == p {
                                let jp = old(self).nd(j).pos as int;
                                assert(old(self).nd(p as int).children@[jp] == j);
                                if j != moved {
                                    assert(jp != last);
                                }
                            }
                        },
                        None => {},
                    }
                }
                assert(self.link_down_ok(j)) by {
                    assert forall|x: int| 0 <= x < self.nd(j).children@.len() implies ({
                        let ch = #[trigger] self.nd(j).children@[x];
                        &&& ch < self.slots@.len()
                        &&& self.slots@[ch as int].node is Some
                        &&& self.nd(ch as int).parent == Some(j as usize)
                        &&& self.nd(ch as int).pos == x
                    }) by {
                        if j == p {
                            if x == k {
                                assert(old(self).nd(p as int).children@[last] == moved);
                            } else {
                                let ch = old(self).nd(p as int).children@[x];
                                assert(self.nd(j).children@[x] == ch);
                                assert(old(self).live(ch as int));
                            }
                        } else {
                            let ch = old(self).nd(j).children@[x];
                            assert(old(self).live(ch as int));
                            assert(old(self).node_ok(ch as int));
                        }
                    }
                }
            }
            assert(self.roots_ok()) by {
                assert forall|x: int| 0 <= x < self.roots@.len() implies ({
                    let r = #[trigger] self.roots@[x];
                    &&& r < self.slots@.len()
                    &&& self.slots@[r as int].node is Some
                    &&& self.nd(r as int).parent is None
                    &&& self.nd(r as int).pos == x
                }) by {
                    if x < old(self).roots@.len() {
                        let r = old(self).roots@[x];
                        assert(old(self).live(r as int));
                    }
                }
            }
            old(self).lemma_occupants_kept(self);
            assert(self.min_ok()) by {
                let m = old(self).min->0;
                assert(old(self).live(m as int));
                assert forall|x: int| 0 <= x < self.roots@.len() implies self.nd(
                    m as int,
                ).value.le(self.nd(#[trigger] self.roots@[x] as int).value) by {
                    if x < old(self).roots@.len() {
                        let r = old(self).roots@[x];
                        assert(old(self).live(r as int));
                    }
                }
            }
        }
    }

    /// The slot that `h` refers to, if its node is still there.
    fn resolve(&self, h: Handle) -> (r: Option<usize>)
        ensures
            match r {
                Some(i) => i == h.index && self.live(i as int) && self@.dom().contains(h)
                    && self.handle_at(i as int) == h,
                None => !self@.dom().contains(h),
            },
    {
        if h.index < self.slots.len() {
            if self.slots[h.index].generation == h.generation && self.slots[h.index].node.is_some() {
                return Some(h.index);
            }
        }
        None
    }

    /// The nodes that a cascading cut from `x` detaches, in the order of
    /// the walk: `x` and its ancestors as long as they are marked and have
    /// a parent.
    spec fn cascade(&self, x: int) -> Seq<usize>
        decreases self.ceiling@ - self.height@[x],
        when self.inv() && self.live(x)
    {
        match self.nd(x).parent {
            Some(q) => if self.nd(x).mark {
                proof {
                    assert(self.node_ok(x));
                    assert(self.live(q as int));
                    assert(self.node_ok(q as int));
                }
                seq![x as usize] + self.cascade(q as int)
            } else {
                Seq::empty()
            },
            None => Seq::empty(),
        }
    }

    /// Slot `j` is one of `path`.
    spec fn on_path(path: Seq<usize>, j: int) -> bool {
        exists|at: int| 0 <= at < path.len() && #[trigger] path[at] == j
    }

    /// The node at which a cascading cut from `x` ends: the first on the
    /// walk that is a root or is not marked.
    spec fn cascade_end(&self, x: int) -> int {
        let path = self.cascade(x);
        if path.len() == 0 {
            x
        } else {
            self.nd(path.last() as int).parent->0 as int
        }
    }

    /// Cutting a node below `x` changes nothing about the walk from `x`.
    proof fn lemma_cascade_above(&self, after: &Self, c: int, x: int)
        requires
            self.inv(),
            after.inv(),
            self.live(x),
            0 <= c < self.slots@.len(),
            self.height@[c] < self.height@[x],
            after.height@ == self.height@,
            after.ceiling@ == self.ceiling@,
            after.slots@.len() == self.slots@.len(),
            forall|j: int|
                0 <= j < self.slots@.len() ==> {
                    &&& (#[trigger] after.slots@[j]).node is Some == self.slots@[j].node is Some
                    &&& j != c ==> after.nd(j).parent == self.nd(j).parent
                    &&& j != c ==> after.nd(j).mark == self.nd(j).mark
                },
        ensures
            after.cascade(x) == self.cascade(x),
        decreases self.ceiling@ - self.height@[x],
    {
        assert(self.node_ok(x));
        assert(after.live(x));
        match self.nd(x).parent {
            Some(q) => {
                if self.nd(x).mark {
                    assert(self.live(q as int));
                    assert(self.node_ok(q as int));
                    self.lemma_cascade_above(after, c, q as int);
                }
            },
            None => {},
        }
    }

    /// Records that the non-root `i` has lost a child: sets its mark and
    /// leaves everything else as it is.
    fn mark_node(&mut self, i: usize)
        requires
            old(self).inv(),
            old(self).min_ok(),
            old(self).live(i as int),
            old(self).nd(i as int).parent is Some,
        ensures
            final(self).inv(),
            final(self).min_ok(),
            final(self)@ == old(self)@,
            final(self).issued() == old(self).issued(),
            final(self).min == old(self).min,
            final(self).roots@ == old(self).roots@,
            final(self).free@ == old(self).free@,
            final(self).len == old(self).len,
            final(self).height@ == old(self).height@,
            final(self).ceiling@ == old(self).ceiling@,
            final(self).slots@.len() == old(self).slots@.len(),
            final(self).nd(i as int).mark,
            final(self).nd(i as int).children == old(self).nd(i as int).children,
            final(self).nd(i as int).pos == old(self).nd(i as int).pos,
            forall|j: int|
                0 <= j < old(self).slots@.len() && j != i ==> #[trigger] final(self).slots@[j] == old(
                    self,
                ).slots@[j],
            forall|j: int|
                0 <= j < old(self).slots@.len() ==> {
                    &&& (#[trigger] final(self).slots@[j]).generation == old(
                        self,
                    ).slots@[j].generation
                    &&& final(self).slots@[j].node is Some == old(self).slots@[j].node is Some
                    &&& final(self).nd(j).value == old(self).nd(j).value
                    &&& final(self).nd(j).parent == old(self).nd(j).parent
                },
    {
        match &mut self.slots[i].node {
            Some(n) => {
                n.mark = true;
            },
            None => {},
        }
        proof {
            assert forall|j: int| #[trigger] self.live(j) implies self.node_ok(j) by {
                assert(old(self).live(j));
                assert(old(self).node_ok(j));
                assert forall|x: int| 0 <= x < self.nd(j).children@.len() implies ({
                    let ch = #[trigger] self.nd(j).children@[x];
                    &&& ch < self.slots@.len()
                    &&& self.slots@[ch as int].node is Some
                    &&& self.nd(ch as int).parent == Some(j as usize)
                    &&& self.nd(ch as int).pos == x
                }) by {
                    let ch = old(self).nd(j).children@[x];
                }
            }
            assert(self.roots_ok()) by {
                assert forall|x: int| 0 <= x < self.roots@.len() implies ({
                    let r = #[trigger] self.roots@[x];
                    &&& r < self.slots@.len()
                    &&& self.slots@[r as int].node is Some
                    &&& self.nd(r as int).parent is None
                    &&& self.nd(r as int).pos == x
                }) by {
                    let r = old(self).roots@[x];
                }
            }
            old(self).lemma_occupants_kept(self);
            assert(self.min_ok()) by {
                let m = old(self).min->0;
                assert forall|x: int| 0 <= x < self.roots@.len() implies self.nd(
                    m as int,
                ).value.le(self.nd(#[trigger] self.roots@[x] as int).value) by {
                    let r = old(self).roots@[x];
                }
            }
        }
    }

    /// Walks up from `start`, which has just lost a child: every marked
    /// node on the way is cut and becomes an unmarked root, the first
    /// unmarked non-root is marked, and the walk ends there or at a root.
    fn cascading_cut(&mut self, start: usize)
        requires
            old(self).inv(),
            old(self).min_ok(),
            old(self).live(start as int),
        ensures
            final(self).inv(),
            final(self).min_ok(),
            final(self)@ == old(self)@,
            final(self).issued() == old(self).issued(),
            final(self).min == old(self).min,
            final(self).free@ == old(self).free@,
            final(self).len == old(self).len,
            final(self).height@ == old(self).height@,
            final(self).ceiling@ == old(self).ceiling@,
            final(self).slots@.len() == old(self).slots@.len(),
            final(self).roots@ == old(self).roots@ + old(self).cascade(start as int),
            forall|j: int|
                0 <= j < old(self).slots@.len() ==> {
                    &&& (#[trigger] final(self).slots@[j]).generation == old(
                        self,
                    ).slots@[j].generation
                    &&& final(self).slots@[j].node is Some == old(self).slots@[j].node is Some
                    &&& final(self).nd(j).value == old(self).nd(j).value
                    &&& final(self).nd(j).parent == (if Self::on_path(old(self).cascade(start as int), j) {
                        None
                    } else {
                        old(self).nd(j).parent
                    })
                    &&& final(self).nd(j).mark == (if Self::on_path(old(self).cascade(start as int), j) {
                        false
                    } else if j == old(self).cascade_end(start as int) && old(self).nd(
                        j,
                    ).parent is Some {
                        true
                    } else {
                        old(self).nd(j).mark
                    })
                },
    {
        let mut cur = start;
        let ghost done: Seq<usize> = Seq::empty();
        proof {
            assert(self.roots@ + done =~= self.roots@);
            assert(done + self.cascade(cur as int) =~= self.cascade(cur as int));
        }
        loop
            invariant_except_break
                old(self).inv(),
                old(self).live(start as int),
                self.inv(),
                self.min_ok(),
                self.live(cur as int),
                self@ == old(self)@,
                self.issued() == old(self).issued(),
                self.min == old(self).min,
                self.free@ == old(self).free@,
                self.len == old(self).len,
                self.height@ == old(self).height@,
                self.ceiling@ == old(self).ceiling@,
                self.slots@.len() == old(self).slots@.len(),
                self.roots@ == old(self).roots@ + done,
                old(self).cascade(start as int) == done + self.cascade(cur as int),
                cur == (if done.len() == 0 {
                    start
                } else {
                    old(self).nd(done.last() as int).parent->0
                }),
                forall|j: int|
                    0 <= j < old(self).slots@.len() ==> {
                        &&& (#[trigger] self.slots@[j]).generation == old(
                            self,
                        ).slots@[j].generation
                        &&& self.slots@[j].node is Some == old(self).slots@[j].node is Some
                        &&& self.nd(j).value == old(self).nd(j).value
                        &&& self.nd(j).parent == (if Self::on_path(done, j) {
                            None
                        } else {
                            old(self).nd(j).parent
                        })
                        &&& self.nd(j).mark == (if Self::on_path(done, j) {
                            false
                        } else {
                            old(self).nd(j).mark
                        })
                    },
            ensures
                old(self).inv(),
                old(self).live(start as int),
                self.inv(),
                self.min_ok(),
                self@ == old(self)@,
                self.issued() == old(self).issued(),
                self.min == old(self).min,
                self.free@ == old(self).free@,
                self.len == old(self).len,
                self.height@ == old(self).height@,
                self.ceiling@ == old(self).ceiling@,
                self.slots@.len() == old(self).slots@.len(),
                self.roots@ == old(self).roots@ + old(self).cascade(start as int),
                forall|j: int|
                    0 <= j < old(self).slots@.len() ==> {
                        &&& (#[trigger] self.slots@[j]).generation == old(
                            self,
                        ).slots@[j].generation
                        &&& self.slots@[j].node is Some == old(self).slots@[j].node is Some
                        &&& self.nd(j).value == old(self).nd(j).value
                        &&& self.nd(j).parent == (if Self::on_path(old(self).cascade(start as int), j) {
                            None
                        } else {
                            old(self).nd(j).parent
                        })
                        &&& self.nd(j).mark == (if Self::on_path(old(self).cascade(start as int), j) {
                            false
                        } else if j == old(self).cascade_end(start as int) && old(self).nd(
                            j,
                        ).parent is Some {
                            true
                        } else {
                            old(self).nd(j).mark
                        })
                    },
            decreases self.ceiling@ - self.height@[cur as int],
        {
            let parent = self.slots[cur].node.as_ref().unwrap().parent;
            let ghost before = *self;
            match parent {
                None => {
                    proof {
                        assert(self.cascade(cur as int) =~= Seq::<usize>::empty());
                        assert(done + self.cascade(cur as int) =~= done);
                        assert(old(self).cascade_end(start as int) == cur);
                    }
                    break ;
                },
                Some(q) => {
                    proof {
                        assert(self.node_ok(cur as int));
                        assert(self.live(q as int));
                        assert(self.node_ok(q as int));
                        assert(!Self::on_path(done, cur as int));
                    }
                    if !self.slots[cur].node.as_ref().unwrap().mark {
                        proof {
                            assert(self.cascade(cur as int) =~= Seq::<usize>::empty());
                            assert(done + self.cascade(cur as int) =~= done);
                            assert(old(self).cascade_end(start as int) == cur);
                        }
                        self.mark_node(cur);
                        proof {
                            assert forall|j: int| 0 <= j < old(self).slots@.len() implies {
                                &&& (#[trigger] self.slots@[j]).generation == old(
                                    self,
                                ).slots@[j].generation
                                &&& self.slots@[j].node is Some == old(self).slots@[j].node is Some
                                &&& self.nd(j).value == old(self).nd(j).value
                                &&& self.nd(j).parent == (if Self::on_path(done, j) {
                                    None
                                } else {
                                    old(self).nd(j).parent
                                })
                                &&& self.nd(j).mark == (if Self::on_path(done, j) {
                                    false
                                } else if j == cur && old(self).nd(j).parent is Some {
                                    true
                                } else {
                                    old(self).nd(j).mark
                                })
                            } by {
                                assert(before.slots@[j].generation == old(self).slots@[j].generation);
                                if j != cur {
                                    assert(self.slots@[j] == before.slots@[j]);
                                }
                            }
                        }
                        break ;
                    }
                    self.cut(cur);
                    proof {
                        let longer = done.push(cur);
                        assert(before.cascade(cur as int) == seq![cur] + before.cascade(q as int));
                        before.lemma_cascade_above(self, cur as int, q as int);
                        assert(done + before.cascade(cur as int) =~= longer + self.cascade(q as int));
                        assert(self.roots@ =~= old(self).roots@ + longer);
                        assert(longer.last() == cur);
                        assert forall|j: int| 0 <= j < old(self).slots@.len() implies {
                            &&& (#[trigger] self.slots@[j]).generation == old(
                                self,
                            ).slots@[j].generation
                            &&& self.slots@[j].node is Some == old(self).slots@[j].node is Some
                            &&& self.nd(j).value == old(self).nd(j).value
                            &&& self.nd(j).parent == (if Self::on_path(longer, j) {
                                None
                            } else {
                                old(self).nd(j).parent
                            })
                            &&& self.nd(j).mark == (if Self::on_path(longer, j) {
                                false
                            } else {
                                old(self).nd(j).mark
                            })
                        } by {
                            assert(before.slots@[j].generation == old(self).slots@[j].generation);
                            if j == cur {
                                assert(longer[done.len() as int] == j);
                            } else {
                                if Self::on_path(done, j) {
                                    let at = choose|at: int|
                                        0 <= at < done.len() && #[trigger] done[at] == j;
                                    assert(longer[at] == j);
                                }
                                if Self::on_path(longer, j) {
                                    let at = choose|at: int|
                                        0 <= at < longer.len() && #[trigger] longer[at] == j;
                                    assert(done[at] == j);
                                }
                            }
                        }
                        done = longer;
                    }
                    cur = q;
                },
            }
        }
    }

    /// Lowers the value of node `i`, whose parent, if it has one, still
    /// precedes the new value.
    fn set_value(&mut self, i: usize, value: T)
        requires
            old(self).inv(),
            old(self).live(i as int),
            value.le(old(self).nd(i as int).value),
            old(self).nd(i as int).parent matches Some(p) ==> old(self).nd(p as int).value.le(
                value,
            ),
        ensures
            final(self).inv(),
            final(self)@ == old(self)@.insert(old(self).handle_at(i as int), value),
            final(self).issued() == old(self).issued(),
            final(self).min == old(self).min,
            final(self).roots@ == old(self).roots@,
            final(self).slots@.len() == old(self).slots@.len(),
            final(self).nd(i as int).value == value,
            forall|j: int|
                0 <= j < old(self).slots@.len() ==> {
                    &&& (#[trigger] final(self).slots@[j]).generation == old(
                        self,
                    ).slots@[j].generation
                    &&& final(self).slots@[j].node is Some == old(self).slots@[j].node is Some
                    &&& j != i ==> final(self).nd(j).value == old(self).nd(j).value
                    &&& final(self).nd(j).parent == old(self).nd(j).parent
                },
    {
        match &mut self.slots[i].node {
            Some(n) => {
                n.value = value;
            },
            None => {},
        }
        proof {
            assert(old(self).node_ok(i as int));
            assert forall|j: int| #[trigger] self.live(j) implies self.node_ok(j) by {
                assert(old(self).live(j));
                assert(old(self).node_ok(j));
                assert(self.link_up_ok(j)) by {
                    match old(self).nd(j).parent {
                        Some(q) => {
                            if q == i {
                                T::le_transitive(
                                    value,
                                    old(self).nd(i as int).value,
                                    old(self).nd(j).value,
                                );
                            }
                        },
                        None => {},
                    }
                }
                assert forall|x: int| 0 <= x < self.nd(j).children@.len() implies ({
                    let ch = #[trigger] self.nd(j).children@[x];
                    &&& ch < self.slots@.len()
                    &&& self.slots@[ch as int].node is Some
                    &&& self.nd(ch as int).parent == Some(j as usize)
                    &&& self.nd(ch as int).pos == x
                }) by {
                    let ch = old(self).nd(j).children@[x];
                }
            }
            assert(self.roots_ok()) by {
                assert forall|x: int| 0 <= x < self.roots@.len() implies ({
                    let r = #[trigger] self.roots@[x];
                    &&& r < self.slots@.len()
                    &&& self.slots@[r as int].node is Some
                    &&& self.nd(r as int).parent is None
                    &&& self.nd(r as int).pos == x
                }) by {
                    let r = old(self).roots@[x];
                }
            }
            assert(self.free_ok()) by {
                assert forall|x: int| 0 <= x < self.free@.len() implies ({
                    let f = #[trigger] self.free@[x];
                    &&& f < self.slots@.len()
                    &&& self.slots@[f as int].node is None
                    &&& self.slots@[f as int].generation < u64::MAX
                }) by {
                    let f = old(self).free@[x];
                }
            }
            let h = old(self).handle_at(i as int);
            assert(old(self).holds(h));
            assert(self@ =~= old(self)@.insert(h, value));
            assert(old(self)@.dom().insert(h) =~= old(self)@.dom());
            assert(self.issued() =~= old(self).issued());
        }
    }

    /// Designates a least root by looking at each root once. Among equal
    /// roots the first in the list is taken.
    fn find_min(&mut self)
        requires
            old(self).inv(),
        ensures
            final(self).inv(),
            final(self).min_ok(),
            final(self)@ == old(self)@,
            final(self).issued() == old(self).issued(),
            final(self).slots@ == old(self).slots@,
            final(self).roots@ == old(self).roots@,
    {
        if self.roots.len() == 0 {
            self.min = None;
            proof {
                old(self).lemma_inv_frame(self);
            }
            return ;
        }
        let mut best = self.roots[0];
        let mut k: usize = 1;
        proof {
            T::le_total(self.nd(best as int).value, self.nd(best as int).value);
        }
        while k < self.roots.len()
            invariant
                *self == *old(self),
                self.inv(),
                1 <= k <= self.roots@.len(),
                best < self.slots@.len(),
                self.slots@[best as int].node is Some,
                self.nd(best as int).parent is None,
                forall|x: int|
                    0 <= x < k ==> self.nd(best as int).value.le(
                        self.nd(#[trigger] self.roots@[x] as int).value,
                    ),
            decreases self.roots@.len() - k,
        {
            let r = self.roots[k];
            let ghost prev = best;
            if !self.slots[best].node.as_ref().unwrap().value.compare_le(
                &self.slots[r].node.as_ref().unwrap().value,
            ) {
                best = r;
            }
            proof {
                let bv = self.nd(best as int).value;
                let pv = self.nd(prev as int).value;
                let rv = self.nd(r as int).value;
                T::le_total(pv, rv);
                T::le_total(rv, rv);
                T::le_total(pv, pv);
                assert forall|x: int| 0 <= x < k + 1 implies bv.le(
                    self.nd(#[trigger] self.roots@[x] as int).value,
                ) by {
                    if x < k {
                        T::le_transitive(bv, pv, self.nd(self.roots@[x] as int).value);
                    }
                }
            }
            k = k + 1;
        }
        self.min = Some(best);
        proof {
            old(self).lemma_inv_frame(self);
        }
    }

    /// Removes the root `i`, which has no children, and returns its value.
    /// The designation is left as it was.
    fn discard_root(&mut self, i: usize) -> (value: T)
        requires
            old(self).inv(),
            old(self).live(i as int),
            old(self).nd(i as int).parent is None,
            old(self).nd(i as int).children@.len() == 0,
        ensures
            final(self).inv(),
            value == old(self).nd(i as int).value,
            final(self)@ == old(self)@.remove(old(self).handle_at(i as int)),
            final(self).issued() == old(self).issued(),
            final(self).min == old(self).min,
    {
        proof {
            assert(old(self).node_ok(i as int));
        }
        let k = self.slots[i].node.as_ref().unwrap().pos;
        self.roots.swap_remove(k);
        let ghost moved: int = -1;
        if k < self.roots.len() {
            let s = self.roots[k];
            proof {
                moved = s as int;
                let last = old(self).roots@.len() - 1;
                assert(old(self).roots@[last] == s);
                assert(old(self).live(s as int));
            }
            match &mut self.slots[s].node {
                Some(sn) => {
                    sn.pos = k;
                },
                None => {},
            }
        }
        let node = self.slots[i].node.take().unwrap();
        let g = self.slots[i].generation;
        self.slots[i].generation = g + 1;
        if g + 1 < u64::MAX {
            self.free.push(i);
        }
        proof {
            let h = old(self).handle_at(i as int);
            assert(old(self).holds(h));
            assert(old(self)@.dom().remove(h).len() + 1 == old(self)@.dom().len());
        }
        self.len = self.len - 1;
        proof {
            let h = old(self).handle_at(i as int);
            assert(self@ =~= old(self)@.remove(h));
            let last = old(self).roots@.len() - 1;
            assert forall|j: int| #[trigger] self.live(j) implies self.node_ok(j) by {
                assert(old(self).live(j));
                assert(old(self).node_ok(j));
                if moved >= 0 {
                    assert(old(self).node_ok(moved));
                }
                assert(self.link_up_ok(j)) by {
                    match old(self).nd(j).parent {
                        Some(q) => {
                            assert(old(self).live(q as int));
                            assert(old(self).node_ok(q as int));
                        },
                        None => {
                            let jp = old(self).nd(j).pos as int;
                            assert(old(self).roots@[jp] == j);
                        },
                    }
                }
                assert forall|x: int| 0 <= x < self.nd(j).children@.len() implies ({
                    let ch = #[trigger] self.nd(j).children@[x];
                    &&& ch < self.slots@.len()
                    &&& self.slots@[ch as int].node is Some
                    &&& self.nd(ch as int).parent == Some(j as usize)
                    &&& self.nd(ch as int).pos == x
                }) by {
                    let ch = old(self).nd(j).children@[x];
                    assert(old(self).live(ch as int));
                    assert(old(self).node_ok(ch as int));
                }
            }
            assert(self.roots_ok()) by {
                assert forall|x: int| 0 <= x < self.roots@.len() implies ({
                    let r = #[trigger] self.roots@[x];
                    &&& r < self.slots@.len()
                    &&& self.slots@[r as int].node is Some
                    &&& self.nd(r as int).parent is None
                    &&& self.nd(r as int).pos == x
                }) by {
                    if x == k {
                        assert(old(self).roots@[last] == moved);
                    } else {
                        let r = old(self).roots@[x];
                        assert(self.roots@[x] == r);
                        assert(old(self).live(r as int));
                    }
                }
            }
            assert(self.free_ok()) by {
                assert forall|x: int| 0 <= x < self.free@.len() implies ({
                    let f = #[trigger] self.free@[x];
                    &&& f < self.slots@.len()
                    &&& self.slots@[f as int].node is None
                    &&& self.slots@[f as int].generation < u64::MAX
                }) by {
                    if x < old(self).free@.len() {
                        let f = old(self).free@[x];
                    }
                }
                assert forall|x: int, y: int| 0 <= x < y < self.free@.len() implies self.free@[x]
                    != self.free@[y] by {
                    let f = old(self).free@[x];
                    if y < old(self).free@.len() {
                        let f2 = old(self).free@[y];
                    }
                }
            }
            assert(self.issued() =~= old(self).issued());
        }
        node.value
    }

    /// Makes every child of `i` a root.
    fn release_children(&mut self, i: usize)
        requires
            old(self).inv(),
            old(self).min_ok(),
            old(self).live(i as int),
        ensures
            final(self).inv(),
            final(self).min_ok(),
            final(self)@ == old(self)@,
            final(self).issued() == old(self).issued(),
            final(self).min == old(self).min,
            final(self).slots@.len() == old(self).slots@.len(),
            final(self).nd(i as int).children@.len() == 0,
            final(self).nd(i as int).parent == old(self).nd(i as int).parent,
            forall|j: int|
                0 <= j < old(self).slots@.len() ==> {
                    &&& (#[trigger] final(self).slots@[j]).generation == old(
                        self,
                    ).slots@[j].generation
                    &&& final(self).slots@[j].node is Some == old(self).slots@[j].node is Some
                    &&& final(self).nd(j).value == old(self).nd(j).value
                },
    {
        while self.slots[i].node.as_ref().unwrap().children.len() > 0
            invariant
                self.inv(),
                self.min_ok(),
                self.live(i as int),
                self@ == old(self)@,
                self.issued() == old(self).issued(),
                self.min == old(self).min,
                self.slots@.len() == old(self).slots@.len(),
                self.nd(i as int).parent == old(self).nd(i as int).parent,
                forall|j: int|
                    0 <= j < old(self).slots@.len() ==> {
                        &&& (#[trigger] self.slots@[j]).generation == old(
                            self,
                        ).slots@[j].generation
                        &&& self.slots@[j].node is Some == old(self).slots@[j].node is Some
                        &&& self.nd(j).value == old(self).nd(j).value
                    },
            decreases self.nd(i as int).children@.len(),
        {
            let last = self.slots[i].node.as_ref().unwrap().children.len() - 1;
            let c = self.slots[i].node.as_ref().unwrap().children[last];
            proof {
                assert(self.node_ok(i as int));
                assert(self.nd(i as int).children@[last as int] == c);
                assert(self.live(c as int));
                assert(self.node_ok(c as int));
            }
            self.cut(c);
        }
    }

    /// Exchanges the roots at positions `a` and `b` of the root list.
    fn swap_roots(&mut self, a: usize, b: usize)
        requires
            old(self).inv(),
            a < old(self).roots@.len(),
            b < old(self).roots@.len(),
        ensures
            final(self).inv(),
            final(self)@ == old(self)@,
            final(self).issued() == old(self).issued(),
            final(self).min == old(self).min,
            final(self).roots@ == old(self).roots@.update(a as int, old(self).roots@[b as int]).update(
                b as int,
                old(self).roots@[a as int],
            ),
            final(self).slots@.len() == old(self).slots@.len(),
            forall|j: int|
                0 <= j < old(self).slots@.len() ==> {
                    &&& (#[trigger] final(self).slots@[j]).generation == old(
                        self,
                    ).slots@[j].generation
                    &&& final(self).slots@[j].node is Some == old(self).slots@[j].node is Some
                    &&& final(self).nd(j).value == old(self).nd(j).value
                    &&& final(self).nd(j).parent == old(self).nd(j).parent
                    &&& final(self).nd(j).children@ == old(self).nd(j).children@
                },
    {
        let ra = self.roots[a];
        let rb = self.roots[b];
        proof {
            assert(old(self).roots@[a as int] == ra);
            assert(old(self).roots@[b as int] == rb);
            assert(old(self).live(ra as int));
            assert(old(self).live(rb as int));
        }
        self.roots[a] = rb;
        self.roots[b] = ra;
        match &mut self.slots[rb].node {
            Some(n) => {
                n.pos = a;
            },
            None => {},
        }
        match &mut self.slots[ra].node {
            Some(n) => {
                n.pos = b;
            },
            None => {},
        }
        proof {
            assert forall|j: int| #[trigger] self.live(j) implies self.node_ok(j) by {
                assert(old(self).live(j));
                assert(old(self).node_ok(j));
                assert(old(self).node_ok(ra as int));
                assert(old(self).node_ok(rb as int));
                assert(self.link_up_ok(j)) by {
                    match old(self).nd(j).parent {
                        Some(q) => {
                            assert(old(self).live(q as int));
                            assert(old(self).node_ok(q as int));
                        },
                        None => {
                            let jp = old(self).nd(j).pos as int;
                            assert(old(self).roots@[jp] == j);
                        },
                    }
                }
                assert forall|x: int| 0 <= x < self.nd(j).children@.len() implies ({
                    let ch = #[trigger] self.nd(j).children@[x];
                    &&& ch < self.slots@.len()
                    &&& self.slots@[ch as int].node is Some
                    &&& self.nd(ch as int).parent == Some(j as usize)
                    &&& self.nd(ch as int).pos == x
                }) by {
                    let ch = old(self).nd(j).children@[x];
                    assert(old(self).live(ch as int));
                    assert(old(self).node_ok(ch as int));
                }
            }
            assert(self.roots_ok()) by {
                assert forall|x: int| 0 <= x < self.roots@.len() implies ({
                    let r = #[trigger] self.roots@[x];
                    &&& r < self.slots@.len()
                    &&& self.slots@[r as int].node is Some
                    &&& self.nd(r as int).parent is None
                    &&& self.nd(r as int).pos == x
                }) by {
                    let r = old(self).roots@[x];
                    assert(old(self).live(r as int));
                }
            }
            old(self).lemma_occupants_kept(self);
        }
    }

    /// Makes the root `b` a child of the root `a`, whose value precedes
    /// that of `b`.
    fn link(&mut self, a: usize, b: usize)
        requires
            old(self).inv(),
            old(self).live(a as int),
            old(self).live(b as int),
            a != b,
            old(self).nd(a as int).parent is None,
            old(self).nd(b as int).parent is None,
            old(self).nd(a as int).value.le(old(self).nd(b as int).value),
        ensures
            final(self).inv(),
            final(self)@ == old(self)@,
            final(self).issued() == old(self).issued(),
            final(self).min == old(self).min,
            final(self).roots@ == old(self).roots@.update(
                old(self).nd(b as int).pos as int,
                old(self).roots@.last(),
            ).drop_last(),
            final(self).slots@.len() == old(self).slots@.len(),
            final(self).nd(b as int).parent == Some(a),
            final(self).nd(a as int).children@ == old(self).nd(a as int).children@.push(b),
            forall|j: int|
                0 <= j < old(self).slots@.len() ==> {
                    &&& (#[trigger] final(self).slots@[j]).generation == old(
                        self,
                    ).slots@[j].generation
                    &&& final(self).slots@[j].node is Some == old(self).slots@[j].node is Some
                    &&& final(self).nd(j).value == old(self).nd(j).value
                    &&& j != b ==> final(self).nd(j).parent == old(self).nd(j).parent
                    &&& j != a ==> final(self).nd(j).children@ == old(self).nd(j).children@
                },
    {
        proof {
            assert(old(self).node_ok(a as int));
            assert(old(self).node_ok(b as int));
        }
        let k = self.slots[b].node.as_ref().unwrap().pos;
        self.roots.swap_remove(k);
        let ghost moved: int = -1;
        if k < self.roots.len() {
            let s = self.roots[k];
            proof {
                moved = s as int;
                let last = old(self).roots@.len() - 1;
                assert(old(self).roots@[last] == s);
                assert(old(self).live(s as int));
            }
            match &mut self.slots[s].node {
                Some(sn) => {
                    sn.pos = k;
                },
                None => {},
            }
        }
        let d = self.slots[a].node.as_ref().unwrap().children.len();
        match &mut self.slots[b].node {
            Some(n) => {
                n.parent = Some(a);
                n.pos = d;
                n.mark = false;
            },
            None => {},
        }
        match &mut self.slots[a].node {
            Some(n) => {
                n.children.push(b);
            },
            None => {},
        }
        proof {
            let ha = old(self).height@[a as int];
            let hb = old(self).height@[b as int];
            let raised: nat = if ha > hb { ha } else { hb + 1 };
            self.height@ = self.height@.update(a as int, raised);
            self.ceiling@ = if self.ceiling@ > raised { self.ceiling@ } else { raised + 1 };
            let last = old(self).roots@.len() - 1;
            assert forall|j: int| #[trigger] self.live(j) implies self.node_ok(j) by {
                assert(old(self).live(j));
                assert(old(self).node_ok(j));
                if moved >= 0 {
                    assert(old(self).node_ok(moved));
                }
                assert(self.link_up_ok(j)) by {
                    match old(self).nd(j).parent {
                        Some(q) => {
                            assert(old(self).live(q as int));
                            assert(old(self).node_ok(q as int));
                        },
                        None => {
                            let jp = old(self).nd(j).pos as int;
                            assert(old(self).roots@[jp] == j);
                        },
                    }
                }
                assert forall|x: int| 0 <= x < self.nd(j).children@.len() implies ({
                    let ch = #[trigger] self.nd(j).children@[x];
                    &&& ch < self.slots@.len()
                    &&& self.slots@[ch as int].node is Some
                    &&& self.nd(ch as int).parent == Some(j as usize)
                    &&& self.nd(ch as int).pos == x
                }) by {
                    if j == a && x == d {
                    } else {
                        let ch = old(self).nd(j).children@[x];
                        assert(self.nd(j).children@[x] == ch);
                        assert(old(self).live(ch as int));
                        assert(old(self).node_ok(ch as int));
                    }
                }
            }
            assert(self.roots_ok()) by {
                assert forall|x: int| 0 <= x < self.roots@.len() implies ({
                    let r = #[trigger] self.roots@[x];
                    &&& r < self.slots@.len()
                    &&& self.slots@[r as int].node is Some
                    &&& self.nd(r as int).parent is None
                    &&& self.nd(r as int).pos == x
                }) by {
                    if x == k {
                        assert(old(self).roots@[last] == moved);
                    } else {
                        let r = old(self).roots@[x];
                        assert(self.roots@[x] == r);
                        assert(old(self).live(r as int));
                    }
                }
            }
            old(self).lemma_occupants_kept(self);
        }
    }

    /// Merges roots of equal degree until no two roots have the same
    /// number of children. Of two trees that meet, the one whose root
    /// precedes the other's becomes the parent; of two equal roots, the one
    /// met later.
    fn consolidate(&mut self)
        requires
            old(self).inv(),
        ensures
            final(self).inv(),
            final(self)@ == old(self)@,
            final(self).issued() == old(self).issued(),
            final(self).root_degrees().no_duplicates(),
    {
        let mut buckets: Vec<Option<usize>> = Vec::new();
        let mut k: usize = 0;
        while k < self.roots.len()
            invariant
                self.inv(),
                self@ == old(self)@,
                self.issued() == old(self).issued(),
                k <= self.roots@.len(),
                forall|j: int|
                    0 <= j < k ==> {
                        let d = self.nd(#[trigger] self.roots@[j] as int).children@.len();
                        d < buckets@.len() && buckets@[d as int] == Some(self.roots@[j])
                    },
                forall|d: int|
                    0 <= d < buckets@.len() ==> (#[trigger] buckets@[d] matches Some(u) ==> {
                        &&& u < self.slots@.len()
                        &&& self.slots@[u as int].node is Some
                        &&& self.nd(u as int).parent is None
                        &&& self.nd(u as int).pos < k
                        &&& self.nd(u as int).children@.len() == d
                    }),
            decreases 2 * self.roots@.len() - k,
        {
            let t = self.roots[k];
            proof {
                assert(self.live(t as int));
                assert(self.node_ok(t as int));
            }
            let d = self.slots[t].node.as_ref().unwrap().children.len();
            grow_buckets(&mut buckets, d);
            match buckets[d] {
                None => {
                    buckets[d] = Some(t);
                    k = k + 1;
                },
                Some(u) => {
                    buckets[d] = None;
                    let ghost before = *self;
                    let p = self.slots[u].node.as_ref().unwrap().pos;
                    proof {
                        assert(self.live(u as int));
                        assert(self.node_ok(u as int));
                    }
                    self.swap_roots(p, k - 1);
                    let ghost swapped = *self;
                    if self.slots[t].node.as_ref().unwrap().value.compare_le(
                        &self.slots[u].node.as_ref().unwrap().value,
                    ) {
                        self.swap_roots(k - 1, k);
                        proof {
                            assert(self.live(u as int));
                            assert(self.node_ok(u as int));
                        }
                        self.link(t, u);
                    } else {
                        proof {
                            T::le_total(self.nd(t as int).value, self.nd(u as int).value);
                            assert(self.live(t as int));
                            assert(self.node_ok(t as int));
                        }
                        self.link(u, t);
                    }
                    k = k - 1;
                    proof {
                        assert forall|j: int| 0 <= j < k implies ({
                            let dj = self.nd(#[trigger] self.roots@[j] as int).children@.len();
                            dj < buckets@.len() && buckets@[dj as int] == Some(self.roots@[j])
                        }) by {
                            let r = swapped.roots@[j];
                            assert(self.roots@[j] == r);
                            assert(swapped.live(r as int));
                            assert(swapped.node_ok(r as int));
                            if j == p {
                                assert(before.roots@[k as int] == r);
                            } else {
                                assert(before.roots@[j] == r);
                            }
                            assert(before.live(r as int));
                            assert(before.node_ok(r as int));
                            assert(before.node_ok(u as int));
                            assert(before.node_ok(t as int));
                        }
                        assert forall|x: int| 0 <= x < buckets@.len() implies (
                        #[trigger] buckets@[x] matches Some(v) ==> {
                            &&& v < self.slots@.len()
                            &&& self.slots@[v as int].node is Some
                            &&& self.nd(v as int).parent is None
                            &&& self.nd(v as int).pos < k
                            &&& self.nd(v as int).children@.len() == x
                        }) by {
                            if buckets@[x] is Some {
                                let v = buckets@[x]->0;
                                assert(before.live(v as int));
                                assert(before.node_ok(v as int));
                                assert(before.node_ok(u as int));
                                assert(before.node_ok(t as int));
                                let vp = before.nd(v as int).pos as int;
                                let np = if vp == k { p as int } else { vp };
                                assert(swapped.roots@[np] == v);
                                assert(self.roots@[np] == v);
                                assert(self.live(v as int));
                                assert(self.node_ok(v as int));
                            }
                        }
                    }
                },
            }
        }
        proof {
            let degs = self.root_degrees();
            assert forall|a: int, b: int| 0 <= a < degs.len() && 0 <= b < degs.len() && a
                != b implies degs[a] != degs[b] by {
                let ra = self.roots@[a];
                let rb = self.roots@[b];
                assert(self.live(ra as int));
                assert(self.live(rb as int));
            }
        }
    }

    /// Removes the designated node and returns its value: a least value
    /// of the heap. Returns nothing if the heap is empty.
    ///
    /// The children of the removed node become roots, and the roots are
    /// then merged until no two of them have the same number of children.
    pub fn pop(&mut self) -> (r: Option<T>)
        requires
            old(self).wf(),
        ensures
            final(self).wf(),
            final(self).issued() == old(self).issued(),
            match r {
                Some(v) => {
                    &&& old(self).designated() is Some
                    &&& is_min_entry(old(self)@, old(self).designated()->0)
                    &&& old(self).least() == Some(v)
                    &&& final(self)@ == old(self)@.remove(old(self).designated()->0)
                    &&& pop_step(old(self)@, final(self)@, v)
                    &&& final(self)@.dom().len() + 1 == old(self)@.dom().len()
                    &&& bag(final(self)@) == bag(old(self)@).remove(v)
                },
                None => old(self)@ == Map::<Handle, T>::empty() && final(self)@ == old(self)@,
            },
            final(self).root_degrees().no_duplicates(),
    {
        proof {
            self.lemma_wf();
        }
        let m = match self.min {
            Some(m) => m,
            None => {
                return None;
            },
        };
        proof {
            assert(self.live(m as int));
        }
        self.release_children(m);
        let value = self.discard_root(m);
        self.consolidate();
        let ghost merged = *self;
        self.find_min();
        proof {
            assert(self.root_degrees() =~= merged.root_degrees());
            lemma_bag_remove(old(self)@, old(self).designated()->0);
        }
        Some(value)
    }

    /// Lowers the value of the node that `handle` refers to.
    ///
    /// A node whose new value no longer follows its parent's is cut from
    /// the parent and becomes a root; marked ancestors are cut with it. The
    /// node becomes the designated one if its new value strictly precedes
    /// the designated value.
    ///
    /// Fails, and changes nothing, if the handle's node is gone or if
    /// `new_value` does not precede the node's value.
    pub fn decrease_key(&mut self, handle: Handle, new_value: T) -> (r: Result<(), HeapError>)
        requires
            old(self).wf(),
        ensures
            final(self).wf(),
            final(self).issued() == old(self).issued(),
            r == decrease_key_outcome(old(self)@, handle, new_value),
            final(self)@ == after_decrease_key(old(self)@, handle, new_value),
            match r {
                Ok(_) => {
                    &&& old(self).least() matches Some(before)
                    &&& final(self).designated() == (if before.le(new_value) {
                        old(self).designated()
                    } else {
                        Some(handle)
                    })
                    &&& final(self).least() matches Some(after) && after.le(new_value) && after.le(
                        before,
                    )
                    &&& bag(final(self)@) == bag(old(self)@).remove(old(self)@[handle]).insert(
                        new_value,
                    )
                },
                Err(_) => *final(self) == *old(self),
            },
    {
        let i = match self.resolve(handle) {
            Some(i) => i,
            None => {
                return Err(HeapError::InvalidHandle);
            },
        };
        if !new_value.compare_le(&self.slots[i].node.as_ref().unwrap().value) {
            return Err(HeapError::InvalidKeyIncrease);
        }
        proof {
            assert(self.node_ok(i as int));
            self.lemma_min_precedes(i as int);
        }
        match self.slots[i].node.as_ref().unwrap().parent {
            Some(p) => {
                proof {
                    assert(self.live(p as int));
                }
                if !self.slots[p].node.as_ref().unwrap().value.compare_le(&new_value) {
                    self.cut(i);
                    self.cascading_cut(p);
                }
            },
            None => {},
        }
        let ghost settled = *self;
        let m = self.min.unwrap();
        proof {
            assert(settled.live(i as int));
            assert(settled.live(m as int));
            if settled.nd(i as int).parent is Some {
                let p = settled.nd(i as int).parent->0;
                assert(settled.node_ok(i as int));
                assert(settled.live(p as int));
                settled.lemma_min_precedes(p as int);
            }
        }
        self.set_value(i, new_value);
        let ghost lowered = *self;
        if !self.slots[m].node.as_ref().unwrap().value.compare_le(
            &self.slots[i].node.as_ref().unwrap().value,
        ) {
            self.min = Some(i);
        }
        proof {
            lowered.lemma_inv_frame(self);
            let mv = settled.nd(m as int).value;
            let iv = settled.nd(i as int).value;
            T::le_total(new_value, new_value);
            T::le_total(mv, new_value);
            let chosen = self.min->0;
            if settled.nd(i as int).parent is Some {
                let p = settled.nd(i as int).parent->0;
                T::le_transitive(mv, settled.nd(p as int).value, new_value);
            }
            assert forall|k: int| 0 <= k < self.roots@.len() implies self.nd(
                chosen as int,
            ).value.le(self.nd(#[trigger] self.roots@[k] as int).value) by {
                let r = settled.roots@[k];
                let rv = settled.nd(r as int).value;
                assert(settled.live(r as int));
                if chosen == i {
                    if r != i {
                        T::le_transitive(new_value, mv, rv);
                    }
                } else {
                    if r != i {
                    }
                }
            }
            assert(old(self).holds(old(self).handle_at(m as int)));
            old(self).lemma_wf();
            lemma_bag_update(old(self)@, handle, new_value);
            T::le_total(iv, iv);
            T::le_total(mv, mv);
            assert(self.holds(self.handle_at(chosen as int)));
        }
        Ok(())
    }

    /// Removes the node that `handle` refers to and returns its value.
    ///
    /// The node is cut from its parent, marked ancestors with it; its
    /// children become roots; a least root is then designated anew.
    ///
    /// Fails, and changes nothing, if the handle's node is gone.
    pub fn delete(&mut self, handle: Handle) -> (r: Result<T, HeapError>)
        requires
            old(self).wf(),
        ensures
            final(self).wf(),
            final(self).issued() == old(self).issued(),
            r == delete_outcome(old(self)@, handle),
            final(self)@ == old(self)@.remove(handle),
            match r {
                Ok(v) => {
                    &&& final(self)@.dom().len() + 1 == old(self)@.dom().len()
                    &&& bag(final(self)@) == bag(old(self)@).remove(v)
                },
                Err(_) => *final(self) == *old(self),
            },
    {
        let i = match self.resolve(handle) {
            Some(i) => i,
            None => {
                proof {
                    assert(self@.remove(handle) =~= self@);
                }
                return Err(HeapError::InvalidHandle);
            },
        };
        proof {
            self.lemma_wf();
            lemma_bag_remove(self@, handle);
        }
        match self.slots[i].node.as_ref().unwrap().parent {
            Some(p) => {
                proof {
                    assert(self.node_ok(i as int));
                    assert(self.live(p as int));
                }
                self.cut(i);
                self.cascading_cut(p);
            },
            None => {},
        }
        proof {
            assert(self.live(i as int));
        }
        self.release_children(i);
        let value = self.discard_root(i);
        self.find_min();
        Ok(value)
    }

    /// What `before` becomes when its heap's slots are renumbered from
    /// `by` on and its heap's roots from `root_by` on.
    spec fn slot_moved(before: Slot<T>, after: Slot<T>, by: int, root_by: int) -> bool {
        &&& after.generation == before.generation
        &&& after.node is Some == before.node is Some
        &&& before.node is Some ==> {
            let b = before.node->0;
            let a = after.node->0;
            &&& a.value == b.value
            &&& a.mark == b.mark
            &&& a.children@.len() == b.children@.len()
            &&& forall|x: int|
                0 <= x < b.children@.len() ==> #[trigger] a.children@[x] == b.children@[x] + by
            &&& match b.parent {
                Some(p) => a.parent == Some((p + by) as usize) && a.pos == b.pos,
                None => a.parent is None && a.pos == b.pos + root_by,
            }
        }
    }

    /// Renumbering `s` stays within `usize`.
    spec fn slot_movable(s: Slot<T>, by: int, root_by: int) -> bool {
        s.node is Some ==> {
            let n = s.node->0;
            &&& forall|x: int|
                0 <= x < n.children@.len() ==> #[trigger] n.children@[x] + by <= usize::MAX
            &&& match n.parent {
                Some(p) => p + by <= usize::MAX,
                None => n.pos + root_by <= usize::MAX,
            }
        }
    }

    /// Renumbers the links of the slots from `by` on.
    fn rebase_slots(slots: &mut Vec<Slot<T>>, by: usize, root_by: usize)
        requires
            by <= old(slots)@.len(),
            forall|i: int|
                by <= i < old(slots)@.len() ==> Self::slot_movable(
                    #[trigger] old(slots)@[i],
                    by as int,
                    root_by as int,
                ),
        ensures
            final(slots)@.len() == old(slots)@.len(),
            forall|i: int| 0 <= i < by ==> #[trigger] final(slots)@[i] == old(slots)@[i],
            forall|i: int|
                by <= i < old(slots)@.len() ==> Self::slot_moved(
                    old(slots)@[i],
                    #[trigger] final(slots)@[i],
                    by as int,
                    root_by as int,
                ),
    {
        let mut i = by;
        while i < slots.len()
            invariant
                by <= i <= slots@.len(),
                slots@.len() == old(slots)@.len(),
                forall|j: int| 0 <= j < by ==> #[trigger] slots@[j] == old(slots)@[j],
                forall|j: int| i <= j < slots@.len() ==> #[trigger] slots@[j] == old(slots)@[j],
                forall|j: int|
                    by <= j < old(slots)@.len() ==> Self::slot_movable(
                        #[trigger] old(slots)@[j],
                        by as int,
                        root_by as int,
                    ),
                forall|j: int|
                    by <= j < i ==> Self::slot_moved(
                        old(slots)@[j],
                        #[trigger] slots@[j],
                        by as int,
                        root_by as int,
                    ),
            decreases slots@.len() - i,
        {
            proof {
                assert(slots@[i as int] == old(slots)@[i as int]);
                assert(Self::slot_movable(old(slots)@[i as int], by as int, root_by as int));
            }
            match slots[i].node.take() {
                Some(node) => {
                    let mut node = node;
                    match node.parent {
                        Some(p) => {
                            node.parent = Some(p + by);
                        },
                        None => {
                            node.pos = node.pos + root_by;
                        },
                    }
                    shift_all(&mut node.children, 0, by);
                    slots[i].node = Some(node);
                },
                None => {},
            }
            i = i + 1;
        }
    }

    /// The invariant of a heap that holds the slots of `a` followed by the
    /// renumbered slots of `b`, and what its state is in terms of theirs.
    proof fn lemma_joined(&self, a: &Self, b: &Self)
        requires
            a.inv(),
            b.inv(),
            self.slots@.len() == a.slots@.len() + b.slots@.len(),
            self.slots@.len() <= usize::MAX,
            forall|i: int| 0 <= i < a.slots@.len() ==> #[trigger] self.slots@[i] == a.slots@[i],
            forall|i: int|
                a.slots@.len() <= i < self.slots@.len() ==> Self::slot_moved(
                    b.slots@[i - a.slots@.len()],
                    #[trigger] self.slots@[i],
                    a.slots@.len() as int,
                    a.roots@.len() as int,
                ),
            self.roots@.len() == a.roots@.len() + b.roots@.len(),
            forall|k: int| 0 <= k < a.roots@.len() ==> #[trigger] self.roots@[k] == a.roots@[k],
            forall|k: int|
                a.roots@.len() <= k < self.roots@.len() ==> #[trigger] self.roots@[k] == b.roots@[k
                    - a.roots@.len()] + a.slots@.len(),
            self.free@.len() == a.free@.len() + b.free@.len(),
            forall|k: int| 0 <= k < a.free@.len() ==> #[trigger] self.free@[k] == a.free@[k],
            forall|k: int|
                a.free@.len() <= k < self.free@.len() ==> #[trigger] self.free@[k] == b.free@[k
                    - a.free@.len()] + a.slots@.len(),
            self.len == a.len + b.len,
            self.height@ == a.height@ + b.height@,
            self.ceiling@ >= a.ceiling@,
            self.ceiling@ >= b.ceiling@,
        ensures
            self.inv(),
            is_union_of(self@, a@, b@, a.spec_span()),
            bag(self@) == bag(a@).add(bag(b@)),
            forall|h: Handle|
                self.issued().contains(h) <==> a.issued().contains(h) || exists|g: Handle|
                    b.issued().contains(g) && g.rebased(a.spec_span()) == h,
            forall|i: int| #[trigger] a.live(i) ==> self.live(i) && self.handle_at(i) == a.handle_at(i),
            forall|i: int| #[trigger]
                b.live(i) ==> self.live(i + a.slots@.len()) && self.handle_at(i + a.slots@.len())
                    == b.handle_at(i).rebased(a.spec_span()),
    {
        let by = a.slots@.len() as int;
        let root_by = a.roots@.len() as int;
        assert forall|i: int| #[trigger] self.live(i) implies self.node_ok(i) by {
            if i < by {
                assert(a.live(i));
                assert(a.node_ok(i));
                assert forall|x: int| 0 <= x < self.nd(i).children@.len() implies ({
                    let ch = #[trigger] self.nd(i).children@[x];
                    &&& ch < self.slots@.len()
                    &&& self.slots@[ch as int].node is Some
                    &&& self.nd(ch as int).parent == Some(i as usize)
                    &&& self.nd(ch as int).pos == x
                }) by {
                    let ch = a.nd(i).children@[x];
                    assert(self.slots@[ch as int] == a.slots@[ch as int]);
                }
                match a.nd(i).parent {
                    Some(q) => {
                        assert(self.slots@[q as int] == a.slots@[q as int]);
                    },
                    None => {
                        assert(self.roots@[a.nd(i).pos as int] == a.roots@[a.nd(i).pos as int]);
                    },
                }
            } else {
                let o = i - by;
                assert(Self::slot_moved(b.slots@[o], self.slots@[i], by, root_by));
                assert(b.live(o));
                assert(b.node_ok(o));
                assert forall|x: int| 0 <= x < self.nd(i).children@.len() implies ({
                    let ch = #[trigger] self.nd(i).children@[x];
                    &&& ch < self.slots@.len()
                    &&& self.slots@[ch as int].node is Some
                    &&& self.nd(ch as int).parent == Some(i as usize)
                    &&& self.nd(ch as int).pos == x
                }) by {
                    let ch = b.nd(o).children@[x];
                    assert(self.nd(i).children@[x] == ch + by);
                    assert(Self::slot_moved(b.slots@[ch as int], self.slots@[ch + by], by, root_by));
                }
                match b.nd(o).parent {
                    Some(q) => {
                        assert(Self::slot_moved(b.slots@[q as int], self.slots@[q + by], by, root_by));
                        assert(self.nd(q + by).children@[b.nd(o).pos as int] == b.nd(
                            q as int,
                        ).children@[b.nd(o).pos as int] + by);
                    },
                    None => {
                        let k = b.nd(o).pos as int;
                        assert(self.roots@[k + root_by] == b.roots@[k] + by);
                    },
                }
            }
        }
        assert(self.roots_ok()) by {
            assert forall|k: int| 0 <= k < self.roots@.len() implies ({
                let r = #[trigger] self.roots@[k];
                &&& r < self.slots@.len()
                &&& self.slots@[r as int].node is Some
                &&& self.nd(r as int).parent is None
                &&& self.nd(r as int).pos == k
            }) by {
                if k < root_by {
                    let r = a.roots@[k];
                    assert(self.slots@[r as int] == a.slots@[r as int]);
                } else {
                    let r = b.roots@[k - root_by];
                    assert(Self::slot_moved(b.slots@[r as int], self.slots@[r + by], by, root_by));
                }
            }
        }
        assert(self.free_ok()) by {
            let free_by = a.free@.len() as int;
            assert forall|k: int| 0 <= k < self.free@.len() implies ({
                let f = #[trigger] self.free@[k];
                &&& f < self.slots@.len()
                &&& self.slots@[f as int].node is None
                &&& self.slots@[f as int].generation < u64::MAX
            }) by {
                if k < free_by {
                    let f = a.free@[k];
                    assert(self.slots@[f as int] == a.slots@[f as int]);
                } else {
                    let f = b.free@[k - free_by];
                    assert(Self::slot_moved(b.slots@[f as int], self.slots@[f + by], by, root_by));
                }
            }
            assert forall|k: int, l: int| 0 <= k < l < self.free@.len() implies self.free@[k]
                != self.free@[l] by {
                if k < free_by {
                    let f = a.free@[k];
                } else {
                    let f = b.free@[k - free_by];
                }
                if l < free_by {
                    let f = a.free@[l];
                } else {
                    let f = b.free@[l - free_by];
                }
            }
        }
        assert forall|h: Handle| #[trigger] a@.dom().contains(h) implies self@.dom().contains(h)
            && self@[h] == a@[h] by {
            assert(self.slots@[h.index as int] == a.slots@[h.index as int]);
        }
        assert forall|h: Handle| #[trigger] b@.dom().contains(h) implies !a@.dom().contains(
            h.rebased(by as nat),
        ) && self@.dom().contains(h.rebased(by as nat)) && self@[h.rebased(by as nat)] == b@[h] by {
            assert(Self::slot_moved(b.slots@[h.index as int], self.slots@[h.index + by], by, root_by));
        }
        assert forall|k: Handle| #[trigger] self@.dom().contains(k) implies a@.dom().contains(k)
            || exists|h: Handle| b@.dom().contains(h) && h.rebased(by as nat) == k by {
            if k.index < by {
                assert(self.slots@[k.index as int] == a.slots@[k.index as int]);
            } else {
                let h = Handle { index: (k.index - by) as usize, generation: k.generation };
                assert(Self::slot_moved(b.slots@[h.index as int], self.slots@[k.index as int], by, root_by));
                assert(b@.dom().contains(h) && h.rebased(by as nat) == k);
            }
        }
        assert forall|h: Handle|
            self.issued().contains(h) <==> a.issued().contains(h) || exists|g: Handle|
                b.issued().contains(g) && g.rebased(by as nat) == h by {
            let g = Handle { index: (h.index - by) as usize, generation: h.generation };
            if h.index < by {
                assert(self.slots@[h.index as int] == a.slots@[h.index as int]);
                assert(self.issued().contains(h) == a.issued().contains(h));
            } else if h.index < self.slots@.len() {
                assert(Self::slot_moved(b.slots@[g.index as int], self.slots@[h.index as int], by, root_by));
                assert(g.rebased(by as nat) == h);
                assert(self.issued().contains(h) == b.issued().contains(g));
                assert(!a.issued().contains(h));
            } else {
                assert(!self.issued().contains(h));
                assert(!a.issued().contains(h));
            }
            assert forall|g2: Handle| b.issued().contains(g2) && g2.rebased(by as nat)
                == h implies h.index >= by && h.index < self.slots@.len() && g2 == g by {
                assert(g2.index + by <= usize::MAX);
            }
        }
        assert forall|i: int| #[trigger] b.live(i) implies self.live(i + by) && self.handle_at(
            i + by,
        ) == b.handle_at(i).rebased(by as nat) by {
            assert(Self::slot_moved(b.slots@[i], self.slots@[i + by], by, root_by));
        }
        assert forall|h: Handle| b@.dom().contains(h) implies h.index + by <= usize::MAX by {}
        lemma_bag_union(self@, a@, b@, by as nat);
        lemma_bag_len(self@);
        lemma_bag_len(a@);
        lemma_bag_len(b@);
    }

    /// Pushes the elements of `items` in their order and returns their
    /// handles in the same order.
    pub fn extend(&mut self, items: Vec<T>) -> (handles: Vec<Handle>)
        requires
            old(self).wf(),
        ensures
            final(self).wf(),
            handles@.len() == items@.len(),
            handles@.no_duplicates(),
            forall|i: int|
                0 <= i < handles@.len() ==> {
                    &&& !old(self).issued().contains(#[trigger] handles@[i])
                    &&& final(self)@.dom().contains(handles@[i])
                    &&& final(self)@[handles@[i]] == items@[i]
                },
            forall|h: Handle| #[trigger]
                old(self)@.dom().contains(h) ==> final(self)@.dom().contains(h) && final(self)@[h]
                    == old(self)@[h],
            forall|h: Handle| #[trigger]
                final(self)@.dom().contains(h) ==> old(self)@.dom().contains(h)
                    || handles@.contains(h),
            final(self).issued() == old(self).issued().union(handles@.to_set()),
            final(self)@.dom().len() == old(self)@.dom().len() + items@.len(),
            bag(final(self)@) == bag(old(self)@).add(items@.to_multiset()),
    {
        let mut handles: Vec<Handle> = Vec::new();
        let ghost all = items@;
        proof {
            assert(old(self).issued().union(handles@.to_set()) =~= old(self).issued());
            assert(all.take(0) =~= Seq::<T>::empty());
            assert(bag(old(self)@).add(Seq::<T>::empty().to_multiset()) =~= bag(old(self)@)) by {
                broadcast use vstd::multiset::group_multiset_axioms;
                broadcast use vstd::seq_lib::group_to_multiset_ensures;

                assert(Seq::<T>::empty().to_multiset().len() == 0);
            }
        }
        for x in it: items
            invariant
                it.seq() == all,
                old(self).wf(),
                self.wf(),
                handles@.len() == it.index(),
                handles@.no_duplicates(),
                forall|i: int|
                    0 <= i < handles@.len() ==> {
                        &&& !old(self).issued().contains(#[trigger] handles@[i])
                        &&& self@.dom().contains(handles@[i])
                        &&& self@[handles@[i]] == all[i]
                    },
                forall|h: Handle| #[trigger]
                    old(self)@.dom().contains(h) ==> self@.dom().contains(h) && self@[h] == old(
                        self,
                    )@[h],
                forall|h: Handle| #[trigger]
                    self@.dom().contains(h) ==> old(self)@.dom().contains(h) || handles@.contains(h),
                self.issued() == old(self).issued().union(handles@.to_set()),
                self@.dom().len() == old(self)@.dom().len() + it.index(),
                bag(self@) == bag(old(self)@).add(all.take(it.index()).to_multiset()),
        {
            let ghost before = *self;
            let ghost issued_handles = handles@;
            let ghost n = handles@.len() as int;
            let h = self.push(x);
            handles.push(h);
            proof {
                broadcast use vstd::multiset::group_multiset_axioms;
                broadcast use vstd::seq_lib::group_to_multiset_ensures;

                old(self).lemma_wf();
                assert forall|i: int, j: int|
                    0 <= i < handles@.len() && 0 <= j < handles@.len() && i != j implies handles@[i]
                    != handles@[j] by {
                    if i < n {
                        assert(before.issued().contains(issued_handles[i]));
                    }
                    if j < n {
                        assert(before.issued().contains(issued_handles[j]));
                    }
                }
                assert forall|k: Handle| #[trigger] self@.dom().contains(k) implies old(
                    self,
                )@.dom().contains(k) || handles@.contains(k) by {
                    if k == h {
                        assert(handles@[n] == h);
                    } else {
                        assert(before@.dom().contains(k));
                        if issued_handles.contains(k) {
                            let i = choose|i: int| 0 <= i < n && issued_handles[i] == k;
                            assert(handles@[i] == k);
                        }
                    }
                }
                assert forall|k: Handle|
                    handles@.to_set().contains(k) <==> issued_handles.to_set().insert(h).contains(
                        k,
                    ) by {
                    if handles@.contains(k) {
                        let i = choose|i: int| 0 <= i < handles@.len() && handles@[i] == k;
                        if i < n {
                            assert(issued_handles[i] == k);
                        }
                    }
                    if issued_handles.contains(k) {
                        let i = choose|i: int| 0 <= i < n && issued_handles[i] == k;
                        assert(handles@[i] == k);
                    }
                    if k == h {
                        assert(handles@[n] == h);
                    }
                }
                assert(handles@.to_set() =~= issued_handles.to_set().insert(h));
                assert(self.issued() =~= old(self).issued().union(handles@.to_set()));
                assert(all.take(n + 1) =~= all.take(n).push(all[n]));
                assert(bag(self@) =~= bag(old(self)@).add(all.take(n + 1).to_multiset()));
            }
        }
        proof {
            assert(all.take(all.len() as int) =~= all);
        }
        handles
    }

    /// The number of slots the heap has opened so far: what a handle of
    /// another heap is rebased by when that heap is united with this one.
    pub fn span(&self) -> (n: usize)
        ensures
            n == self.spec_span(),
    {
        self.slots.len()
    }

    /// Unites two heaps into one that holds the nodes of both.
    ///
    /// The arena of `second` is appended to that of `first`, which takes
    /// time linear in the size of `second`. A handle issued by `first`
    /// stays valid as it is; a handle `h` issued by `second` is valid in
    /// the united heap as `h.rebased(first.span())`.
    ///
    /// The designated node is the one of the two designated nodes whose
    /// value strictly precedes the other's, and that of `second` if they
    /// are equal.
    pub fn union(first: Self, second: Self) -> (merged: Self)
        requires
            first.wf(),
            second.wf(),
        ensures
            merged.wf(),
            is_union_of(merged@, first@, second@, first.spec_span()),
            merged@.dom().len() == first@.dom().len() + second@.dom().len(),
            bag(merged@) == bag(first@).add(bag(second@)),
            merged.spec_span() == first.spec_span() + second.spec_span(),
            forall|h: Handle|
                merged.issued().contains(h) <==> first.issued().contains(h) || exists|g: Handle|
                    second.issued().contains(g) && g.rebased(first.spec_span()) == h,
            merged.least() == least_of(first.least(), second.least()),
            merged.designated() == (match (first.designated(), second.designated()) {
                (Some(a), Some(b)) => if second@[b].le(first@[a]) {
                    Some(b.rebased(first.spec_span()))
                } else {
                    Some(a)
                },
                (Some(a), None) => Some(a),
                (None, Some(b)) => Some(b.rebased(first.spec_span())),
                (None, None) => None,
            }),
    {
        let mut first = first;
        let mut second = second;
        let ghost a = first;
        let ghost b = second;
        let by = first.slots.len();
        let root_by = first.roots.len();
        let free_by = first.free.len();
        let prefer_second = match second.min {
            Some(sm) => match first.min {
                Some(fm) => second.slots[sm].node.as_ref().unwrap().value.compare_le(
                    &first.slots[fm].node.as_ref().unwrap().value,
                ),
                None => true,
            },
            None => false,
        };
        first.slots.append(&mut second.slots);
        first.roots.append(&mut second.roots);
        first.free.append(&mut second.free);
        let total = first.slots.len();
        let total_roots = first.roots.len();
        let total_free = first.free.len();
        proof {
            assert forall|i: int| by <= i < first.slots@.len() implies Self::slot_movable(
                #[trigger] first.slots@[i],
                by as int,
                root_by as int,
            ) by {
                let o = i - by;
                assert(first.slots@[i] == b.slots@[o]);
                if b.slots@[o].node is Some {
                    assert(b.live(o));
                    assert(b.node_ok(o));
                    assert forall|x: int| 0 <= x < b.nd(o).children@.len() implies #[trigger] b.nd(
                        o,
                    ).children@[x] + by <= usize::MAX by {}
                }
            }
            assert forall|k: int| root_by <= k < first.roots@.len() implies #[trigger] first.roots@[k]
                + by <= usize::MAX by {
                assert(first.roots@[k] == b.roots@[k - root_by]);
            }
            assert forall|k: int| free_by <= k < first.free@.len() implies #[trigger] first.free@[k]
                + by <= usize::MAX by {
                assert(first.free@[k] == b.free@[k - free_by]);
            }
        }
        let ghost appended = first;
        Self::rebase_slots(&mut first.slots, by, root_by);
        shift_all(&mut first.roots, root_by, by);
        shift_all(&mut first.free, free_by, by);
        first.len = first.len + second.len;
        first.min = if prefer_second {
            match second.min {
                Some(sm) => Some(sm + by),
                None => None,
            }
        } else {
            first.min
        };
        proof {
            first.height@ = a.height@ + b.height@;
            first.ceiling@ = if a.ceiling@ > b.ceiling@ { a.ceiling@ } else { b.ceiling@ };
            assert forall|i: int| by <= i < first.slots@.len() implies Self::slot_moved(
                b.slots@[i - by],
                #[trigger] first.slots@[i],
                by as int,
                root_by as int,
            ) by {
                assert(appended.slots@[i] == b.slots@[i - by]);
            }
            assert forall|i: int| 0 <= i < by implies #[trigger] first.slots@[i] == a.slots@[i] by {
                assert(appended.slots@[i] == a.slots@[i]);
            }
            assert forall|k: int| 0 <= k < root_by implies #[trigger] first.roots@[k] == a.roots@[k] by {
                assert(appended.roots@[k] == a.roots@[k]);
            }
            assert forall|k: int| root_by <= k < first.roots@.len() implies #[trigger] first.roots@[k]
                == b.roots@[k - root_by] + by by {
                assert(appended.roots@[k] == b.roots@[k - root_by]);
            }
            assert forall|k: int| 0 <= k < free_by implies #[trigger] first.free@[k] == a.free@[k] by {
                assert(appended.free@[k] == a.free@[k]);
            }
            assert forall|k: int| free_by <= k < first.free@.len() implies #[trigger] first.free@[k]
                == b.free@[k - free_by] + by by {
                assert(appended.free@[k] == b.free@[k - free_by]);
            }
            first.lemma_joined(&a, &b);
            a.lemma_wf();
            b.lemma_wf();
            lemma_bag_len(first@);
            lemma_bag_len(a@);
            lemma_bag_len(b@);
            match (a.min, b.min) {
                (Some(fm), Some(sm)) => {
                    assert(a.live(fm as int));
                    assert(b.live(sm as int));
                    assert(a.holds(a.handle_at(fm as int)));
                    assert(b.holds(b.handle_at(sm as int)));
                },
                (Some(fm), None) => {
                    assert(a.live(fm as int));
                },
                (None, Some(sm)) => {
                    assert(b.live(sm as int));
                },
                (None, None) => {},
            }
            assert(first.min_ok()) by {
                if first.min is Some {
                    let m = first.min->0 as int;
                    let mv = first.nd(m).value;
                    assert forall|k: int| 0 <= k < first.roots@.len() implies mv.le(
                        first.nd(#[trigger] first.roots@[k] as int).value,
                    ) by {
                        let rv = first.nd(first.roots@[k] as int).value;
                        if k < root_by {
                            let r = a.roots@[k];
                            assert(a.live(r as int));
                            let fm = a.min->0 as int;
                            if prefer_second {
                                T::le_transitive(mv, a.nd(fm).value, rv);
                            }
                        } else {
                            let r = b.roots@[k - root_by];
                            assert(b.live(r as int));
                            let sm = b.min->0 as int;
                            if !prefer_second {
                                T::le_total(b.nd(sm).value, mv);
                                T::le_transitive(mv, b.nd(sm).value, rv);
                            }
                        }
                    }
                }
            }
        }
        first
    }
}

/// The bag of a union is the sum of the bags of its parts.
proof fn lemma_bag_union<T>(
    merged: Map<Handle, T>,
    first: Map<Handle, T>,
    second: Map<Handle, T>,
    by: nat,
)
    requires
        is_union_of(merged, first, second, by),
        first.dom().finite(),
        second.dom().finite(),
        forall|h: Handle| second.dom().contains(h) ==> h.index + by <= usize::MAX,
    ensures
        merged.dom().finite(),
        bag(merged) == bag(first).add(bag(second)),
    decreases second.dom().len(),
{
    broadcast use vstd::multiset::group_multiset_axioms;

    if second.dom().len() == 0 {
        second.dom().lemma_len0_is_empty();
        assert(merged =~= first);
        assert(bag(first).add(bag(second)) =~= bag(first));
    } else {
        let h = second.dom().choose();
        let k = h.rebased(by);
        let rest = second.remove(h);
        let less = merged.remove(k);
        assert(second.dom().contains(h));
        assert(is_union_of(less, first, rest, by)) by {
            assert forall|g: Handle| #[trigger] first.dom().contains(g) implies less.dom().contains(
                g,
            ) && less[g] == first[g] by {
                assert(g != k);
            }
            assert forall|g: Handle| #[trigger] rest.dom().contains(g) implies !first.dom().contains(
                g.rebased(by),
            ) && less.dom().contains(g.rebased(by)) && less[g.rebased(by)] == rest[g] by {
                assert(second.dom().contains(g));
                assert(g.index + by <= usize::MAX);
                assert(h.index + by <= usize::MAX);
                assert(g.rebased(by) != k);
            }
            assert forall|x: Handle| #[trigger] less.dom().contains(x) implies first.dom().contains(
                x,
            ) || exists|g: Handle| rest.dom().contains(g) && g.rebased(by) == x by {
                assert(merged.dom().contains(x));
                if !first.dom().contains(x) {
                    let g = choose|g: Handle| second.dom().contains(g) && g.rebased(by) == x;
                    assert(rest.dom().contains(g) && g.rebased(by) == x);
                }
            }
        }
        lemma_bag_union(less, first, rest, by);
        assert(merged.dom() =~= less.dom().insert(k));
        lemma_bag_remove(merged, k);
        lemma_bag_remove(second, h);
        assert(bag(merged) =~= bag(first).add(bag(second)));
    }
}

/// Adds `by` to every element of `v` from position `from` on.
fn shift_all(v: &mut Vec<usize>, from: usize, by: usize)
    requires
        from <= old(v)@.len(),
        forall|x: int| from <= x < old(v)@.len() ==> #[trigger] old(v)@[x] + by <= usize::MAX,
    ensures
        final(v)@.len() == old(v)@.len(),
        forall|x: int| 0 <= x < from ==> #[trigger] final(v)@[x] == old(v)@[x],
        forall|x: int| from <= x < old(v)@.len() ==> #[trigger] final(v)@[x] == old(v)@[x] + by,
{
    let mut i = from;
    while i < v.len()
        invariant
            from <= i <= v@.len(),
            v@.len() == old(v)@.len(),
            forall|x: int| from <= x < old(v)@.len() ==> #[trigger] old(v)@[x] + by <= usize::MAX,
            forall|x: int| 0 <= x < from ==> #[trigger] v@[x] == old(v)@[x],
            forall|x: int| i <= x < v@.len() ==> #[trigger] v@[x] == old(v)@[x],
            forall|x: int| from <= x < i ==> #[trigger] v@[x] == old(v)@[x] + by,
        decreases v@.len() - i,
    {
        let moved = v[i] + by;
        v[i] = moved;
        i = i + 1;
    }
}

/// Extends `buckets` with empty entries until it has an entry `d`.
fn grow_buckets(buckets: &mut Vec<Option<usize>>, d: usize)
    ensures
        final(buckets)@.len() > d,
        final(buckets)@.len() >= old(buckets)@.len(),
        forall|x: int| 0 <= x < old(buckets)@.len() ==> final(buckets)@[x] == old(buckets)@[x],
        forall|x: int| old(buckets)@.len() <= x < final(buckets)@.len() ==> final(buckets)@[x] is None,
{
    while buckets.len() <= d
        invariant
            buckets@.len() >= old(buckets)@.len(),
            forall|x: int| 0 <= x < old(buckets)@.len() ==> buckets@[x] == old(buckets)@[x],
            forall|x: int| old(buckets)@.len() <= x < buckets@.len() ==> buckets@[x] is None,
        decreases d + 1 - buckets@.len(),
    {
        buckets.push(None);
    }
}

} // verus!
