//! Mergeable priority queues with handles into their nodes, together with
//! two companions: an ordered set in a red-black tree, and brute-force
//! deciders for 3-CNF formulas and for cliques and independent sets of
//! graphs.

pub mod order;
pub mod bag;
pub mod fibheap;
pub mod laws;
pub mod np;
pub mod rbtree;
