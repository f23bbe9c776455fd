//! An ordered set kept in a red-black tree.
//!
//! The abstract state of a tree is the sequence of its keys in ascending
//! order (`tree@`). The colours of the nodes keep the tree balanced: no
//! red node has a red child, and every path from a node down to a leaf
//! passes the same number of black nodes.

use vstd::prelude::*;
use vstd::arithmetic::power2::{lemma_pow2_unfold, pow2};
use crate::order::{
    all_above,
    all_below,
    lemma_lt_total,
    lemma_lt_transitive,
    lemma_sorted_join,
    lemma_sorted_parts,
    lt,
    strictly_sorted,
    TotalOrder,
};

verus! {

#[derive(Clone, Copy, Debug, PartialEq, Eq, Structural)]
enum Color {
    Black,
    Red,
}

struct Node<K> {
    left: Option<Box<Node<K>>>,
    right: Option<Box<Node<K>>>,
    color: Color,
    key: K,
}

/// A set of keys in a red-black tree.
pub struct RbTree<K> {
    root: Option<Box<Node<K>>>,
}

/// The keys of `t` from left to right.
spec fn inorder<K>(t: Option<Box<Node<K>>>) -> Seq<K>
    decreases t,
{
    match t {
        None => Seq::empty(),
        Some(n) => inorder(n.left) + seq![n.key] + inorder(n.right),
    }
}

/// The keys of `t`, every node before its subtrees.
spec fn preorder<K>(t: Option<Box<Node<K>>>) -> Seq<K>
    decreases t,
{
    match t {
        None => Seq::empty(),
        Some(n) => seq![n.key] + preorder(n.left) + preorder(n.right),
    }
}

/// `t` has a root, and that root is red.
spec fn is_red<K>(t: Option<Box<Node<K>>>) -> bool {
    t matches Some(n) && n.color == Color::Red
}

/// The number of black nodes on the leftmost path of `t`.
spec fn black_height<K>(t: Option<Box<Node<K>>>) -> nat
    decreases t,
{
    match t {
        None => 0,
        Some(n) => black_height(n.left) + (if n.color == Color::Black {
            1nat
        } else {
            0nat
        }),
    }
}

/// In `t`, no red node has a red child, and at every node both subtrees
/// have the same black height.
spec fn balanced<K>(t: Option<Box<Node<K>>>) -> bool
    decreases t,
{
    match t {
        None => true,
        Some(n) => {
            &&& balanced(n.left)
            &&& balanced(n.right)
            &&& black_height(n.left) == black_height(n.right)
            &&& n.color == Color::Red ==> !is_red(n.left) && !is_red(n.right)
        },
    }
}

/// `t` is balanced but for its root, which may be red with a red child.
spec fn almost<K>(t: Option<Box<Node<K>>>) -> bool {
    match t {
        None => true,
        Some(n) => balanced(n.left) && balanced(n.right) && black_height(n.left) == black_height(
            n.right,
        ),
    }
}

/// The number of nodes on the longest path from the root of `t` down.
spec fn height<K>(t: Option<Box<Node<K>>>) -> nat
    decreases t,
{
    match t {
        None => 0,
        Some(n) => 1 + if height(n.left) >= height(n.right) {
            height(n.left)
        } else {
            height(n.right)
        },
    }
}

/// A balanced tree is at most twice as high as its black height, plus
/// one if its root is red, and holds at least as many keys as a full
/// tree of its black height.
proof fn lemma_balanced_is_low<K>(t: Option<Box<Node<K>>>)
    requires
        balanced(t),
    ensures
        height(t) <= 2 * black_height(t) + (if is_red(t) {
            1nat
        } else {
            0nat
        }),
        pow2(black_height(t)) <= inorder(t).len() + 1,
    decreases t,
{
    match t {
        None => {
            vstd::arithmetic::power2::lemma2_to64();
        },
        Some(n) => {
            lemma_balanced_is_low(n.left);
            lemma_balanced_is_low(n.right);
            if n.color == Color::Black {
                lemma_pow2_unfold(black_height(t));
            }
        },
    }
}

/// What a sequence around `k` contains.
proof fn lemma_join_contains<K>(a: Seq<K>, k: K, b: Seq<K>, x: K)
    ensures
        (a + seq![k] + b).contains(x) <==> a.contains(x) || x == k || b.contains(x),
{
    vstd::seq_lib::lemma_seq_concat_contains_all_elements(a + seq![k], b, x);
    vstd::seq_lib::lemma_seq_concat_contains_all_elements(a, seq![k], x);
    if seq![k].contains(x) {
        let i = choose|i: int| 0 <= i < seq![k].len() && seq![k][i] == x;
    }
    if x == k {
        assert(seq![k][0] == x);
    }
}

/// A sequence whose elements are among those of a sequence below `k`,
/// or equal to a value below `k`, is below `k`.
proof fn lemma_below_among<K: TotalOrder>(s: Seq<K>, from: Seq<K>, extra: K, k: K)
    requires
        all_below(from, k),
        lt(extra, k),
        forall|x: K| s.contains(x) ==> from.contains(x) || x == extra,
    ensures
        all_below(s, k),
{
    assert forall|i: int| 0 <= i < s.len() implies lt(#[trigger] s[i], k) by {
        assert(s.contains(s[i]));
        if s[i] != extra {
            let j = choose|j: int| 0 <= j < from.len() && from[j] == s[i];
        }
    }
}

/// A sequence whose elements are among those of a sequence above `k`,
/// or equal to a value above `k`, is above `k`.
proof fn lemma_above_among<K: TotalOrder>(s: Seq<K>, from: Seq<K>, extra: K, k: K)
    requires
        all_above(from, k),
        lt(k, extra),
        forall|x: K| s.contains(x) ==> from.contains(x) || x == extra,
    ensures
        all_above(s, k),
{
    assert forall|i: int| 0 <= i < s.len() implies lt(k, #[trigger] s[i]) by {
        assert(s.contains(s[i]));
        if s[i] != extra {
            let j = choose|j: int| 0 <= j < from.len() && from[j] == s[i];
        }
    }
}

/// A sequence below `k` does not contain what `k` precedes, nor `k`.
proof fn lemma_below_excludes<K: TotalOrder>(s: Seq<K>, k: K, x: K)
    requires
        all_below(s, k),
        x == k || lt(k, x),
    ensures
        !s.contains(x),
{
    if s.contains(x) {
        let i = choose|i: int| 0 <= i < s.len() && s[i] == x;
        lemma_lt_total(x, k);
        if lt(k, x) {
            lemma_lt_transitive(s[i], k, x);
        }
    }
}

/// A sequence above `k` does not contain what precedes `k`, nor `k`.
proof fn lemma_above_excludes<K: TotalOrder>(s: Seq<K>, k: K, x: K)
    requires
        all_above(s, k),
        x == k || lt(x, k),
    ensures
        !s.contains(x),
{
    if s.contains(x) {
        let i = choose|i: int| 0 <= i < s.len() && s[i] == x;
        lemma_lt_total(x, k);
        if lt(x, k) {
            lemma_lt_transitive(x, k, s[i]);
        }
    }
}

impl<K: TotalOrder + Copy> Node<K> {
    /// A red node without children.
    fn create(key: K) -> (n: Box<Node<K>>)
        ensures
            *n == (Node { left: None, right: None, color: Color::Red, key }),
    {
        Box::new(Node { left: None, right: None, color: Color::Red, key })
    }

    fn is_red(&self) -> (r: bool)
        ensures
            r == (self.color == Color::Red),
    {
        match self.color {
            Color::Black => false,
            Color::Red => true,
        }
    }

    fn is_black(&self) -> (r: bool)
        ensures
            r == (self.color == Color::Black),
    {
        !self.is_red()
    }

    fn has_child(&self) -> (r: bool)
        ensures
            r == (self.left is Some || self.right is Some),
    {
        self.left.is_some() || self.right.is_some()
    }

    fn has_left(&self) -> (r: bool)
        ensures
            r == self.left is Some,
    {
        self.left.is_some()
    }

    fn has_right(&self) -> (r: bool)
        ensures
            r == self.right is Some,
    {
        self.right.is_some()
    }
}

/// Whether `t` has a red root.
fn red<K: TotalOrder + Copy>(t: &Option<Box<Node<K>>>) -> (r: bool)
    ensures
        r == is_red(*t),
{
    match t {
        Some(n) => n.is_red(),
        None => false,
    }
}

/// Lifts the right child of `n` into the place of `n`, which becomes
/// its left child.
fn rotate_left<K: TotalOrder + Copy>(n: Box<Node<K>>) -> (r: Box<Node<K>>)
    requires
        n.right is Some,
    ensures
        r.key == n.right->0.key,
        r.color == n.right->0.color,
        r.right == n.right->0.right,
        r.left matches Some(l) && l.left == n.left && l.right == n.right->0.left && l.color
            == n.color && l.key == n.key,
        inorder(Some(r)) == inorder(Some(n)),
{
    let ghost given = n;
    let mut n = n;
    let mut r = n.right.take().unwrap();
    n.right = r.left.take();
    let ghost a = inorder(n.left);
    let ghost b = inorder(n.right);
    let ghost c = inorder(r.right);
    r.left = Some(n);
    proof {
        assert(inorder(r.left) == a + seq![given.key] + b);
        assert(inorder(given.right) == b + seq![r.key] + c);
        assert(inorder(Some(r)) =~= inorder(Some(given)));
    }
    r
}

/// Lifts the left child of `n` into the place of `n`, which becomes
/// its right child.
fn rotate_right<K: TotalOrder + Copy>(n: Box<Node<K>>) -> (r: Box<Node<K>>)
    requires
        n.left is Some,
    ensures
        r.key == n.left->0.key,
        r.color == n.left->0.color,
        r.left == n.left->0.left,
        r.right matches Some(l) && l.right == n.right && l.left == n.left->0.right && l.color
            == n.color && l.key == n.key,
        inorder(Some(r)) == inorder(Some(n)),
{
    let ghost given = n;
    let mut n = n;
    let mut r = n.left.take().unwrap();
    n.left = r.right.take();
    let ghost a = inorder(r.left);
    let ghost b = inorder(n.left);
    let ghost c = inorder(n.right);
    r.right = Some(n);
    proof {
        assert(inorder(r.right) == b + seq![given.key] + c);
        assert(inorder(given.left) == a + seq![r.key] + b);
        assert(inorder(Some(r)) =~= inorder(Some(given)));
    }
    r
}

/// Restores the balance at `n` after an insertion into its left subtree
/// has left a red node with a red child at that subtree's root.
fn balance_insert_left<K: TotalOrder + Copy>(n: Box<Node<K>>) -> (r: Box<Node<K>>)
    requires
        n.left is Some,
        almost(n.left),
        balanced(n.right),
        black_height(n.left) == black_height(n.right),
        n.color == Color::Red ==> balanced(n.left) && !is_red(n.right),
        is_red(n.left) ==> !(is_red(n.left->0.left) && is_red(n.left->0.right)),
    ensures
        balanced(n.left) ==> r == n,
        inorder(Some(r)) == inorder(Some(n)),
        black_height(Some(r)) == black_height(Some(n)),
        almost(Some(r)),
        n.color == Color::Black ==> balanced(Some(r)),
        is_red(Some(r)) ==> !(is_red(r.left) && is_red(r.right)),
{
    proof {
        reveal_with_fuel(inorder, 3);
        reveal_with_fuel(balanced, 3);
        reveal_with_fuel(black_height, 3);
    }
    let mut n = n;
    let mut p = n.left.take().unwrap();
    if !(p.is_red() && (red(&p.left) || red(&p.right))) {
        n.left = Some(p);
        return n;
    }
    if red(&n.right) {
        let mut uncle = n.right.take().unwrap();
        p.color = Color::Black;
        uncle.color = Color::Black;
        n.color = Color::Red;
        n.left = Some(p);
        n.right = Some(uncle);
        return n;
    }
    if red(&p.right) {
        p = rotate_left(p);
    }
    p.color = Color::Black;
    n.color = Color::Red;
    n.left = Some(p);
    rotate_right(n)
}

/// Restores the balance at `n` after an insertion into its right subtree
/// has left a red node with a red child at that subtree's root.
fn balance_insert_right<K: TotalOrder + Copy>(n: Box<Node<K>>) -> (r: Box<Node<K>>)
    requires
        n.right is Some,
        almost(n.right),
        balanced(n.left),
        black_height(n.left) == black_height(n.right),
        n.color == Color::Red ==> balanced(n.right) && !is_red(n.left),
        is_red(n.right) ==> !(is_red(n.right->0.left) && is_red(n.right->0.right)),
    ensures
        balanced(n.right) ==> r == n,
        inorder(Some(r)) == inorder(Some(n)),
        black_height(Some(r)) == black_height(Some(n)),
        almost(Some(r)),
        n.color == Color::Black ==> balanced(Some(r)),
        is_red(Some(r)) ==> !(is_red(r.left) && is_red(r.right)),
{
    proof {
        reveal_with_fuel(inorder, 3);
        reveal_with_fuel(balanced, 3);
        reveal_with_fuel(black_height, 3);
    }
    let mut n = n;
    let mut p = n.right.take().unwrap();
    if !(p.is_red() && (red(&p.left) || red(&p.right))) {
        n.right = Some(p);
        return n;
    }
    if red(&n.left) {
        let mut uncle = n.left.take().unwrap();
        p.color = Color::Black;
        uncle.color = Color::Black;
        n.color = Color::Red;
        n.right = Some(p);
        n.left = Some(uncle);
        return n;
    }
    if red(&p.left) {
        p = rotate_right(p);
    }
    p.color = Color::Black;
    n.color = Color::Red;
    n.right = Some(p);
    rotate_left(n)
}

/// Adds `key` to the subtree `t` unless it is there, and says whether
/// it was added. The root of the result may be red with one red child.
fn insert_at<K: TotalOrder + Copy>(t: Option<Box<Node<K>>>, key: K) -> (out: (Box<Node<K>>, bool))
    requires
        balanced(t),
        strictly_sorted(inorder(t)),
    ensures
        out.1 == !inorder(t).contains(key),
        strictly_sorted(inorder(Some(out.0))),
        forall|x: K| inorder(Some(out.0)).contains(x) <==> inorder(t).contains(x) || x == key,
        black_height(Some(out.0)) == black_height(t),
        almost(Some(out.0)),
        !is_red(t) ==> balanced(Some(out.0)),
        is_red(Some(out.0)) ==> !(is_red(out.0.left) && is_red(out.0.right)),
        !out.1 ==> Some(out.0) == t,
    decreases t,
{
    match t {
        None => {
            let leaf = Node::create(key);
            proof {
                reveal_with_fuel(inorder, 2);
                assert(inorder(Some(leaf)) =~= seq![key]);
                assert(seq![key][0] == key);
            }
            (leaf, true)
        },
        Some(n) => {
            let mut n = n;
            let ghost a = inorder(n.left);
            let ghost b = inorder(n.right);
            let ghost k = n.key;
            proof {
                assert(inorder(t) == a + seq![k] + b);
                lemma_sorted_parts(a, k, b);
                lemma_lt_total(key, k);
                K::le_total(key, key);
                lemma_join_contains(a, k, b, key);
            }
            if key.compare_le(&n.key) {
                if n.key.compare_le(&key) {
                    proof {
                        K::le_antisymmetric(key, k);
                        assert forall|x: K|
                            inorder(Some(n)).contains(x) <==> inorder(t).contains(x) || x == key by {
                            lemma_join_contains(a, k, b, x);
                        }
                    }
                    (n, false)
                } else {
                    let (l, added) = insert_at(n.left.take(), key);
                    n.left = Some(l);
                    proof {
                        let a2 = inorder(n.left);
                        lemma_below_among(a2, a, key, k);
                        lemma_sorted_join(a2, k, b);
                        lemma_above_excludes(b, k, key);
                        assert(inorder(Some(n)) == a2 + seq![k] + b);
                        assert forall|x: K|
                            inorder(Some(n)).contains(x) <==> inorder(t).contains(x) || x == key by {
                            lemma_join_contains(a2, k, b, x);
                            lemma_join_contains(a, k, b, x);
                        }
                    }
                    (balance_insert_left(n), added)
                }
            } else {
                let (r, added) = insert_at(n.right.take(), key);
                n.right = Some(r);
                proof {
                    let b2 = inorder(n.right);
                    lemma_above_among(b2, b, key, k);
                    lemma_sorted_join(a, k, b2);
                    lemma_below_excludes(a, k, key);
                    assert(inorder(Some(n)) == a + seq![k] + b2);
                    assert forall|x: K|
                        inorder(Some(n)).contains(x) <==> inorder(t).contains(x) || x == key by {
                        lemma_join_contains(a, k, b2, x);
                        lemma_join_contains(a, k, b, x);
                    }
                }
                (balance_insert_right(n), added)
            }
        },
    }
}

/// The subtree under `p` on the left lacks one black node on every path,
/// compared with the other; apart from that `p` is balanced.
spec fn short_left<K>(p: Node<K>) -> bool {
    &&& balanced(p.left)
    &&& balanced(p.right)
    &&& black_height(p.left) + 1 == black_height(p.right)
    &&& !is_red(p.left)
    &&& p.color == Color::Red ==> !is_red(p.right)
}

/// Restores the balance at `p`, whose left subtree lacks a black node
/// and whose right child is black. Says whether the whole subtree now
/// lacks one.
fn fix_black_sibling_left<K: TotalOrder + Copy>(p: Box<Node<K>>) -> (out: (Box<Node<K>>, bool))
    requires
        short_left(*p),
        !is_red(p.right),
    ensures
        inorder(Some(out.0)) == inorder(Some(p)),
        balanced(Some(out.0)),
        is_red(Some(out.0)) ==> p.color == Color::Red,
        p.color == Color::Red ==> !out.1,
        out.1 ==> black_height(Some(out.0)) == black_height(p.right) && !is_red(Some(out.0)),
        !out.1 ==> black_height(Some(out.0)) == black_height(p.right) + (if p.color
            == Color::Black {
            1nat
        } else {
            0nat
        }),
{
    proof {
        reveal_with_fuel(inorder, 4);
        reveal_with_fuel(balanced, 4);
        reveal_with_fuel(black_height, 4);
    }
    let mut p = p;
    let mut w = p.right.take().unwrap();
    if !red(&w.left) && !red(&w.right) {
        w.color = Color::Red;
        p.right = Some(w);
        if p.is_red() {
            p.color = Color::Black;
            (p, false)
        } else {
            (p, true)
        }
    } else {
        if !red(&w.right) {
            let mut near = w.left.take().unwrap();
            near.color = Color::Black;
            w.left = Some(near);
            w.color = Color::Red;
            w = rotate_right(w);
        }
        w.color = p.color;
        p.color = Color::Black;
        let mut far = w.right.take().unwrap();
        far.color = Color::Black;
        w.right = Some(far);
        p.right = Some(w);
        (rotate_left(p), false)
    }
}

/// Restores the balance at `p`, whose left subtree lacks a black node.
/// Says whether the whole subtree now lacks one.
fn fix_delete_left<K: TotalOrder + Copy>(p: Box<Node<K>>) -> (out: (Box<Node<K>>, bool))
    requires
        short_left(*p),
    ensures
        inorder(Some(out.0)) == inorder(Some(p)),
        balanced(Some(out.0)),
        is_red(Some(out.0)) ==> p.color == Color::Red,
        p.color == Color::Red ==> !out.1,
        out.1 ==> black_height(Some(out.0)) == black_height(p.right) && !is_red(Some(out.0)),
        !out.1 ==> black_height(Some(out.0)) == black_height(p.right) + (if p.color
            == Color::Black {
            1nat
        } else {
            0nat
        }),
{
    proof {
        reveal_with_fuel(inorder, 4);
        reveal_with_fuel(balanced, 4);
        reveal_with_fuel(black_height, 4);
    }
    if red(&p.right) {
        let mut p = p;
        let mut w = p.right.take().unwrap();
        w.color = Color::Black;
        p.color = Color::Red;
        p.right = Some(w);
        let mut top = rotate_left(p);
        let lower = top.left.take().unwrap();
        let (fixed, _) = fix_black_sibling_left(lower);
        top.left = Some(fixed);
        (top, false)
    } else {
        fix_black_sibling_left(p)
    }
}

/// The subtree under `p` on the right lacks one black node on every path,
/// compared with the other; apart from that `p` is balanced.
spec fn short_right<K>(p: Node<K>) -> bool {
    &&& balanced(p.right)
    &&& balanced(p.left)
    &&& black_height(p.right) + 1 == black_height(p.left)
    &&& !is_red(p.right)
    &&& p.color == Color::Red ==> !is_red(p.left)
}

/// Restores the balance at `p`, whose right subtree lacks a black node
/// and whose left child is black. Says whether the whole subtree now
/// lacks one.
fn fix_black_sibling_right<K: TotalOrder + Copy>(p: Box<Node<K>>) -> (out: (Box<Node<K>>, bool))
    requires
        short_right(*p),
        !is_red(p.left),
    ensures
        inorder(Some(out.0)) == inorder(Some(p)),
        balanced(Some(out.0)),
        is_red(Some(out.0)) ==> p.color == Color::Red,
        p.color == Color::Red ==> !out.1,
        out.1 ==> black_height(Some(out.0)) == black_height(p.left) && !is_red(Some(out.0)),
        !out.1 ==> black_height(Some(out.0)) == black_height(p.left) + (if p.color
            == Color::Black {
            1nat
        } else {
            0nat
        }),
{
    proof {
        reveal_with_fuel(inorder, 4);
        reveal_with_fuel(balanced, 4);
        reveal_with_fuel(black_height, 4);
    }
    let mut p = p;
    let mut w = p.left.take().unwrap();
    if !red(&w.left) && !red(&w.right) {
        w.color = Color::Red;
        p.left = Some(w);
        if p.is_red() {
            p.color = Color::Black;
            (p, false)
        } else {
            (p, true)
        }
    } else {
        if !red(&w.left) {
            let mut near = w.right.take().unwrap();
            near.color = Color::Black;
            w.right = Some(near);
            w.color = Color::Red;
            w = rotate_left(w);
        }
        w.color = p.color;
        p.color = Color::Black;
        let mut far = w.left.take().unwrap();
        far.color = Color::Black;
        w.left = Some(far);
        p.left = Some(w);
        (rotate_right(p), false)
    }
}

/// Restores the balance at `p`, whose right subtree lacks a black node.
/// Says whether the whole subtree now lacks one.
fn fix_delete_right<K: TotalOrder + Copy>(p: Box<Node<K>>) -> (out: (Box<Node<K>>, bool))
    requires
        short_right(*p),
    ensures
        inorder(Some(out.0)) == inorder(Some(p)),
        balanced(Some(out.0)),
        is_red(Some(out.0)) ==> p.color == Color::Red,
        p.color == Color::Red ==> !out.1,
        out.1 ==> black_height(Some(out.0)) == black_height(p.left) && !is_red(Some(out.0)),
        !out.1 ==> black_height(Some(out.0)) == black_height(p.left) + (if p.color
            == Color::Black {
            1nat
        } else {
            0nat
        }),
{
    proof {
        reveal_with_fuel(inorder, 4);
        reveal_with_fuel(balanced, 4);
        reveal_with_fuel(black_height, 4);
    }
    if red(&p.left) {
        let mut p = p;
        let mut w = p.left.take().unwrap();
        w.color = Color::Black;
        p.color = Color::Red;
        p.left = Some(w);
        let mut top = rotate_right(p);
        let lower = top.right.take().unwrap();
        let (fixed, _) = fix_black_sibling_right(lower);
        top.right = Some(fixed);
        (top, false)
    } else {
        fix_black_sibling_right(p)
    }
}

/// Takes `z`, which has at most one child, out of the tree: what is left
/// of its subtree is its child. Says whether that lacks a black node.
fn transplant<K: TotalOrder + Copy>(z: Box<Node<K>>) -> (out: (Option<Box<Node<K>>>, bool))
    requires
        balanced(Some(z)),
        z.left is None || z.right is None,
    ensures
        inorder(out.0) == inorder(z.left) + inorder(z.right),
        balanced(out.0),
        !is_red(out.0),
        out.1 ==> black_height(out.0) + 1 == black_height(Some(z)),
        !out.1 ==> black_height(out.0) == black_height(Some(z)),
{
    proof {
        reveal_with_fuel(inorder, 3);
        reveal_with_fuel(balanced, 3);
        reveal_with_fuel(black_height, 3);
    }
    let ghost given = z;
    let mut z = z;
    let child = if z.has_left() {
        z.left.take()
    } else {
        z.right.take()
    };
    match child {
        Some(c) => {
            let mut c = c;
            assert(inorder(Some(c)) =~= inorder(given.left) + inorder(given.right));
            c.color = Color::Black;
            (Some(c), false)
        },
        None => {
            assert(inorder(None::<Box<Node<K>>>) =~= inorder(given.left) + inorder(given.right));
            (None, z.is_black())
        },
    }
}

/// Takes the least key out of the subtree `t`. Returns what is left, the
/// key, and whether what is left lacks a black node.
fn remove_min<K: TotalOrder + Copy>(t: Box<Node<K>>) -> (out: (Option<Box<Node<K>>>, K, bool))
    requires
        balanced(Some(t)),
    ensures
        inorder(Some(t)) == seq![out.1] + inorder(out.0),
        balanced(out.0),
        is_red(out.0) ==> is_red(Some(t)),
        out.2 ==> black_height(out.0) + 1 == black_height(Some(t)) && !is_red(out.0),
        !out.2 ==> black_height(out.0) == black_height(Some(t)),
    decreases t,
{
    proof {
        reveal_with_fuel(inorder, 2);
        reveal_with_fuel(balanced, 2);
        reveal_with_fuel(black_height, 2);
    }
    let ghost given = t;
    let mut t = t;
    if !t.has_left() {
        let key = t.key;
        let (rest, short) = transplant(t);
        proof {
            assert(inorder(Some(given)) =~= seq![key] + inorder(rest));
        }
        return (rest, key, short);
    }
    let (rest, key, short) = remove_min(t.left.take().unwrap());
    t.left = rest;
    proof {
        assert(inorder(Some(given)) =~= seq![key] + inorder(Some(t)));
    }
    if short {
        let (fixed, still) = fix_delete_left(t);
        (Some(fixed), key, still)
    } else {
        (Some(t), key, false)
    }
}

/// Takes the root `n` out of its subtree. If `n` has two children, the
/// least key of its right subtree takes its place. Returns what is left
/// and whether that lacks a black node.
fn remove_node<K: TotalOrder + Copy>(n: Box<Node<K>>) -> (out: (Option<Box<Node<K>>>, bool))
    requires
        balanced(Some(n)),
    ensures
        inorder(out.0) == inorder(n.left) + inorder(n.right),
        balanced(out.0),
        is_red(out.0) ==> n.color == Color::Red,
        out.1 ==> black_height(out.0) + 1 == black_height(Some(n)) && !is_red(out.0),
        !out.1 ==> black_height(out.0) == black_height(Some(n)),
{
    proof {
        reveal_with_fuel(balanced, 2);
        reveal_with_fuel(black_height, 2);
    }
    if n.has_left() && n.has_right() {
        let ghost a = inorder(n.left);
        let ghost b = inorder(n.right);
        let mut n = n;
        let (rest, successor, short) = remove_min(n.right.take().unwrap());
        n.key = successor;
        n.right = rest;
        proof {
            assert(inorder(Some(n)) == a + seq![successor] + inorder(rest));
            assert(inorder(Some(n)) =~= a + b);
        }
        if short {
            let (fixed, still) = fix_delete_right(n);
            (Some(fixed), still)
        } else {
            (Some(n), false)
        }
    } else {
        transplant(n)
    }
}

/// A sorted sequence stays sorted when an element is taken out.
proof fn lemma_sorted_without<K: TotalOrder>(a: Seq<K>, k: K, b: Seq<K>)
    requires
        strictly_sorted(a + seq![k] + b),
    ensures
        strictly_sorted(a + b),
{
    let s = a + seq![k] + b;
    let r = a + b;
    assert forall|i: int, j: int| 0 <= i < j < r.len() implies lt(r[i], r[j]) by {
        let i2 = if i < a.len() {
            i
        } else {
            i + 1
        };
        let j2 = if j < a.len() {
            j
        } else {
            j + 1
        };
        assert(r[i] == s[i2]);
        assert(r[j] == s[j2]);
    }
}

/// A sequence whose elements are among those of a sequence below `k` is
/// below `k`.
proof fn lemma_below_subset<K: TotalOrder>(s: Seq<K>, from: Seq<K>, k: K)
    requires
        all_below(from, k),
        forall|x: K| s.contains(x) ==> from.contains(x),
    ensures
        all_below(s, k),
{
    assert forall|i: int| 0 <= i < s.len() implies lt(#[trigger] s[i], k) by {
        assert(s.contains(s[i]));
        let j = choose|j: int| 0 <= j < from.len() && from[j] == s[i];
    }
}

/// A sequence whose elements are among those of a sequence above `k` is
/// above `k`.
proof fn lemma_above_subset<K: TotalOrder>(s: Seq<K>, from: Seq<K>, k: K)
    requires
        all_above(from, k),
        forall|x: K| s.contains(x) ==> from.contains(x),
    ensures
        all_above(s, k),
{
    assert forall|i: int| 0 <= i < s.len() implies lt(k, #[trigger] s[i]) by {
        assert(s.contains(s[i]));
        let j = choose|j: int| 0 <= j < from.len() && from[j] == s[i];
    }
}

/// Takes `key` out of the subtree `t` if it is there. Returns what is
/// left, the key that was taken out, and whether what is left lacks a
/// black node.
fn delete_at<K: TotalOrder + Copy>(t: Option<Box<Node<K>>>, key: &K) -> (out: (
    Option<Box<Node<K>>>,
    Option<K>,
    bool,
))
    requires
        balanced(t),
        strictly_sorted(inorder(t)),
    ensures
        out.1 == (if inorder(t).contains(*key) {
            Some(*key)
        } else {
            None
        }),
        strictly_sorted(inorder(out.0)),
        forall|x: K| inorder(out.0).contains(x) <==> inorder(t).contains(x) && x != *key,
        balanced(out.0),
        is_red(out.0) ==> is_red(t),
        out.2 ==> black_height(out.0) + 1 == black_height(t) && !is_red(out.0),
        !out.2 ==> black_height(out.0) == black_height(t),
        out.1 is None ==> out.0 == t && !out.2,
    decreases t,
{
    proof {
        reveal_with_fuel(inorder, 2);
        reveal_with_fuel(balanced, 2);
        reveal_with_fuel(black_height, 2);
    }
    let mut n = match t {
        None => {
            return (None, None, false);
        },
        Some(n) => n,
    };
    let ghost a = inorder(n.left);
    let ghost b = inorder(n.right);
    let ghost k = n.key;
    proof {
        assert(inorder(t) == a + seq![k] + b);
        lemma_sorted_parts(a, k, b);
        lemma_lt_total(*key, k);
        K::le_total(*key, *key);
        lemma_join_contains(a, k, b, *key);
        lemma_below_excludes(a, k, k);
        lemma_above_excludes(b, k, k);
    }
    if key.compare_le(&n.key) {
        if n.key.compare_le(key) {
            proof {
                K::le_antisymmetric(*key, k);
            }
            let found = n.key;
            let (rest, short) = remove_node(n);
            proof {
                lemma_sorted_without(a, k, b);
                assert forall|x: K|
                    inorder(rest).contains(x) <==> inorder(t).contains(x) && x != *key by {
                    lemma_join_contains(a, k, b, x);
                    vstd::seq_lib::lemma_seq_concat_contains_all_elements(a, b, x);
                }
            }
            (rest, Some(found), short)
        } else {
            let (rest, found, short) = delete_at(n.left.take(), key);
            n.left = rest;
            proof {
                let a2 = inorder(rest);
                lemma_below_subset(a2, a, k);
                lemma_sorted_join(a2, k, b);
                lemma_above_excludes(b, k, *key);
                assert(inorder(Some(n)) == a2 + seq![k] + b);
                assert forall|x: K|
                    inorder(Some(n)).contains(x) <==> inorder(t).contains(x) && x != *key by {
                    lemma_join_contains(a2, k, b, x);
                    lemma_join_contains(a, k, b, x);
                }
            }
            if short {
                let (fixed, still) = fix_delete_left(n);
                (Some(fixed), found, still)
            } else {
                (Some(n), found, false)
            }
        }
    } else {
        let (rest, found, short) = delete_at(n.right.take(), key);
        n.right = rest;
        proof {
            let b2 = inorder(rest);
            lemma_above_subset(b2, b, k);
            lemma_sorted_join(a, k, b2);
            lemma_below_excludes(a, k, *key);
            assert(inorder(Some(n)) == a + seq![k] + b2);
            assert forall|x: K|
                inorder(Some(n)).contains(x) <==> inorder(t).contains(x) && x != *key by {
                lemma_join_contains(a, k, b2, x);
                lemma_join_contains(a, k, b, x);
            }
        }
        if short {
            let (fixed, still) = fix_delete_right(n);
            (Some(fixed), found, still)
        } else {
            (Some(n), found, false)
        }
    }
}

/// Appends the keys of `t` to `out` from left to right.
fn inorder_into<K: TotalOrder + Copy>(t: &Option<Box<Node<K>>>, out: &mut Vec<K>)
    ensures
        final(out)@ == old(out)@ + inorder(*t),
    decreases *t,
{
    match t {
        None => {
            assert(old(out)@ + inorder(*t) =~= old(out)@);
        },
        Some(n) => {
            inorder_into(&n.left, out);
            out.push(n.key);
            inorder_into(&n.right, out);
            assert(out@ =~= old(out)@ + inorder(*t));
        },
    }
}

/// Appends the keys of `t` to `out`, every node before its subtrees.
fn preorder_into<K: TotalOrder + Copy>(t: &Option<Box<Node<K>>>, out: &mut Vec<K>)
    ensures
        final(out)@ == old(out)@ + preorder(*t),
    decreases *t,
{
    match t {
        None => {
            assert(old(out)@ + preorder(*t) =~= old(out)@);
        },
        Some(n) => {
            out.push(n.key);
            preorder_into(&n.left, out);
            preorder_into(&n.right, out);
            assert(out@ =~= old(out)@ + preorder(*t));
        },
    }
}

/// A tree holds the same keys in either order of traversal.
proof fn lemma_preorder_permutes<K>(t: Option<Box<Node<K>>>)
    ensures
        preorder(t).to_multiset() == inorder(t).to_multiset(),
    decreases t,
{
    broadcast use vstd::multiset::group_multiset_axioms;

    match t {
        None => {},
        Some(n) => {
            lemma_preorder_permutes(n.left);
            lemma_preorder_permutes(n.right);
            let a = inorder(n.left);
            let b = inorder(n.right);
            let pa = preorder(n.left);
            let pb = preorder(n.right);
            let one = seq![n.key];
            vstd::seq_lib::lemma_multiset_commutative(a + one, b);
            vstd::seq_lib::lemma_multiset_commutative(a, one);
            vstd::seq_lib::lemma_multiset_commutative(one + pa, pb);
            vstd::seq_lib::lemma_multiset_commutative(one, pa);
            assert(preorder(t).to_multiset() =~= inorder(t).to_multiset());
        },
    }
}

impl<K: TotalOrder + Copy> RbTree<K> {
    /// The keys of the tree in ascending order.
    pub closed spec fn view(&self) -> Seq<K> {
        inorder(self.root)
    }

    /// The keys of the tree, every node before its subtrees, the left
    /// subtree before the right.
    pub closed spec fn preorder(&self) -> Seq<K> {
        preorder(self.root)
    }

    /// The colours balance the tree, and its root is black.
    pub closed spec fn red_black(&self) -> bool {
        balanced(self.root) && !is_red(self.root)
    }

    /// The keys are in strictly ascending order and the tree is balanced.
    pub open spec fn wf(&self) -> bool {
        strictly_sorted(self@) && self.red_black()
    }

    /// The number of nodes on the longest path from the root down.
    pub closed spec fn height(&self) -> nat {
        height(self.root)
    }

    /// The number of black nodes on every path from the root down.
    pub closed spec fn black_height(&self) -> nat {
        black_height(self.root)
    }

    /// A balanced tree is low: its height is at most twice its black
    /// height, and two to the black height is at most the number of keys
    /// plus one. So the height is at most twice the binary logarithm of
    /// the number of keys plus one.
    pub proof fn lemma_height(&self)
        requires
            self.wf(),
        ensures
            self.height() <= 2 * self.black_height(),
            pow2(self.black_height()) <= self@.len() + 1,
    {
        lemma_balanced_is_low(self.root);
    }

    /// The empty tree.
    pub fn new() -> (tree: Self)
        ensures
            tree.wf(),
            tree@ == Seq::<K>::empty(),
    {
        RbTree { root: None }
    }

    /// Whether the tree holds no key.
    pub fn is_empty(&self) -> (r: bool)
        ensures
            r == (self@.len() == 0),
    {
        self.root.is_none()
    }

    /// Removes every key.
    pub fn clear(&mut self)
        ensures
            final(self).wf(),
            final(self)@ == Seq::<K>::empty(),
    {
        self.root = None;
    }

    /// The keys in ascending order.
    pub fn inorder_traverse(&self) -> (result: Vec<K>)
        ensures
            result@ == self@,
    {
        let mut result: Vec<K> = Vec::new();
        inorder_into(&self.root, &mut result);
        assert(Seq::<K>::empty() + inorder(self.root) =~= inorder(self.root));
        result
    }

    /// The keys in the order of the nodes, every node before its
    /// subtrees: a rearrangement of the keys in ascending order.
    pub fn preorder_tranverse(&self) -> (result: Vec<K>)
        ensures
            result@ == self.preorder(),
            result@.to_multiset() == self@.to_multiset(),
    {
        let mut result: Vec<K> = Vec::new();
        preorder_into(&self.root, &mut result);
        proof {
            assert(Seq::<K>::empty() + preorder(self.root) =~= preorder(self.root));
            lemma_preorder_permutes(self.root);
        }
        result
    }

    /// Adds `key` to the tree unless it is there, and says whether it was
    /// added.
    pub fn insert(&mut self, key: K) -> (added: bool)
        requires
            old(self).wf(),
        ensures
            final(self).wf(),
            added == !old(self)@.contains(key),
            forall|x: K| final(self)@.contains(x) <==> old(self)@.contains(x) || x == key,
            final(self)@.to_set() == old(self)@.to_set().insert(key),
            !added ==> *final(self) == *old(self),
    {
        proof {
            reveal_with_fuel(inorder, 2);
            reveal_with_fuel(balanced, 2);
        }
        let (root, added) = insert_at(self.root.take(), key);
        let mut root = root;
        let ghost before = inorder(Some(root));
        root.color = Color::Black;
        self.root = Some(root);
        proof {
            assert(self@ == before);
            assert(self@.to_set() =~= old(self)@.to_set().insert(key));
        }
        added
    }

    /// Takes `key` out of the tree if it is there, and returns it.
    pub fn delete(&mut self, key: &K) -> (found: Option<K>)
        requires
            old(self).wf(),
        ensures
            final(self).wf(),
            found == (if old(self)@.contains(*key) {
                Some(*key)
            } else {
                None
            }),
            forall|x: K| final(self)@.contains(x) <==> old(self)@.contains(x) && x != *key,
            final(self)@.to_set() == old(self)@.to_set().remove(*key),
            found is None ==> *final(self) == *old(self),
    {
        let (root, found, _) = delete_at(self.root.take(), key);
        self.root = root;
        proof {
            assert(self@.to_set() =~= old(self)@.to_set().remove(*key));
        }
        found
    }
}

} // verus!
