//! The order that a priority queue sorts its elements by.

use vstd::prelude::*;

verus! {

/// A type whose values are totally ordered by `le`.
///
/// The proof functions are the laws of a total order; `compare_le` is the
/// executable test that agrees with `le`.
pub trait TotalOrder: Sized {
    /// `self` comes no later than `other`.
    spec fn le(self, other: Self) -> bool;

    /// Decides `le` at run time.
    fn compare_le(&self, other: &Self) -> (r: bool)
        ensures
            r == self.le(*other),
    ;

    /// Any two values are comparable.
    proof fn le_total(a: Self, b: Self)
        ensures
            a.le(b) || b.le(a),
    ;

    /// `le` is transitive.
    proof fn le_transitive(a: Self, b: Self, c: Self)
        requires
            a.le(b),
            b.le(c),
        ensures
            a.le(c),
    ;

    /// Two values that precede each other are the same value.
    proof fn le_antisymmetric(a: Self, b: Self)
        requires
            a.le(b),
            b.le(a),
        ensures
            a == b,
    ;
}

/// No element of `s` is followed by one that strictly precedes it.
pub open spec fn sorted<T: TotalOrder>(s: Seq<T>) -> bool {
    forall|i: int, j: int| 0 <= i <= j < s.len() ==> s[i].le(s[j])
}

/// `a` comes before `b` and is not `b`.
pub open spec fn lt<T: TotalOrder>(a: T, b: T) -> bool {
    a.le(b) && a != b
}

/// Every element of `s` strictly precedes the elements after it.
pub open spec fn strictly_sorted<T: TotalOrder>(s: Seq<T>) -> bool {
    forall|i: int, j: int| 0 <= i < j < s.len() ==> lt(s[i], s[j])
}

/// Every element of `s` strictly precedes `k`.
pub open spec fn all_below<T: TotalOrder>(s: Seq<T>, k: T) -> bool {
    forall|i: int| 0 <= i < s.len() ==> lt(#[trigger] s[i], k)
}

/// `k` strictly precedes every element of `s`.
pub open spec fn all_above<T: TotalOrder>(s: Seq<T>, k: T) -> bool {
    forall|i: int| 0 <= i < s.len() ==> lt(k, #[trigger] s[i])
}

/// Strict precedence is transitive.
pub proof fn lemma_lt_transitive<T: TotalOrder>(a: T, b: T, c: T)
    requires
        lt(a, b),
        lt(b, c),
    ensures
        lt(a, c),
{
    T::le_transitive(a, b, c);
    if a == c {
        T::le_antisymmetric(a, b);
    }
}

/// Of two different values one strictly precedes the other.
pub proof fn lemma_lt_total<T: TotalOrder>(a: T, b: T)
    ensures
        lt(a, b) || a == b || lt(b, a),
        !(lt(a, b) && lt(b, a)),
{
    T::le_total(a, b);
    if a.le(b) && b.le(a) {
        T::le_antisymmetric(a, b);
    }
}

/// Sorted sequences on either side of a value that lies between them
/// make one sorted sequence.
pub proof fn lemma_sorted_join<T: TotalOrder>(a: Seq<T>, k: T, b: Seq<T>)
    requires
        strictly_sorted(a),
        strictly_sorted(b),
        all_below(a, k),
        all_above(b, k),
    ensures
        strictly_sorted(a + seq![k] + b),
{
    let s = a + seq![k] + b;
    assert forall|i: int, j: int| 0 <= i < j < s.len() implies lt(s[i], s[j]) by {
        if j < a.len() {
            assert(s[i] == a[i] && s[j] == a[j]);
        } else if j == a.len() {
            assert(s[i] == a[i] && s[j] == k);
        } else {
            assert(s[j] == b[j - a.len() - 1]);
            if i < a.len() {
                assert(s[i] == a[i]);
                lemma_lt_transitive(a[i], k, s[j]);
            } else if i == a.len() {
                assert(s[i] == k);
            } else {
                assert(s[i] == b[i - a.len() - 1]);
            }
        }
    }
}

/// The parts of a sorted sequence are sorted, and lie on either side of
/// the element between them.
pub proof fn lemma_sorted_parts<T: TotalOrder>(a: Seq<T>, k: T, b: Seq<T>)
    requires
        strictly_sorted(a + seq![k] + b),
    ensures
        strictly_sorted(a),
        strictly_sorted(b),
        all_below(a, k),
        all_above(b, k),
{
    let s = a + seq![k] + b;
    let n = a.len() as int;
    assert(s[n] == k);
    assert forall|i: int, j: int| 0 <= i < j < a.len() implies lt(a[i], a[j]) by {
        assert(s[i] == a[i] && s[j] == a[j]);
    }
    assert forall|i: int, j: int| 0 <= i < j < b.len() implies lt(b[i], b[j]) by {
        assert(s[i + n + 1] == b[i] && s[j + n + 1] == b[j]);
    }
    assert forall|i: int| 0 <= i < a.len() implies lt(#[trigger] a[i], k) by {
        assert(s[i] == a[i]);
    }
    assert forall|i: int| 0 <= i < b.len() implies lt(k, #[trigger] b[i]) by {
        assert(s[i + n + 1] == b[i]);
    }
}

impl TotalOrder for u8 {
    open spec fn le(self, other: Self) -> bool {
        self <= other
    }

    fn compare_le(&self, other: &Self) -> (r: bool) {
        *self <= *other
    }

    proof fn le_total(a: Self, b: Self) {
    }

    proof fn le_transitive(a: Self, b: Self, c: Self) {
    }

    proof fn le_antisymmetric(a: Self, b: Self) {
    }
}

impl TotalOrder for u16 {
    open spec fn le(self, other: Self) -> bool {
        self <= other
    }

    fn compare_le(&self, other: &Self) -> (r: bool) {
        *self <= *other
    }

    proof fn le_total(a: Self, b: Self) {
    }

    proof fn le_transitive(a: Self, b: Self, c: Self) {
    }

    proof fn le_antisymmetric(a: Self, b: Self) {
    }
}

impl TotalOrder for u32 {
    open spec fn le(self, other: Self) -> bool {
        self <= other
    }

    fn compare_le(&self, other: &Self) -> (r: bool) {
        *self <= *other
    }

    proof fn le_total(a: Self, b: Self) {
    }

    proof fn le_transitive(a: Self, b: Self, c: Self) {
    }

    proof fn le_antisymmetric(a: Self, b: Self) {
    }
}

impl TotalOrder for u64 {
    open spec fn le(self, other: Self) -> bool {
        self <= other
    }

    fn compare_le(&self, other: &Self) -> (r: bool) {
        *self <= *other
    }

    proof fn le_total(a: Self, b: Self) {
    }

    proof fn le_transitive(a: Self, b: Self, c: Self) {
    }

    proof fn le_antisymmetric(a: Self, b: Self) {
    }
}

impl TotalOrder for u128 {
    open spec fn le(self, other: Self) -> bool {
        self <= other
    }

    fn compare_le(&self, other: &Self) -> (r: bool) {
        *self <= *other
    }

    proof fn le_total(a: Self, b: Self) {
    }

    proof fn le_transitive(a: Self, b: Self, c: Self) {
    }

    proof fn le_antisymmetric(a: Self, b: Self) {
    }
}

impl TotalOrder for usize {
    open spec fn le(self, other: Self) -> bool {
        self <= other
    }

    fn compare_le(&self, other: &Self) -> (r: bool) {
        *self <= *other
    }

    proof fn le_total(a: Self, b: Self) {
    }

    proof fn le_transitive(a: Self, b: Self, c: Self) {
    }

    proof fn le_antisymmetric(a: Self, b: Self) {
    }
}

impl TotalOrder for i8 {
    open spec fn le(self, other: Self) -> bool {
        self <= other
    }

    fn compare_le(&self, other: &Self) -> (r: bool) {
        *self <= *other
    }

    proof fn le_total(a: Self, b: Self) {
    }

    proof fn le_transitive(a: Self, b: Self, c: Self) {
    }

    proof fn le_antisymmetric(a: Self, b: Self) {
    }
}

impl TotalOrder for i16 {
    open spec fn le(self, other: Self) -> bool {
        self <= other
    }

    fn compare_le(&self, other: &Self) -> (r: bool) {
        *self <= *other
    }

    proof fn le_total(a: Self, b: Self) {
    }

    proof fn le_transitive(a: Self, b: Self, c: Self) {
    }

    proof fn le_antisymmetric(a: Self, b: Self) {
    }
}

impl TotalOrder for i32 {
    open spec fn le(self, other: Self) -> bool {
        self <= other
    }

    fn compare_le(&self, other: &Self) -> (r: bool) {
        *self <= *other
    }

    proof fn le_total(a: Self, b: Self) {
    }

    proof fn le_transitive(a: Self, b: Self, c: Self) {
    }

    proof fn le_antisymmetric(a: Self, b: Self) {
    }
}

impl TotalOrder for i64 {
    open spec fn le(self, other: Self) -> bool {
        self <= other
    }

    fn compare_le(&self, other: &Self) -> (r: bool) {
        *self <= *other
    }

    proof fn le_total(a: Self, b: Self) {
    }

    proof fn le_transitive(a: Self, b: Self, c: Self) {
    }

    proof fn le_antisymmetric(a: Self, b: Self) {
    }
}

impl TotalOrder for i128 {
    open spec fn le(self, other: Self) -> bool {
        self <= other
    }

    fn compare_le(&self, other: &Self) -> (r: bool) {
        *self <= *other
    }

    proof fn le_total(a: Self, b: Self) {
    }

    proof fn le_transitive(a: Self, b: Self, c: Self) {
    }

    proof fn le_antisymmetric(a: Self, b: Self) {
    }
}

impl TotalOrder for isize {
    open spec fn le(self, other: Self) -> bool {
        self <= other
    }

    fn compare_le(&self, other: &Self) -> (r: bool) {
        *self <= *other
    }

    proof fn le_total(a: Self, b: Self) {
    }

    proof fn le_transitive(a: Self, b: Self, c: Self) {
    }

    proof fn le_antisymmetric(a: Self, b: Self) {
    }
}

} // verus!
