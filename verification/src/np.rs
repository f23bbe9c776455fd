//! Brute-force deciders for small instances of three hard problems:
//! satisfiability of a formula in conjunctive normal form, and the
//! existence of a clique or of an independent set of a given size in a
//! graph; with the two textbook-style reductions from formulas to graphs.

use vstd::prelude::*;
use vstd::arithmetic::power2::{
    lemma2_to64,
    lemma_pow2_pos,
    lemma_pow2_strictly_increases,
    lemma_pow2_unfold,
    pow2,
};
use std::collections::HashMap;

verus! {

/// The number that `bits` spell in binary, least significant bit first.
pub open spec fn number(bits: Seq<bool>) -> nat
    decreases bits.len(),
{
    if bits.len() == 0 {
        0
    } else {
        (if bits[0] {
            1nat
        } else {
            0nat
        }) + 2 * number(bits.drop_first())
    }
}

/// What `bits` become when one is added to their number: a bit flips
/// exactly if all bits below it are set. Adding one to all ones gives all
/// zeros.
pub open spec fn successor(bits: Seq<bool>) -> Seq<bool> {
    Seq::new(bits.len(), |i: int| bits[i] != (forall|j: int| 0 <= j < i ==> bits[j]))
}

/// The number of `bits` is below two to their count.
pub proof fn lemma_number_bound(bits: Seq<bool>)
    ensures
        number(bits) < pow2(bits.len()),
    decreases bits.len(),
{
    if bits.len() == 0 {
        lemma_pow2_pos(0);
    } else {
        lemma_number_bound(bits.drop_first());
        lemma_pow2_unfold(bits.len());
    }
}

/// Bits are determined by their count and their number.
pub proof fn lemma_number_injective(a: Seq<bool>, b: Seq<bool>)
    requires
        a.len() == b.len(),
        number(a) == number(b),
    ensures
        a == b,
    decreases a.len(),
{
    if a.len() > 0 {
        lemma_number_injective(a.drop_first(), b.drop_first());
        assert(a =~= seq![a[0]] + a.drop_first());
        assert(b =~= seq![b[0]] + b.drop_first());
    }
    assert(a =~= b);
}

/// The successor spells the next number, and zero after the last.
pub proof fn lemma_successor_number(bits: Seq<bool>)
    ensures
        successor(bits).len() == bits.len(),
        number(successor(bits)) == ((number(bits) + 1) as int) % (pow2(bits.len()) as int),
    decreases bits.len(),
{
    let next = successor(bits);
    if bits.len() == 0 {
        lemma2_to64();
    } else {
        let rest = bits.drop_first();
        lemma_number_bound(bits);
        lemma_number_bound(rest);
        lemma_pow2_unfold(bits.len());
        lemma_pow2_pos((bits.len() - 1) as nat);
        if bits[0] {
            lemma_successor_number(rest);
            assert(next.drop_first() =~= successor(rest)) by {
                assert forall|i: int| 0 <= i < rest.len() implies next.drop_first()[i] == successor(
                    rest,
                )[i] by {
                    let lower_all = forall|j: int| 0 <= j < i + 1 ==> bits[j];
                    let lower_rest = forall|j: int| 0 <= j < i ==> rest[j];
                    if lower_rest {
                        assert forall|j: int| 0 <= j < i + 1 implies bits[j] by {
                            if j > 0 {
                                assert(rest[j - 1]);
                            }
                        }
                    }
                    if lower_all {
                        assert forall|j: int| 0 <= j < i implies rest[j] by {
                            assert(bits[j + 1]);
                        }
                    }
                }
            }
            assert(!next[0]);
            let half = pow2((bits.len() - 1) as nat) as int;
            vstd::arithmetic::div_mod::lemma_truncate_middle((number(rest) + 1) as int, 2, half);
        } else {
            assert(next.drop_first() =~= rest) by {
                assert forall|i: int| 0 <= i < rest.len() implies next.drop_first()[i] == rest[i] by {
                    assert(!bits[0]);
                }
            }
            assert(next[0]);
            vstd::arithmetic::div_mod::lemma_small_mod(
                (number(bits) + 1) as nat,
                pow2(bits.len()),
            );
        }
    }
}

/// An assignment of truth values to the variables `1`, `2`, ... of a
/// formula: variable `i` has the value at index `i - 1`.
pub struct Statement {
    binary: Vec<bool>,
}

impl Statement {
    /// The truth values, in the order of the variables.
    pub closed spec fn view(&self) -> Seq<bool> {
        self.binary@
    }

    /// The statement that makes each of `len` variables false.
    pub fn new(len: usize) -> (s: Self)
        requires
            len <= 24,
        ensures
            s@ == Seq::new(len as nat, |i: int| false),
            number(s@) == 0,
    {
        let mut binary: Vec<bool> = Vec::new();
        let mut i: usize = 0;
        while i < len
            invariant
                i <= len,
                binary@ == Seq::new(i as nat, |j: int| false),
            decreases len - i,
        {
            binary.push(false);
            assert(binary@ =~= Seq::new((i + 1) as nat, |j: int| false));
            i = i + 1;
        }
        proof {
            lemma_all_false_is_zero(binary@);
        }
        Statement { binary }
    }

    /// Replaces the truth values by `binary`, which gives a value to the
    /// same number of variables.
    pub fn set(&mut self, binary: Vec<bool>) -> (r: &Self)
        requires
            binary@.len() == old(self)@.len(),
        ensures
            final(self)@ == binary@,
            r@ == binary@,
    {
        self.binary = binary;
        self
    }

    /// The truth values, in the order of the variables.
    pub fn values(&self) -> (r: Vec<bool>)
        ensures
            r@ == self@,
    {
        let mut r: Vec<bool> = Vec::new();
        let mut i: usize = 0;
        while i < self.binary.len()
            invariant
                i <= self.binary@.len(),
                r@ == self.binary@.take(i as int),
            decreases self.binary@.len() - i,
        {
            r.push(self.binary[i]);
            assert(r@ =~= self.binary@.take(i + 1));
            i = i + 1;
        }
        assert(self.binary@.take(i as int) =~= self.binary@);
        r
    }

    /// The number of variables that have a value.
    pub fn len(&self) -> (n: usize)
        ensures
            n == self@.len(),
    {
        self.binary.len()
    }

    /// Steps to the next statement in the order of the numbers that the
    /// truth values spell in binary, and from the last one to the first.
    pub fn increment(&mut self)
        ensures
            final(self)@ == successor(old(self)@),
            final(self)@.len() == old(self)@.len(),
            number(final(self)@) == ((number(old(self)@) + 1) as int) % (pow2(
                old(self)@.len(),
            ) as int),
    {
        let mut i: usize = 0;
        while i < self.binary.len()
            invariant_except_break
                i <= self.binary@.len(),
                forall|j: int| 0 <= j < i ==> old(self).binary@[j] && !self.binary@[j],
                forall|j: int| i <= j < self.binary@.len() ==> self.binary@[j] == old(self).binary@[j],
            invariant
                self.binary@.len() == old(self).binary@.len(),
            ensures
                self.binary@ =~= successor(old(self).binary@),
            decreases self.binary@.len() - i,
        {
            if !self.binary[i] {
                self.binary[i] = true;
                proof {
                    assert forall|x: int| 0 <= x < self.binary@.len() implies self.binary@[x]
                        == successor(old(self).binary@)[x] by {
                        if x > i {
                            assert(!old(self).binary@[i as int]);
                        }
                    }
                }
                break ;
            }
            self.binary[i] = false;
            i = i + 1;
        }
        proof {
            lemma_successor_number(old(self).binary@);
        }
    }
}

/// Bits that are all zero spell zero.
proof fn lemma_all_false_is_zero(bits: Seq<bool>)
    requires
        forall|i: int| 0 <= i < bits.len() ==> !bits[i],
    ensures
        number(bits) == 0,
    decreases bits.len(),
{
    if bits.len() > 0 {
        lemma_all_false_is_zero(bits.drop_first());
    }
}

/// The rows of a matrix as sequences.
pub open spec fn rows<T>(matrix: Seq<Vec<T>>) -> Seq<Seq<T>> {
    Seq::new(matrix.len(), |i: int| matrix[i]@)
}

/// The absolute value of `x`.
pub open spec fn abs(x: int) -> int {
    if x < 0 {
        -x
    } else {
        x
    }
}

/// Some entry of `matrix` has the absolute value `a`.
pub open spec fn occurs(matrix: Seq<Seq<i32>>, a: int) -> bool {
    exists|i: int, j: int|
        0 <= i < matrix.len() && 0 <= j < matrix[i].len() && abs(#[trigger] matrix[i][j] as int)
            == a
}

/// How many of the numbers from zero up to, and without, `a` occur in
/// `matrix` as absolute values.
pub open spec fn rank(matrix: Seq<Seq<i32>>, a: int) -> nat
    decreases a,
{
    if a <= 0 {
        0
    } else {
        rank(matrix, a - 1) + (if occurs(matrix, a - 1) {
            1nat
        } else {
            0nat
        })
    }
}

/// The entry `x` of `matrix` after its variables have been numbered from
/// one on in the order of their absolute values: the sign is kept.
pub open spec fn renumbered(matrix: Seq<Seq<i32>>, x: int) -> int {
    let n = (rank(matrix, abs(x)) + 1) as int;
    if x < 0 {
        -n
    } else {
        n
    }
}

/// The number of entries of `matrix`.
pub open spec fn entries(matrix: Seq<Seq<i32>>) -> nat
    decreases matrix.len(),
{
    if matrix.len() == 0 {
        0
    } else {
        entries(matrix.drop_last()) + matrix.last().len()
    }
}

/// The literal `x` is true under the truth values `a`: a positive `x`
/// stands for the variable `x`, a negative one for the negation of `-x`.
pub open spec fn literal_holds(x: int, a: Seq<bool>) -> bool {
    (x > 0 && a[x - 1]) || (x < 0 && !a[-x - 1])
}

/// Some literal of `clause` is true under `a`.
pub open spec fn clause_holds(clause: Seq<i32>, a: Seq<bool>) -> bool {
    exists|j: int| 0 <= j < clause.len() && literal_holds(#[trigger] clause[j] as int, a)
}

/// Every clause is true under `a`.
pub open spec fn satisfies(clauses: Seq<Seq<i32>>, a: Seq<bool>) -> bool {
    forall|i: int| 0 <= i < clauses.len() ==> clause_holds(#[trigger] clauses[i], a)
}

/// Some truth values for `n` variables make every clause true.
pub open spec fn satisfiable(clauses: Seq<Seq<i32>>, n: nat) -> bool {
    exists|a: Seq<bool>| a.len() == n && #[trigger] satisfies(clauses, a)
}

/// How many of the first `n` flags are set.
spec fn count_set(flags: Seq<bool>, n: int) -> nat
    decreases n,
{
    if n <= 0 {
        0
    } else {
        count_set(flags, n - 1) + (if flags[n - 1] {
            1nat
        } else {
            0nat
        })
    }
}

/// Setting a flag that was clear raises the count of set flags by one.
proof fn lemma_count_set_update(flags: Seq<bool>, a: int, n: int)
    requires
        0 <= a < flags.len(),
        0 <= n <= flags.len(),
    ensures
        count_set(flags.update(a, true), n) == count_set(flags, n) + (if a < n && !flags[a] {
            1nat
        } else {
            0nat
        }),
    decreases n,
{
    if n > 0 {
        lemma_count_set_update(flags, a, n - 1);
    }
}

/// The rank grows with its bound, by one at a value that occurs.
proof fn lemma_rank_monotonic(matrix: Seq<Seq<i32>>, a: int, b: int)
    requires
        a <= b,
    ensures
        rank(matrix, a) <= rank(matrix, b),
        a < b && 0 <= a && occurs(matrix, a) ==> rank(matrix, a) < rank(matrix, b),
    decreases b - a,
{
    if a < b {
        lemma_rank_monotonic(matrix, a, b - 1);
    }
}

/// A formula in conjunctive normal form over the variables `1`, `2`, ...
/// A clause is a list of literals; the literal `-i` negates variable `i`.
pub struct CNF {
    formula: Vec<Vec<i32>>,
    num_variables: usize,
}

impl CNF {
    /// The clauses of the formula.
    pub closed spec fn clauses(&self) -> Seq<Seq<i32>> {
        rows(self.formula@)
    }

    /// The number of variables of the formula.
    pub closed spec fn spec_num_variables(&self) -> nat {
        self.num_variables as nat
    }

    /// Every literal names one of the variables, of which there are few
    /// enough to try all their values.
    pub open spec fn wf(&self) -> bool {
        &&& self.spec_num_variables() <= 24
        &&& forall|i: int, j: int|
            0 <= i < self.clauses().len() && 0 <= j < self.clauses()[i].len() ==> 1 <= abs(
                #[trigger] self.clauses()[i][j] as int,
            ) <= self.spec_num_variables()
    }

    /// The formula with the clauses of `new_formula`, its variables
    /// numbered anew from one on without gaps.
    pub fn new(new_formula: Vec<Vec<i32>>) -> (cnf: Self)
        requires
            new_formula@.len() < 8,
            forall|i: int| 0 <= i < new_formula@.len() ==> (#[trigger] new_formula@[i])@.len() == 3,
            forall|i: int, j: int|
                0 <= i < new_formula@.len() && 0 <= j < new_formula@[i]@.len() ==> abs(
                    #[trigger] new_formula@[i]@[j] as int,
                ) <= 24,
        ensures
            cnf.wf(),
            cnf.spec_num_variables() == rank(rows(new_formula@), 25),
            cnf.clauses().len() == new_formula@.len(),
            forall|i: int|
                0 <= i < new_formula@.len() ==> (#[trigger] cnf.clauses()[i]).len()
                    == new_formula@[i]@.len(),
            forall|i: int, j: int|
                0 <= i < new_formula@.len() && 0 <= j < new_formula@[i]@.len()
                    ==> #[trigger] cnf.clauses()[i][j] == renumbered(
                    rows(new_formula@),
                    new_formula@[i]@[j] as int,
                ),
    {
        let ghost given = rows(new_formula@);
        proof {
            lemma_entries_bound(given, 3);
        }
        let (formula, num_variables) = Self::normalize_matrix(new_formula);
        let cnf = CNF { formula, num_variables };
        proof {
            assert forall|i: int, j: int|
                0 <= i < cnf.clauses().len() && 0 <= j < cnf.clauses()[i].len() implies 1 <= abs(
                #[trigger] cnf.clauses()[i][j] as int,
            ) <= cnf.spec_num_variables() by {
                let x = given[i][j] as int;
                assert(cnf.clauses()[i][j] == renumbered(given, x));
                assert(occurs(given, abs(x)));
                lemma_rank_monotonic(given, abs(x), 25);
            }
        }
        cnf
    }

    /// Numbers the variables of `matrix` anew: the absolute values that
    /// occur get the numbers from one on in ascending order, and every
    /// entry keeps its sign. Returns the new matrix and the number of
    /// variables.
    pub fn normalize_matrix(matrix: Vec<Vec<i32>>) -> (out: (Vec<Vec<i32>>, usize))
        requires
            forall|i: int, j: int|
                0 <= i < matrix@.len() && 0 <= j < matrix@[i]@.len() ==> abs(
                    #[trigger] matrix@[i]@[j] as int,
                ) <= 24,
        ensures
            out.1 == rank(rows(matrix@), 25),
            out.1 <= entries(rows(matrix@)),
            out.0@.len() == matrix@.len(),
            forall|i: int| 0 <= i < matrix@.len() ==> (#[trigger] out.0@[i])@.len() == matrix@[i]@.len(),
            forall|i: int, j: int|
                0 <= i < matrix@.len() && 0 <= j < matrix@[i]@.len() ==> #[trigger] out.0@[i]@[j]
                    == renumbered(rows(matrix@), matrix@[i]@[j] as int),
    {
        let ghost given = rows(matrix@);
        let mut seen: Vec<bool> = Vec::new();
        while seen.len() < 25
            invariant
                seen@.len() <= 25,
                forall|a: int| 0 <= a < seen@.len() ==> !seen@[a],
            decreases 25 - seen@.len(),
        {
            seen.push(false);
        }
        proof {
            lemma_count_set_none(seen@, 25);
        }
        let mut i: usize = 0;
        while i < matrix.len()
            invariant
                i <= matrix@.len(),
                given == rows(matrix@),
                seen@.len() == 25,
                forall|r: int, c: int|
                    0 <= r < matrix@.len() && 0 <= c < matrix@[r]@.len() ==> abs(
                        #[trigger] matrix@[r]@[c] as int,
                    ) <= 24,
                forall|a: int|
                    0 <= a < 25 ==> (#[trigger] seen@[a] <==> exists|r: int, c: int|
                        0 <= r < i && 0 <= c < given[r].len() && abs(#[trigger] given[r][c] as int)
                            == a),
                count_set(seen@, 25) <= entries(given.take(i as int)),
            decreases matrix@.len() - i,
        {
            let mut j: usize = 0;
            while j < matrix[i].len()
                invariant
                    i < matrix@.len(),
                    j <= matrix@[i as int]@.len(),
                    given == rows(matrix@),
                    seen@.len() == 25,
                    forall|r: int, c: int|
                        0 <= r < matrix@.len() && 0 <= c < matrix@[r]@.len() ==> abs(
                            #[trigger] matrix@[r]@[c] as int,
                        ) <= 24,
                    forall|a: int|
                        0 <= a < 25 ==> (#[trigger] seen@[a] <==> (exists|r: int, c: int|
                            0 <= r < i && 0 <= c < given[r].len() && abs(
                                #[trigger] given[r][c] as int,
                            ) == a) || (exists|c: int|
                            0 <= c < j && abs(#[trigger] given[i as int][c] as int) == a)),
                    count_set(seen@, 25) <= entries(given.take(i as int)) + j,
                decreases matrix@[i as int]@.len() - j,
            {
                let val = matrix[i][j];
                proof {
                    assert(abs(matrix@[i as int]@[j as int] as int) <= 24);
                    assert(given[i as int][j as int] == val);
                }
                let a: usize = if val < 0 {
                    (-val) as usize
                } else {
                    val as usize
                };
                proof {
                    lemma_count_set_update(seen@, a as int, 25);
                }
                let ghost before = seen@;
                seen[a] = true;
                proof {
                    assert forall|b: int| 0 <= b < 25 implies (#[trigger] seen@[b] <==> (exists|
                        r: int,
                        c: int,
                    |
                        0 <= r < i && 0 <= c < given[r].len() && abs(#[trigger] given[r][c] as int)
                            == b) || (exists|c: int|
                        0 <= c < j + 1 && abs(#[trigger] given[i as int][c] as int) == b)) by {
                        if b == a {
                            assert(abs(given[i as int][j as int] as int) == b);
                        } else if exists|c: int|
                            0 <= c < j + 1 && abs(#[trigger] given[i as int][c] as int) == b {
                            let c = choose|c: int|
                                0 <= c < j + 1 && abs(#[trigger] given[i as int][c] as int) == b;
                            assert(c < j);
                            assert(before[b]);
                        } else {
                            assert(seen@[b] == before[b]);
                        }
                    }
                }
                j = j + 1;
            }
            proof {
                assert(given.take(i + 1).drop_last() =~= given.take(i as int));
                assert forall|a: int| 0 <= a < 25 implies (#[trigger] seen@[a] <==> exists|
                    r: int,
                    c: int,
                |
                    0 <= r < i + 1 && 0 <= c < given[r].len() && abs(#[trigger] given[r][c] as int)
                        == a) by {
                    if seen@[a] {
                        if exists|c: int|
                            0 <= c < j && abs(#[trigger] given[i as int][c] as int) == a {
                            let c = choose|c: int|
                                0 <= c < j && abs(#[trigger] given[i as int][c] as int) == a;
                            assert(0 <= i < i + 1 && 0 <= c < given[i as int].len() && abs(
                                given[i as int][c] as int,
                            ) == a);
                        } else {
                            let (r, c) = choose|r: int, c: int|
                                0 <= r < i && 0 <= c < given[r].len() && abs(
                                    #[trigger] given[r][c] as int,
                                ) == a;
                            assert(0 <= r < i + 1 && 0 <= c < given[r].len() && abs(
                                given[r][c] as int,
                            ) == a);
                        }
                    }
                    if exists|r: int, c: int|
                        0 <= r < i + 1 && 0 <= c < given[r].len() && abs(
                            #[trigger] given[r][c] as int,
                        ) == a {
                        let (r, c) = choose|r: int, c: int|
                            0 <= r < i + 1 && 0 <= c < given[r].len() && abs(
                                #[trigger] given[r][c] as int,
                            ) == a;
                        if r == i {
                            assert(0 <= c < j && abs(given[i as int][c] as int) == a);
                        } else {
                            assert(0 <= r < i && 0 <= c < given[r].len() && abs(
                                given[r][c] as int,
                            ) == a);
                        }
                    }
                }
            }
            i = i + 1;
        }
        proof {
            assert(given.take(i as int) =~= given);
            assert forall|a: int| 0 <= a < 25 implies (#[trigger] seen@[a] <==> occurs(given, a)) by {
                if seen@[a] {
                    let (r, c) = choose|r: int, c: int|
                        0 <= r < i && 0 <= c < given[r].len() && abs(#[trigger] given[r][c] as int)
                            == a;
                    assert(0 <= r < given.len() && 0 <= c < given[r].len() && abs(
                        given[r][c] as int,
                    ) == a);
                }
                if occurs(given, a) {
                    let (r, c) = choose|r: int, c: int|
                        0 <= r < given.len() && 0 <= c < given[r].len() && abs(
                            #[trigger] given[r][c] as int,
                        ) == a;
                    assert(0 <= r < i && 0 <= c < given[r].len() && abs(given[r][c] as int) == a);
                }
            }
        }
        let mut numbering: Vec<i32> = Vec::new();
        let mut count: usize = 0;
        let mut a: usize = 0;
        while a < 25
            invariant
                a <= 25,
                seen@.len() == 25,
                numbering@.len() == a,
                count <= a,
                count == rank(given, a as int),
                count == count_set(seen@, a as int),
                forall|b: int| 0 <= b < 25 ==> (#[trigger] seen@[b] <==> occurs(given, b)),
                forall|b: int| 0 <= b < a ==> #[trigger] numbering@[b] == rank(given, b) + 1,
            decreases 25 - a,
        {
            numbering.push((count + 1) as i32);
            if seen[a] {
                count = count + 1;
            }
            a = a + 1;
        }
        let mut out: Vec<Vec<i32>> = Vec::new();
        let mut i: usize = 0;
        while i < matrix.len()
            invariant
                i <= matrix@.len(),
                out@.len() == i,
                given == rows(matrix@),
                numbering@.len() == 25,
                forall|r: int, c: int|
                    0 <= r < matrix@.len() && 0 <= c < matrix@[r]@.len() ==> abs(
                        #[trigger] matrix@[r]@[c] as int,
                    ) <= 24,
                forall|b: int| 0 <= b < 25 ==> 1 <= #[trigger] numbering@[b] == rank(given, b) + 1,
                forall|r: int| 0 <= r < i ==> (#[trigger] out@[r])@.len() == matrix@[r]@.len(),
                forall|r: int, c: int|
                    0 <= r < i && 0 <= c < matrix@[r]@.len() ==> #[trigger] out@[r]@[c]
                        == renumbered(given, matrix@[r]@[c] as int),
            decreases matrix@.len() - i,
        {
            let mut row: Vec<i32> = Vec::new();
            let mut j: usize = 0;
            while j < matrix[i].len()
                invariant
                    i < matrix@.len(),
                    j <= matrix@[i as int]@.len(),
                    row@.len() == j,
                    given == rows(matrix@),
                    numbering@.len() == 25,
                    forall|r: int, c: int|
                        0 <= r < matrix@.len() && 0 <= c < matrix@[r]@.len() ==> abs(
                            #[trigger] matrix@[r]@[c] as int,
                        ) <= 24,
                    forall|b: int|
                        0 <= b < 25 ==> 1 <= #[trigger] numbering@[b] == rank(given, b) + 1,
                    forall|c: int|
                        0 <= c < j ==> #[trigger] row@[c] == renumbered(
                            given,
                            matrix@[i as int]@[c] as int,
                        ),
                decreases matrix@[i as int]@.len() - j,
            {
                let val = matrix[i][j];
                proof {
                    assert(abs(matrix@[i as int]@[j as int] as int) <= 24);
                }
                let normalized = if val < 0 {
                    numbering[(-val) as usize]
                } else {
                    numbering[val as usize]
                };
                row.push(if val < 0 {
                    -normalized
                } else {
                    normalized
                });
                j = j + 1;
            }
            out.push(row);
            i = i + 1;
        }
        (out, count)
    }

    /// The number of variables of the formula.
    pub fn num_variables(&self) -> (n: usize)
        ensures
            n == self.spec_num_variables(),
    {
        self.num_variables
    }

    /// Whether `statement`, which gives a value to every variable of the
    /// formula, makes every clause true.
    pub fn verify(&self, statement: &Statement) -> (r: bool)
        requires
            self.wf(),
            self.spec_num_variables() <= statement@.len(),
        ensures
            r == satisfies(self.clauses(), statement@),
    {
        let mut i: usize = 0;
        while i < self.formula.len()
            invariant
                self.wf(),
                self.spec_num_variables() <= statement@.len(),
                i <= self.formula@.len(),
                forall|r: int| 0 <= r < i ==> clause_holds(#[trigger] self.clauses()[r], statement@),
            decreases self.formula@.len() - i,
        {
            let row = &self.formula[i];
            proof {
                assert(self.clauses()[i as int] == row@);
            }
            let mut found = false;
            let mut j: usize = 0;
            while j < row.len() && !found
                invariant
                    self.wf(),
                    self.spec_num_variables() <= statement@.len(),
                    i < self.formula@.len(),
                    self.clauses()[i as int] == row@,
                    j <= row@.len(),
                    found <==> exists|c: int|
                        0 <= c < j && literal_holds(#[trigger] row@[c] as int, statement@),
                decreases row@.len() - j,
            {
                let x = row[j];
                proof {
                    assert(1 <= abs(self.clauses()[i as int][j as int] as int)
                        <= self.spec_num_variables());
                }
                if x > 0 {
                    if statement.binary[(x as usize) - 1] {
                        found = true;
                    }
                } else {
                    if !statement.binary[((-x) as usize) - 1] {
                        found = true;
                    }
                }
                proof {
                    if !found {
                        assert forall|c: int| 0 <= c < j + 1 implies !literal_holds(
                            #[trigger] row@[c] as int,
                            statement@,
                        ) by {}
                    } else {
                        assert(literal_holds(row@[j as int] as int, statement@));
                    }
                }
                j = j + 1;
            }
            if !found {
                proof {
                    assert(!clause_holds(self.clauses()[i as int], statement@));
                }
                return false;
            }
            i = i + 1;
        }
        true
    }

    /// The first statement, in the order of `Statement::increment` from
    /// all false on, that makes every clause true; `None` if there is
    /// none.
    pub fn solve(&self) -> (r: Option<Statement>)
        requires
            self.wf(),
        ensures
            match r {
                Some(s) => {
                    &&& s@.len() == self.spec_num_variables()
                    &&& satisfies(self.clauses(), s@)
                    &&& forall|a: Seq<bool>|
                        a.len() == self.spec_num_variables() && number(a) < number(s@)
                            ==> !#[trigger] satisfies(self.clauses(), a)
                },
                None => !satisfiable(self.clauses(), self.spec_num_variables()),
            },
    {
        let n = self.num_variables;
        let mut statement = Statement::new(n);
        let mut max_iter: usize = 1;
        let mut e: usize = 0;
        proof {
            lemma2_to64();
        }
        while e < n
            invariant
                e <= n <= 24,
                max_iter == pow2(e as nat),
                pow2(24) == 0x1000000,
            decreases n - e,
        {
            proof {
                lemma_pow2_unfold((e + 1) as nat);
                if e + 1 < 24 {
                    lemma_pow2_strictly_increases((e + 1) as nat, 24);
                }
            }
            max_iter = max_iter * 2;
            e = e + 1;
        }
        let mut t: usize = 0;
        while t < max_iter
            invariant
                self.wf(),
                n == self.spec_num_variables(),
                max_iter == pow2(n as nat),
                t <= max_iter,
                statement@.len() == n,
                number(statement@) == (t as int) % (max_iter as int),
                forall|a: Seq<bool>|
                    a.len() == n && number(a) < t ==> !#[trigger] satisfies(self.clauses(), a),
            decreases max_iter - t,
        {
            proof {
                vstd::arithmetic::div_mod::lemma_small_mod(t as nat, max_iter as nat);
            }
            if self.verify(&statement) {
                return Some(statement);
            }
            proof {
                assert forall|a: Seq<bool>| a.len() == n && number(a) < t + 1 implies !#[trigger] satisfies(
                    self.clauses(),
                    a,
                ) by {
                    if number(a) == t {
                        lemma_number_injective(a, statement@);
                    }
                }
                if t + 1 < max_iter {
                    vstd::arithmetic::div_mod::lemma_small_mod((t + 1) as nat, max_iter as nat);
                } else {
                    vstd::arithmetic::div_mod::lemma_mod_self_0(max_iter as int);
                }
            }
            statement.increment();
            t = t + 1;
        }
        proof {
            assert forall|a: Seq<bool>| a.len() == n implies !#[trigger] satisfies(
                self.clauses(),
                a,
            ) by {
                lemma_number_bound(a);
            }
        }
        None
    }

    /// Whether some statement makes every clause true, found by trying
    /// them all.
    pub fn result(&self) -> (r: bool)
        requires
            self.wf(),
        ensures
            r == satisfiable(self.clauses(), self.spec_num_variables()),
    {
        self.solve().is_some()
    }
}

/// No flag is set among flags that are all clear.
proof fn lemma_count_set_none(flags: Seq<bool>, n: int)
    requires
        n <= flags.len(),
        forall|a: int| 0 <= a < flags.len() ==> !flags[a],
    ensures
        count_set(flags, n) == 0,
    decreases n,
{
    if n > 0 {
        lemma_count_set_none(flags, n - 1);
    }
}

/// A matrix whose rows have `width` entries has `width` entries per row.
proof fn lemma_entries_bound(matrix: Seq<Seq<i32>>, width: nat)
    requires
        forall|i: int| 0 <= i < matrix.len() ==> (#[trigger] matrix[i]).len() == width,
    ensures
        entries(matrix) == matrix.len() * width,
    decreases matrix.len(),
{
    if matrix.len() > 0 {
        lemma_entries_bound(matrix.drop_last(), width);
        assert(matrix.len() * width == (matrix.len() - 1) * width + width) by (nonlinear_arith);
    } else {
        assert(matrix.len() * width == 0) by (nonlinear_arith)
            requires
                matrix.len() == 0,
        ;
    }
}

/// No two of `nodes`, taken in their order, are related in `relation`.
pub open spec fn is_indset(relation: Seq<Seq<usize>>, nodes: Seq<usize>) -> bool {
    forall|i: int, j: int|
        0 <= i < j < nodes.len() ==> relation[nodes[i] as int][nodes[j] as int] == 0
}

/// Any two of `nodes`, taken in their order, are related in `relation`.
pub open spec fn is_clique(relation: Seq<Seq<usize>>, nodes: Seq<usize>) -> bool {
    forall|i: int, j: int|
        0 <= i < j < nodes.len() ==> relation[nodes[i] as int][nodes[j] as int] != 0
}

/// `s` lists `k` of the numbers below `n` in ascending order.
pub open spec fn is_combination(s: Seq<usize>, n: nat, k: nat) -> bool {
    &&& s.len() == k
    &&& forall|i: int| 0 <= i < s.len() ==> #[trigger] s[i] < n
    &&& forall|i: int, j: int| 0 <= i < j < s.len() ==> s[i] < s[j]
}

/// `s` is a combination that begins with `prefix` and goes on, if it
/// does, with a number from `start` on.
spec fn extends(s: Seq<usize>, prefix: Seq<usize>, start: nat, n: nat, k: nat) -> bool {
    &&& is_combination(s, n, k)
    &&& prefix.len() <= s.len()
    &&& s.take(prefix.len() as int) == prefix
    &&& prefix.len() < s.len() ==> s[prefix.len() as int] >= start
}

/// The literals of all clauses, clause after clause.
pub open spec fn all_literals(clauses: Seq<Seq<i32>>) -> Seq<i32>
    decreases clauses.len(),
{
    if clauses.len() == 0 {
        Seq::empty()
    } else {
        all_literals(clauses.drop_last()) + clauses.last()
    }
}

/// The elements of `s` in the order in which they first occur.
pub open spec fn first_occurrences(s: Seq<i32>) -> Seq<i32>
    decreases s.len(),
{
    if s.len() == 0 {
        Seq::empty()
    } else {
        let before = first_occurrences(s.drop_last());
        if before.contains(s.last()) {
            before
        } else {
            before.push(s.last())
        }
    }
}

/// Some clause holds both `x` and `y`.
pub open spec fn share_clause(clauses: Seq<Seq<i32>>, x: i32, y: i32) -> bool {
    exists|c: int| 0 <= c < clauses.len() && (#[trigger] clauses[c]).contains(x) && clauses[c].contains(y)
}

/// The literals `x` and `y` cannot both be chosen: one negates the other,
/// or they stand in one clause.
pub open spec fn exclude(clauses: Seq<Seq<i32>>, x: i32, y: i32) -> bool {
    x == -y || share_clause(clauses, x, y)
}

/// The nodes of the graphs made from a formula: its distinct literals in
/// the order in which they first occur.
pub open spec fn literal_nodes(clauses: Seq<Seq<i32>>) -> Seq<i32> {
    first_occurrences(all_literals(clauses))
}

/// `relation` is the square matrix over `nodes` that holds a one for two
/// different nodes of which the earlier is joined with the later, in
/// either order of the two, and a zero elsewhere.
pub open spec fn joins(
    relation: Seq<Seq<usize>>,
    nodes: Seq<i32>,
    joined: spec_fn(i32, i32) -> bool,
) -> bool {
    &&& relation.len() == nodes.len()
    &&& forall|a: int| 0 <= a < relation.len() ==> (#[trigger] relation[a]).len() == nodes.len()
    &&& forall|a: int, b: int|
        0 <= a < relation.len() && 0 <= b < relation.len() ==> #[trigger] relation[a][b] == (if a
            < b && joined(nodes[a], nodes[b]) || b < a && joined(nodes[b], nodes[a]) {
            1usize
        } else {
            0usize
        })
}

/// A directed graph on the nodes `0`, `1`, ..., given by its adjacency
/// matrix: node `u` is related to node `v` if the entry in row `u` and
/// column `v` is not zero.
pub struct Graph {
    relation: Vec<Vec<usize>>,
}

impl Graph {
    /// The adjacency matrix.
    pub closed spec fn view(&self) -> Seq<Seq<usize>> {
        rows(self.relation@)
    }

    /// The matrix is square and its entries are below the number of
    /// nodes.
    pub open spec fn wf(&self) -> bool {
        &&& forall|i: int| 0 <= i < self@.len() ==> (#[trigger] self@[i]).len() == self@.len()
        &&& forall|i: int, j: int|
            0 <= i < self@.len() && 0 <= j < self@[i].len() ==> #[trigger] self@[i][j] < self@.len()
    }

    /// Some `k` nodes form a clique.
    pub open spec fn has_clique(&self, k: nat) -> bool {
        exists|s: Seq<usize>| is_combination(s, self@.len(), k) && #[trigger] is_clique(self@, s)
    }

    /// Some `k` nodes form an independent set.
    pub open spec fn has_indset(&self, k: nat) -> bool {
        exists|s: Seq<usize>| is_combination(s, self@.len(), k) && #[trigger] is_indset(self@, s)
    }

    /// The graph with the adjacency matrix `relation`.
    pub fn new(relation: Vec<Vec<usize>>) -> (g: Self)
        requires
            forall|i: int| 0 <= i < relation@.len() ==> (#[trigger] relation@[i])@.len() == relation@.len(),
            forall|i: int, j: int|
                0 <= i < relation@.len() && 0 <= j < relation@[i]@.len()
                    ==> #[trigger] relation@[i]@[j] < relation@.len(),
        ensures
            g@ == rows(relation@),
            g.wf(),
    {
        let g = Graph { relation };
        proof {
            assert forall|i: int| 0 <= i < g@.len() implies (#[trigger] g@[i]).len() == g@.len() by {
                assert(g@[i] == relation@[i]@);
            }
            assert forall|i: int, j: int|
                0 <= i < g@.len() && 0 <= j < g@[i].len() implies #[trigger] g@[i][j] < g@.len() by {
                assert(g@[i][j] == relation@[i]@[j]);
            }
        }
        g
    }

    /// The number of nodes.
    pub fn num_nodes(&self) -> (n: usize)
        ensures
            n == self@.len(),
    {
        self.relation.len()
    }

    /// Whether no node of `nodes` is related to a later one.
    pub fn verify_indset(&self, nodes: &Vec<usize>) -> (r: bool)
        requires
            self.wf(),
            forall|i: int| 0 <= i < nodes@.len() ==> #[trigger] nodes@[i] < self@.len(),
        ensures
            r == is_indset(self@, nodes@),
    {
        let n = nodes.len();
        let mut i: usize = 0;
        while i < n
            invariant
                self.wf(),
                n == nodes@.len(),
                forall|x: int| 0 <= x < nodes@.len() ==> #[trigger] nodes@[x] < self@.len(),
                forall|a: int, b: int|
                    0 <= a < i && a < b < n ==> self@[nodes@[a] as int][nodes@[b] as int] == 0,
            decreases n - i,
        {
            let mut j: usize = i + 1;
            while j < n
                invariant
                    self.wf(),
                    n == nodes@.len(),
                    i < j <= n,
                    forall|x: int| 0 <= x < nodes@.len() ==> #[trigger] nodes@[x] < self@.len(),
                    forall|a: int, b: int|
                        0 <= a < i && a < b < n ==> self@[nodes@[a] as int][nodes@[b] as int] == 0,
                    forall|b: int| i < b < j ==> self@[nodes@[i as int] as int][nodes@[b] as int] == 0,
                decreases n - j,
            {
                let u = nodes[i];
                let v = nodes[j];
                proof {
                    assert(self@[u as int].len() == self@.len());
                    assert(self@[u as int] == self.relation@[u as int]@);
                }
                if self.relation[u][v] != 0 {
                    return false;
                }
                j = j + 1;
            }
            i = i + 1;
        }
        true
    }

    /// Whether every node of `nodes` is related to every later one.
    pub fn verify_clique(&self, nodes: &Vec<usize>) -> (r: bool)
        requires
            self.wf(),
            forall|i: int| 0 <= i < nodes@.len() ==> #[trigger] nodes@[i] < self@.len(),
        ensures
            r == is_clique(self@, nodes@),
    {
        let n = nodes.len();
        let mut i: usize = 0;
        while i < n
            invariant
                self.wf(),
                n == nodes@.len(),
                forall|x: int| 0 <= x < nodes@.len() ==> #[trigger] nodes@[x] < self@.len(),
                forall|a: int, b: int|
                    0 <= a < i && a < b < n ==> self@[nodes@[a] as int][nodes@[b] as int] != 0,
            decreases n - i,
        {
            let mut j: usize = i + 1;
            while j < n
                invariant
                    self.wf(),
                    n == nodes@.len(),
                    i < j <= n,
                    forall|x: int| 0 <= x < nodes@.len() ==> #[trigger] nodes@[x] < self@.len(),
                    forall|a: int, b: int|
                        0 <= a < i && a < b < n ==> self@[nodes@[a] as int][nodes@[b] as int] != 0,
                    forall|b: int| i < b < j ==> self@[nodes@[i as int] as int][nodes@[b] as int] != 0,
                decreases n - j,
            {
                let u = nodes[i];
                let v = nodes[j];
                proof {
                    assert(self@[u as int].len() == self@.len());
                    assert(self@[u as int] == self.relation@[u as int]@);
                }
                if self.relation[u][v] == 0 {
                    return false;
                }
                j = j + 1;
            }
            i = i + 1;
        }
        true
    }

    /// All ways to choose `k` of the numbers below `n`, each in ascending
    /// order.
    fn combinations(n: usize, k: usize) -> (out: Vec<Vec<usize>>)
        ensures
            forall|x: int| 0 <= x < out@.len() ==> is_combination((#[trigger] out@[x])@, n as nat, k as nat),
            forall|s: Seq<usize>|
                is_combination(s, n as nat, k as nat) ==> exists|x: int|
                    0 <= x < out@.len() && (#[trigger] out@[x])@ == s,
    {
        let mut result: Vec<Vec<usize>> = Vec::new();
        let mut temp: Vec<usize> = Vec::new();
        Self::combinations_helper(0, n, k, &mut temp, &mut result);
        proof {
            assert forall|s: Seq<usize>| is_combination(s, n as nat, k as nat) implies exists|x: int|
                0 <= x < result@.len() && (#[trigger] result@[x])@ == s by {
                assert(s.take(0) =~= Seq::<usize>::empty());
                assert(extends(s, Seq::<usize>::empty(), 0, n as nat, k as nat));
            }
        }
        result
    }

    /// Appends to `result` every combination that begins with `temp` and
    /// goes on with numbers from `start` on.
    fn combinations_helper(
        start: usize,
        n: usize,
        k: usize,
        temp: &mut Vec<usize>,
        result: &mut Vec<Vec<usize>>,
    )
        requires
            start <= n,
            old(temp)@.len() <= k,
            forall|i: int| 0 <= i < old(temp)@.len() ==> #[trigger] old(temp)@[i] < start,
            forall|i: int, j: int| 0 <= i < j < old(temp)@.len() ==> old(temp)@[i] < old(temp)@[j],
        ensures
            final(temp)@ == old(temp)@,
            final(result)@.len() >= old(result)@.len(),
            forall|x: int| 0 <= x < old(result)@.len() ==> #[trigger] final(result)@[x] == old(result)@[x],
            forall|x: int|
                old(result)@.len() <= x < final(result)@.len() ==> extends(
                    (#[trigger] final(result)@[x])@,
                    old(temp)@,
                    start as nat,
                    n as nat,
                    k as nat,
                ),
            forall|s: Seq<usize>|
                extends(s, old(temp)@, start as nat, n as nat, k as nat) ==> exists|x: int|
                    old(result)@.len() <= x < final(result)@.len() && (#[trigger] final(result)@[x])@
                        == s,
        decreases k - old(temp)@.len(),
    {
        if temp.len() == k {
            let copy = temp.clone();
            assert(copy@ =~= temp@);
            result.push(copy);
            proof {
                let at = old(result)@.len() as int;
                assert(result@[at]@ == temp@);
                assert(temp@.take(temp@.len() as int) =~= temp@);
                assert forall|s: Seq<usize>|
                    extends(s, old(temp)@, start as nat, n as nat, k as nat) implies exists|x: int|
                    old(result)@.len() <= x < result@.len() && (#[trigger] result@[x])@ == s by {
                    assert(s.take(s.len() as int) =~= s);
                    assert(result@[at]@ == s);
                }
            }
            return ;
        }
        let mut i = start;
        while i < n
            invariant
                start <= i <= n,
                temp@ == old(temp)@,
                temp@.len() < k,
                forall|x: int| 0 <= x < temp@.len() ==> #[trigger] temp@[x] < start,
                forall|x: int, y: int| 0 <= x < y < temp@.len() ==> temp@[x] < temp@[y],
                result@.len() >= old(result)@.len(),
                forall|x: int| 0 <= x < old(result)@.len() ==> #[trigger] result@[x] == old(result)@[x],
                forall|x: int|
                    old(result)@.len() <= x < result@.len() ==> extends(
                        (#[trigger] result@[x])@,
                        old(temp)@,
                        start as nat,
                        n as nat,
                        k as nat,
                    ),
                forall|s: Seq<usize>|
                    extends(s, old(temp)@, start as nat, n as nat, k as nat) && s[old(
                        temp,
                    )@.len() as int] < i ==> exists|x: int|
                        old(result)@.len() <= x < result@.len() && (#[trigger] result@[x])@ == s,
            decreases n - i,
        {
            let ghost before = result@;
            let ghost prefix = temp@;
            temp.push(i);
            let ghost longer = temp@;
            Self::combinations_helper(i + 1, n, k, temp, result);
            temp.pop();
            proof {
                assert(temp@ =~= prefix);
                assert forall|x: int| old(result)@.len() <= x < result@.len() implies extends(
                    (#[trigger] result@[x])@,
                    prefix,
                    start as nat,
                    n as nat,
                    k as nat,
                ) by {
                    if x >= before.len() {
                        let s = result@[x]@;
                        assert(extends(s, longer, (i + 1) as nat, n as nat, k as nat));
                        assert(s.take(prefix.len() as int) =~= s.take(longer.len() as int).take(
                            prefix.len() as int,
                        ));
                        assert(longer.take(prefix.len() as int) =~= prefix);
                        assert(s.take(longer.len() as int)[prefix.len() as int] == i);
                    } else {
                        assert(result@[x] == before[x]);
                    }
                }
                assert forall|s: Seq<usize>|
                    extends(s, prefix, start as nat, n as nat, k as nat) && s[prefix.len() as int] < i
                        + 1 implies exists|x: int|
                    old(result)@.len() <= x < result@.len() && (#[trigger] result@[x])@ == s by {
                    if s[prefix.len() as int] < i {
                        let x = choose|x: int|
                            old(result)@.len() <= x < before.len() && (#[trigger] before[x])@ == s;
                        assert(result@[x] == before[x]);
                    } else {
                        assert(s.take(longer.len() as int) =~= longer) by {
                            assert(s.take(prefix.len() as int) == prefix);
                            assert forall|y: int| 0 <= y < longer.len() implies s.take(
                                longer.len() as int,
                            )[y] == longer[y] by {
                                if y < prefix.len() {
                                    assert(s.take(prefix.len() as int)[y] == prefix[y]);
                                }
                            }
                        }
                        assert(extends(s, longer, (i + 1) as nat, n as nat, k as nat));
                    }
                }
            }
            i = i + 1;
        }
    }

    /// Whether some `k` nodes, taken in ascending order, form a clique.
    pub fn result_k_clique(&self, k: usize) -> (r: bool)
        requires
            self.wf(),
        ensures
            r == self.has_clique(k as nat),
    {
        let n = self.relation.len();
        let subsets = Self::combinations(n, k);
        let mut x: usize = 0;
        while x < subsets.len()
            invariant
                self.wf(),
                n == self@.len(),
                x <= subsets@.len(),
                forall|y: int|
                    0 <= y < subsets@.len() ==> is_combination(
                        (#[trigger] subsets@[y])@,
                        n as nat,
                        k as nat,
                    ),
                forall|y: int| 0 <= y < x ==> !is_clique(self@, (#[trigger] subsets@[y])@),
            decreases subsets@.len() - x,
        {
            proof {
                assert(is_combination(subsets@[x as int]@, n as nat, k as nat));
            }
            if self.verify_clique(&subsets[x]) {
                return true;
            }
            x = x + 1;
        }
        proof {
            assert forall|s: Seq<usize>| is_combination(s, self@.len(), k as nat) implies !#[trigger] is_clique(
                self@,
                s,
            ) by {
                let y = choose|y: int| 0 <= y < subsets@.len() && (#[trigger] subsets@[y])@ == s;
            }
        }
        false
    }

    /// Whether some `k` nodes, taken in ascending order, form an
    /// independent set.
    pub fn result_k_indset(&self, k: usize) -> (r: bool)
        requires
            self.wf(),
        ensures
            r == self.has_indset(k as nat),
    {
        let n = self.relation.len();
        let subsets = Self::combinations(n, k);
        let mut x: usize = 0;
        while x < subsets.len()
            invariant
                self.wf(),
                n == self@.len(),
                x <= subsets@.len(),
                forall|y: int|
                    0 <= y < subsets@.len() ==> is_combination(
                        (#[trigger] subsets@[y])@,
                        n as nat,
                        k as nat,
                    ),
                forall|y: int| 0 <= y < x ==> !is_indset(self@, (#[trigger] subsets@[y])@),
            decreases subsets@.len() - x,
        {
            proof {
                assert(is_combination(subsets@[x as int]@, n as nat, k as nat));
            }
            if self.verify_indset(&subsets[x]) {
                return true;
            }
            x = x + 1;
        }
        proof {
            assert forall|s: Seq<usize>| is_combination(s, self@.len(), k as nat) implies !#[trigger] is_indset(
                self@,
                s,
            ) by {
                let y = choose|y: int| 0 <= y < subsets@.len() && (#[trigger] subsets@[y])@ == s;
            }
        }
        false
    }

    /// The graph whose nodes are the distinct literals of `cnf` and in
    /// which two literals are related if they exclude each other: if one
    /// negates the other or both stand in one clause.
    pub fn to_indset(cnf: &CNF) -> (g: Self)
        requires
            cnf.wf(),
        ensures
            g.wf(),
            joins(
                g@,
                literal_nodes(cnf.clauses()),
                |x: i32, y: i32| exclude(cnf.clauses(), x, y),
            ),
    {
        let nodes = distinct_literals(cnf);
        let node_count = nodes.len();
        let mut relation = zero_matrix(node_count);
        proof {
            let zero = rows(relation@);
            assert forall|a: int, b: int|
                0 <= a < zero.len() && 0 <= b < zero.len() implies #[trigger] zero[a][b] == 0 by {
                assert(zero[a][b] == relation@[a]@[b]);
            }
        }
        let ghost joined = |x: i32, y: i32| exclude(cnf.clauses(), x, y);
        let mut i: usize = 0;
        while i < node_count
            invariant
                cnf.wf(),
                node_count == nodes@.len(),
                i <= node_count,
                joined == |x: i32, y: i32| exclude(cnf.clauses(), x, y),
                forall|x: int| 0 <= x < nodes@.len() ==> -24 <= #[trigger] nodes@[x] <= 24,
                joined_up_to(rows(relation@), nodes@, joined, i as int, 0),
            decreases node_count - i,
        {
            let mut j: usize = i + 1;
            while j < node_count
                invariant
                    cnf.wf(),
                    node_count == nodes@.len(),
                    i < j <= node_count,
                    joined == |x: i32, y: i32| exclude(cnf.clauses(), x, y),
                    forall|x: int| 0 <= x < nodes@.len() ==> -24 <= #[trigger] nodes@[x] <= 24,
                    joined_up_to(rows(relation@), nodes@, joined, i as int, j as int),
                decreases node_count - j,
            {
                let literal1 = nodes[i];
                let literal2 = nodes[j];
                let shared = shares_clause(cnf, literal1, literal2);
                let ghost start = relation;
                if literal1 == -literal2 || shared {
                    proof {
                        assert(rows(relation@)[i as int] == relation@[i as int]@);
                        assert(rows(relation@)[j as int] == relation@[j as int]@);
                    }
                    set_entry(&mut relation, i, j, 1);
                    set_entry(&mut relation, j, i, 1);
                }
                proof {
                    let before = rows(start@);
                    let after = rows(relation@);
                    assert forall|a: int| 0 <= a < after.len() implies (#[trigger] after[a]).len()
                        == nodes@.len() by {
                        assert(before[a].len() == nodes@.len());
                    }
                    assert forall|a: int, b: int|
                        0 <= a < after.len() && 0 <= b < after.len() implies #[trigger] after[a][b]
                        == (if a < b && (a < i || (a == i && b < j + 1)) && joined(
                        nodes@[a],
                        nodes@[b],
                    ) || b < a && (b < i || (b == i && a < j + 1)) && joined(nodes@[b], nodes@[a]) {
                        1usize
                    } else {
                        0usize
                    }) by {
                        assert(before[a].len() == nodes@.len());
                        assert(before[a][b] == start@[a]@[b]);
                        assert(after[a][b] == relation@[a]@[b]);
                    }
                }
                j = j + 1;
            }
            i = i + 1;
        }
        let g = Graph { relation };
        proof {
            lemma_joined_graph(g@, nodes@, joined);
        }
        g
    }

    /// The graph whose nodes are the distinct literals of `cnf` and in
    /// which two literals are related if they agree with each other: if
    /// neither negates the other and no clause holds both.
    pub fn to_clique(cnf: &CNF) -> (g: Graph)
        requires
            cnf.wf(),
        ensures
            g.wf(),
            joins(
                g@,
                literal_nodes(cnf.clauses()),
                |x: i32, y: i32| !exclude(cnf.clauses(), x, y),
            ),
    {
        let nodes = distinct_literals(cnf);
        let node_count = nodes.len();
        let mut relation = zero_matrix(node_count);
        proof {
            let zero = rows(relation@);
            assert forall|a: int, b: int|
                0 <= a < zero.len() && 0 <= b < zero.len() implies #[trigger] zero[a][b] == 0 by {
                assert(zero[a][b] == relation@[a]@[b]);
            }
        }
        let ghost joined = |x: i32, y: i32| !exclude(cnf.clauses(), x, y);
        let mut i: usize = 0;
        while i < node_count
            invariant
                cnf.wf(),
                node_count == nodes@.len(),
                i <= node_count,
                joined == |x: i32, y: i32| !exclude(cnf.clauses(), x, y),
                forall|x: int| 0 <= x < nodes@.len() ==> -24 <= #[trigger] nodes@[x] <= 24,
                joined_up_to(rows(relation@), nodes@, joined, i as int, 0),
            decreases node_count - i,
        {
            let mut j: usize = i + 1;
            while j < node_count
                invariant
                    cnf.wf(),
                    node_count == nodes@.len(),
                    i < j <= node_count,
                    joined == |x: i32, y: i32| !exclude(cnf.clauses(), x, y),
                    forall|x: int| 0 <= x < nodes@.len() ==> -24 <= #[trigger] nodes@[x] <= 24,
                    joined_up_to(rows(relation@), nodes@, joined, i as int, j as int),
                decreases node_count - j,
            {
                let literal1 = nodes[i];
                let literal2 = nodes[j];
                let shared = shares_clause(cnf, literal1, literal2);
                let ghost start = relation;
                if literal1 != -literal2 && !shared {
                    proof {
                        assert(rows(relation@)[i as int] == relation@[i as int]@);
                        assert(rows(relation@)[j as int] == relation@[j as int]@);
                    }
                    set_entry(&mut relation, i, j, 1);
                    set_entry(&mut relation, j, i, 1);
                }
                proof {
                    let before = rows(start@);
                    let after = rows(relation@);
                    assert forall|a: int| 0 <= a < after.len() implies (#[trigger] after[a]).len()
                        == nodes@.len() by {
                        assert(before[a].len() == nodes@.len());
                    }
                    assert forall|a: int, b: int|
                        0 <= a < after.len() && 0 <= b < after.len() implies #[trigger] after[a][b]
                        == (if a < b && (a < i || (a == i && b < j + 1)) && joined(
                        nodes@[a],
                        nodes@[b],
                    ) || b < a && (b < i || (b == i && a < j + 1)) && joined(nodes@[b], nodes@[a]) {
                        1usize
                    } else {
                        0usize
                    }) by {
                        assert(before[a].len() == nodes@.len());
                        assert(before[a][b] == start@[a]@[b]);
                        assert(after[a][b] == relation@[a]@[b]);
                    }
                }
                j = j + 1;
            }
            i = i + 1;
        }
        let g = Graph { relation };
        proof {
            lemma_joined_graph(g@, nodes@, joined);
        }
        g
    }
}

/// The state of a relation under construction: the pairs of row `i` up
/// to column `j`, and of all rows before, are decided; the rest is zero.
spec fn joined_up_to(
    relation: Seq<Seq<usize>>,
    nodes: Seq<i32>,
    joined: spec_fn(i32, i32) -> bool,
    i: int,
    j: int,
) -> bool {
    &&& relation.len() == nodes.len()
    &&& forall|a: int| 0 <= a < relation.len() ==> (#[trigger] relation[a]).len() == nodes.len()
    &&& forall|a: int, b: int|
        0 <= a < relation.len() && 0 <= b < relation.len() ==> #[trigger] relation[a][b] == (if a
            < b && (a < i || (a == i && b < j)) && joined(nodes[a], nodes[b]) || b < a && (b < i || (b
            == i && a < j)) && joined(nodes[b], nodes[a]) {
            1usize
        } else {
            0usize
        })
}

/// A relation that joins its nodes is the matrix of a graph.
proof fn lemma_joined_graph(
    relation: Seq<Seq<usize>>,
    nodes: Seq<i32>,
    joined: spec_fn(i32, i32) -> bool,
)
    requires
        joined_up_to(relation, nodes, joined, nodes.len() as int, 0),
    ensures
        joins(relation, nodes, joined),
        forall|a: int, b: int|
            0 <= a < relation.len() && 0 <= b < relation[a].len() ==> #[trigger] relation[a][b]
                < relation.len(),
{
    assert forall|a: int, b: int|
        0 <= a < relation.len() && 0 <= b < relation[a].len() implies #[trigger] relation[a][b]
        < relation.len() by {
        assert(relation[a][b] <= 1);
        assert(a != b ==> relation.len() >= 2);
    }
}

/// The square matrix of `n` rows that holds only zeros.
fn zero_matrix(n: usize) -> (m: Vec<Vec<usize>>)
    ensures
        m@.len() == n,
        forall|a: int| 0 <= a < n ==> (#[trigger] m@[a])@.len() == n,
        forall|a: int, b: int| 0 <= a < n && 0 <= b < n ==> #[trigger] m@[a]@[b] == 0,
{
    let mut m: Vec<Vec<usize>> = Vec::new();
    let mut a: usize = 0;
    while a < n
        invariant
            a <= n,
            m@.len() == a,
            forall|x: int| 0 <= x < a ==> (#[trigger] m@[x])@.len() == n,
            forall|x: int, y: int| 0 <= x < a && 0 <= y < n ==> #[trigger] m@[x]@[y] == 0,
        decreases n - a,
    {
        let mut row: Vec<usize> = Vec::new();
        let mut b: usize = 0;
        while b < n
            invariant
                b <= n,
                row@.len() == b,
                forall|y: int| 0 <= y < b ==> #[trigger] row@[y] == 0,
            decreases n - b,
        {
            row.push(0);
            b = b + 1;
        }
        m.push(row);
        a = a + 1;
    }
    m
}

/// Writes `value` at row `i` and column `j`.
fn set_entry(m: &mut Vec<Vec<usize>>, i: usize, j: usize, value: usize)
    requires
        i < old(m)@.len(),
        j < old(m)@[i as int]@.len(),
    ensures
        final(m)@.len() == old(m)@.len(),
        forall|a: int| 0 <= a < old(m)@.len() ==> (#[trigger] final(m)@[a])@.len() == old(m)@[a]@.len(),
        forall|a: int, b: int|
            0 <= a < old(m)@.len() && 0 <= b < old(m)@[a]@.len() ==> #[trigger] final(m)@[a]@[b] == (if a
                == i && b == j {
                value
            } else {
                old(m)@[a]@[b]
            }),
{
    m[i][j] = value;
}

/// Whether `x` is an element of `row`.
fn row_contains(row: &Vec<i32>, x: i32) -> (r: bool)
    ensures
        r == row@.contains(x),
{
    let mut c: usize = 0;
    while c < row.len()
        invariant
            c <= row@.len(),
            forall|y: int| 0 <= y < c ==> row@[y] != x,
        decreases row@.len() - c,
    {
        if row[c] == x {
            return true;
        }
        c = c + 1;
    }
    false
}

/// Whether some clause of `cnf` holds both `x` and `y`.
fn shares_clause(cnf: &CNF, x: i32, y: i32) -> (r: bool)
    ensures
        r == share_clause(cnf.clauses(), x, y),
{
    let mut c: usize = 0;
    while c < cnf.formula.len()
        invariant
            c <= cnf.formula@.len(),
            forall|d: int|
                0 <= d < c ==> !((#[trigger] cnf.clauses()[d]).contains(x) && cnf.clauses()[d].contains(
                    y,
                )),
        decreases cnf.formula@.len() - c,
    {
        proof {
            assert(cnf.clauses()[c as int] == cnf.formula@[c as int]@);
        }
        if row_contains(&cnf.formula[c], x) && row_contains(&cnf.formula[c], y) {
            return true;
        }
        c = c + 1;
    }
    false
}

/// The distinct literals of `cnf` in the order in which they first occur.
fn distinct_literals(cnf: &CNF) -> (nodes: Vec<i32>)
    requires
        cnf.wf(),
    ensures
        nodes@ == literal_nodes(cnf.clauses()),
        forall|x: int| 0 <= x < nodes@.len() ==> -24 <= #[trigger] nodes@[x] <= 24,
{
    broadcast use vstd::std_specs::hash::group_hash_axioms;

    let mut nodes: Vec<i32> = Vec::new();
    let mut literal_to_node: HashMap<i32, usize> = HashMap::new();
    let ghost clauses = cnf.clauses();
    let mut i: usize = 0;
    while i < cnf.formula.len()
        invariant
            cnf.wf(),
            clauses == cnf.clauses(),
            i <= cnf.formula@.len(),
            nodes@ == first_occurrences(all_literals(clauses.take(i as int))),
            forall|x: i32| literal_to_node@.contains_key(x) <==> nodes@.contains(x),
            forall|x: int| 0 <= x < nodes@.len() ==> -24 <= #[trigger] nodes@[x] <= 24,
        decreases cnf.formula@.len() - i,
    {
        let clause = &cnf.formula[i];
        proof {
            assert(clauses[i as int] == clause@);
            assert(clause@.take(0) =~= Seq::<i32>::empty());
            assert(all_literals(clauses.take(i as int)) + clause@.take(0) =~= all_literals(
                clauses.take(i as int),
            ));
        }
        let mut j: usize = 0;
        while j < clause.len()
            invariant
                cnf.wf(),
                clauses == cnf.clauses(),
                i < cnf.formula@.len(),
                clauses[i as int] == clause@,
                j <= clause@.len(),
                nodes@ == first_occurrences(
                    all_literals(clauses.take(i as int)) + clause@.take(j as int),
                ),
                forall|x: i32| literal_to_node@.contains_key(x) <==> nodes@.contains(x),
                forall|x: int| 0 <= x < nodes@.len() ==> -24 <= #[trigger] nodes@[x] <= 24,
            decreases clause@.len() - j,
        {
            let literal = clause[j];
            let ghost seen = all_literals(clauses.take(i as int)) + clause@.take(j as int);
            let ghost more = all_literals(clauses.take(i as int)) + clause@.take(j + 1);
            let ghost known = nodes@;
            proof {
                assert(more =~= seen.push(literal));
                assert(more.drop_last() =~= seen);
                assert(1 <= abs(clauses[i as int][j as int] as int) <= 24);
            }
            if !literal_to_node.contains_key(&literal) {
                literal_to_node.insert(literal, nodes.len());
                nodes.push(literal);
                proof {
                    assert forall|x: i32| literal_to_node@.contains_key(x) <==> nodes@.contains(x) by {
                        if known.contains(x) {
                            let at = choose|at: int| 0 <= at < known.len() && known[at] == x;
                            assert(nodes@[at] == x);
                        }
                        if x == literal {
                            assert(nodes@[known.len() as int] == x);
                        }
                        if nodes@.contains(x) && x != literal {
                            let at = choose|at: int| 0 <= at < nodes@.len() && nodes@[at] == x;
                            assert(known[at] == x);
                        }
                    }
                }
            }
            j = j + 1;
        }
        proof {
            assert(clause@.take(j as int) =~= clause@);
            assert(clauses.take(i + 1).drop_last() =~= clauses.take(i as int));
            assert(clauses.take(i + 1).last() == clause@);
        }
        i = i + 1;
    }
    proof {
        assert(clauses.take(i as int) =~= clauses);
    }
    nodes
}

} // verus!
