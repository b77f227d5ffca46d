//! Exact one-sided ("greater") Fisher test for 2x2 contingency tables.
//!
//! A growable table of factorials — grown on demand, never shrunk — gives
//! every binomial coefficient by one multiplication and one division, and
//! the p-value is the hypergeometric tail summed from the observed overlap.
//! All arithmetic is exact, so the result equals the classical value as a
//! rational number.

use vstd::prelude::*;
use num::BigUint;
use crate::bignum::{big_nat, big_from_u64, big_add, big_mul, big_div};
use crate::ratio::{Ratio, rle};

verus! {

/// `n` factorial.
pub open spec fn fact(n: nat) -> nat
    decreases n,
{
    if n == 0 {
        1
    } else {
        n * fact((n - 1) as nat)
    }
}

/// Binomial coefficient `C(n, k)` by the Pascal recurrence; zero when
/// `k > n`.
pub open spec fn binom(n: nat, k: nat) -> nat
    decreases n,
{
    if k == 0 {
        1
    } else if n == 0 {
        0
    } else {
        binom((n - 1) as nat, (k - 1) as nat) + binom((n - 1) as nat, k)
    }
}

pub proof fn lemma_fact_pos(n: nat)
    ensures
        fact(n) >= 1,
    decreases n,
{
    if n > 0 {
        lemma_fact_pos((n - 1) as nat);
        assert(n * fact((n - 1) as nat) >= 1) by (nonlinear_arith)
            requires
                n >= 1,
                fact((n - 1) as nat) >= 1,
        ;
    }
}

pub proof fn lemma_binom_zero(n: nat, k: nat)
    requires
        k > n,
    ensures
        binom(n, k) == 0,
    decreases n,
{
    if n > 0 {
        lemma_binom_zero((n - 1) as nat, (k - 1) as nat);
        lemma_binom_zero((n - 1) as nat, k);
    }
}

pub proof fn lemma_binom_pos(n: nat, k: nat)
    requires
        k <= n,
    ensures
        binom(n, k) >= 1,
    decreases n,
{
    if k > 0 {
        lemma_binom_pos((n - 1) as nat, (k - 1) as nat);
    }
}

/// The Pascal-recurrence binomial agrees with the factorial formula:
/// `C(n, k) * (k! * (n-k)!) == n!`.
pub proof fn lemma_binom_fact(n: nat, k: nat)
    requires
        k <= n,
    ensures
        binom(n, k) * (fact(k) * fact((n - k) as nat)) == fact(n),
    decreases n,
{
    if k == 0 {
        assert(binom(n, 0) == 1);
        assert(1 * (fact(0) * fact(n)) == fact(n)) by (nonlinear_arith)
            requires
                fact(0) == 1,
        ;
    } else {
        // n >= k >= 1
        let n1 = (n - 1) as nat;
        let k1 = (k - 1) as nat;
        let b1 = binom(n1, k1);
        let b2 = binom(n1, k);
        assert(binom(n, k) == b1 + b2);
        lemma_binom_fact(n1, k1);
        // b1 * (fact(k1) * fact(n - k)) == fact(n1), since n1 - k1 == n - k
        assert((n1 - k1) as nat == (n - k) as nat);
        if k <= n1 {
            lemma_binom_fact(n1, k);
            // b2 * (fact(k) * fact(n1 - k)) == fact(n1)
            let x = fact(k) * fact((n - k) as nat);
            assert(b1 * x == k * fact(n1)) by (nonlinear_arith)
                requires
                    b1 * (fact(k1) * fact((n - k) as nat)) == fact(n1),
                    fact(k) == k * fact(k1),
                    x == fact(k) * fact((n - k) as nat),
            ;
            assert(b2 * x == (n - k) * fact(n1)) by (nonlinear_arith)
                requires
                    b2 * (fact(k) * fact((n1 - k) as nat)) == fact(n1),
                    fact((n - k) as nat) == (n - k) * fact((n1 - k) as nat),
                    x == fact(k) * fact((n - k) as nat),
            ;
            assert((b1 + b2) * x == b1 * x + b2 * x) by (nonlinear_arith);
            assert(k * fact(n1) + (n - k) * fact(n1) == n * fact(n1)) by (nonlinear_arith);
            assert(fact(n) == n * fact(n1));
        } else {
            // k == n: the second Pascal summand is C(n-1, n) == 0
            assert(k == n);
            lemma_binom_zero(n1, k);
            assert(b2 == 0);
            assert((n - k) as nat == 0nat);
            assert((b1 + b2) * (fact(k) * fact(0)) == k * fact(n1)) by (nonlinear_arith)
                requires
                    b2 == 0,
                    b1 * (fact(k1) * fact(0)) == fact(n1),
                    fact(k) == k * fact(k1),
                    fact(0) == 1,
                    k >= 1,
            ;
            assert(fact(n) == n * fact(n1));
        }
    }
}

/// One term of the hypergeometric numerator: ways to draw `k` of the `m`
/// marked columns from the first row margin and the rest from the second.
pub open spec fn hyper_term(r1: nat, r2: nat, m: nat, k: nat) -> nat {
    if k <= m {
        binom(r1, k) * binom(r2, (m - k) as nat)
    } else {
        0
    }
}

/// The hypergeometric tail numerator: terms for `k = a, a + 1, ..., m`.
pub open spec fn tail_sum(r1: nat, r2: nat, m: nat, a: nat) -> nat
    decreases m + 1 - a,
{
    if a > m {
        0
    } else {
        hyper_term(r1, r2, m, a) + tail_sum(r1, r2, m, (a + 1) as nat)
    }
}

/// Numerator of the exact one-sided p-value of the table `(a, b, c, d)`.
pub open spec fn pvalue_num(a: nat, b: nat, c: nat, d: nat) -> nat {
    tail_sum(a + b, c + d, a + c, a)
}

/// Denominator of the exact one-sided p-value: all ways to mark `a + c`
/// columns among the whole population.
pub open spec fn pvalue_den(a: nat, b: nat, c: nat, d: nat) -> nat {
    binom(a + b + c + d, a + c)
}

/// Growable table of exact factorials: `facts[i] == i!`. Extended on
/// demand, never shrunk.
pub struct FactTable {
    pub facts: Vec<BigUint>,
}

impl FactTable {
    /// Every stored entry is the factorial of its index, and `0!` is
    /// always present.
    pub open spec fn wf(self) -> bool {
        &&& self.facts@.len() >= 1
        &&& forall|i: int| 0 <= i < self.facts@.len() ==> big_nat(self.facts@[i]) == fact(
            i as nat,
        )
    }

    /// The table covers index `n`.
    pub open spec fn covers(self, n: int) -> bool {
        n < self.facts@.len()
    }

    /// A fresh table holding only `0!`.
    pub fn new() -> (r: FactTable)
        ensures
            r.wf(),
            r.facts@.len() == 1,
    {
        let mut facts: Vec<BigUint> = Vec::new();
        facts.push(big_from_u64(1));
        FactTable { facts }
    }

    /// Grows the table until it covers index `n`. Existing entries are
    /// never dropped, so concurrent readers of smaller indices stay valid
    /// once the exclusive growth step is over.
    pub fn extend_to(&mut self, n: usize)
        requires
            old(self).wf(),
            n < usize::MAX,
        ensures
            final(self).wf(),
            final(self).covers(n as int),
            final(self).facts@.len() >= old(self).facts@.len(),
    {
        while self.facts.len() <= n
            invariant
                self.wf(),
                self.facts@.len() >= old(self).facts@.len(),
                n < usize::MAX,
            decreases n + 1 - self.facts@.len(),
        {
            let len = self.facts.len();
            let step = big_from_u64(len as u64);
            let next = big_mul(&step, &self.facts[len - 1]);
            proof {
                assert(fact(len as nat) == (len as nat) * fact((len - 1) as nat));
            }
            let ghost prev = self.facts@;
            self.facts.push(next);
            proof {
                assert forall|i: int| 0 <= i < self.facts@.len() implies big_nat(
                    self.facts@[i],
                ) == fact(i as nat) by {
                    if i < len {
                        assert(self.facts@[i] == prev[i]);
                    } else {
                        assert(self.facts@[i] == next);
                    }
                }
            }
        }
    }

    /// `C(n, k)` from the factorial table, by `n! / (k! * (n-k)!)`.
    pub fn binom_at(&self, n: usize, k: usize) -> (r: BigUint)
        requires
            self.wf(),
            k <= n,
            self.covers(n as int),
        ensures
            big_nat(r) == binom(n as nat, k as nat),
    {
        proof {
            lemma_binom_fact(n as nat, k as nat);
            lemma_fact_pos(k as nat);
            lemma_fact_pos((n - k) as nat);
            assert(fact(k as nat) * fact((n - k) as nat) >= 1) by (nonlinear_arith)
                requires
                    fact(k as nat) >= 1,
                    fact((n - k) as nat) >= 1,
            ;
        }
        let den = big_mul(&self.facts[k], &self.facts[n - k]);
        let r = big_div(&self.facts[n], &den);
        proof {
            let b = binom(n as nat, k as nat) as int;
            let d = big_nat(den) as int;
            vstd::arithmetic::div_mod::lemma_div_by_multiple(b, d);
            assert(big_nat(r) == (b * d) / d);
        }
        r
    }
}

/// The exact one-sided ("greater") Fisher p-value of the 2x2 table
/// `(a, b, c, d)`: the hypergeometric tail at least as extreme as the
/// observed overlap, as an exact rational.
pub fn p_value(table: &FactTable, a: usize, b: usize, c: usize, d: usize) -> (r: Ratio)
    requires
        table.wf(),
        a + b + c + d < usize::MAX,
        table.covers(a + b + c + d),
    ensures
        r.wf(),
        r.n() == pvalue_num(a as nat, b as nat, c as nat, d as nat),
        r.d() == pvalue_den(a as nat, b as nat, c as nat, d as nat),
        r.n() <= r.d(),
{
    proof {
        lemma_pvalue_probability(a as nat, b as nat, c as nat, d as nat);
    }
    let r1 = a + b;
    let r2 = c + d;
    let m = a + c;
    let total = r1 + r2;
    proof {
        lemma_binom_pos(total as nat, m as nat);
    }
    let den = table.binom_at(total, m);
    let mut sum = big_from_u64(0);
    let mut k = a;
    while k <= m
        invariant
            a <= k <= m + 1,
            table.wf(),
            table.covers(total as int),
            r1 == a + b,
            r2 == c + d,
            m == a + c,
            total == r1 + r2,
            m <= total < usize::MAX,
            big_nat(sum) + tail_sum(r1 as nat, r2 as nat, m as nat, k as nat) == tail_sum(
                r1 as nat,
                r2 as nat,
                m as nat,
                a as nat,
            ),
        decreases m + 1 - k,
    {
        if k <= r1 && (m - k) <= r2 {
            let b1 = table.binom_at(r1, k);
            let b2 = table.binom_at(r2, m - k);
            let t = big_mul(&b1, &b2);
            sum = big_add(&sum, &t);
        } else {
            proof {
                if k > r1 {
                    lemma_binom_zero(r1 as nat, k as nat);
                    assert(hyper_term(r1 as nat, r2 as nat, m as nat, k as nat) == binom(
                        r1 as nat,
                        k as nat,
                    ) * binom(r2 as nat, ((m - k) as usize) as nat));
                    assert(0nat * binom(r2 as nat, ((m - k) as usize) as nat) == 0) by (
                    nonlinear_arith);
                } else {
                    lemma_binom_zero(r2 as nat, (m - k) as nat);
                    assert(binom(r1 as nat, k as nat) * 0nat == 0) by (nonlinear_arith);
                }
            }
        }
        k = k + 1;
    }
    Ratio { num: sum, den }
}

/// With every margin of the 2x2 table held fixed, increasing the overlap
/// cell by one can only shrink the exact-test p-value: the tail loses its
/// first (nonnegative) term and the denominator stays the same.
pub proof fn lemma_pvalue_monotone(
    a: nat,
    b: nat,
    c: nat,
    d: nat,
    a2: nat,
    b2: nat,
    c2: nat,
    d2: nat,
)
    requires
        a2 == a + 1,
        b2 + 1 == b,
        c2 + 1 == c,
        d2 == d + 1,
    ensures
        pvalue_den(a2, b2, c2, d2) == pvalue_den(a, b, c, d),
        pvalue_num(a2, b2, c2, d2) <= pvalue_num(a, b, c, d),
        rle(
            pvalue_num(a2, b2, c2, d2),
            pvalue_den(a2, b2, c2, d2),
            pvalue_num(a, b, c, d),
            pvalue_den(a, b, c, d),
        ),
{
    assert(a2 + b2 == a + b);
    assert(c2 + d2 == c + d);
    assert(a2 + c2 == a + c);
    let r1 = a + b;
    let r2 = c + d;
    let m = a + c;
    if a + 1 <= m {
        assert(tail_sum(r1, r2, m, a) == hyper_term(r1, r2, m, a) + tail_sum(
            r1,
            r2,
            m,
            (a + 1) as nat,
        ));
    }
    let num1 = pvalue_num(a2, b2, c2, d2);
    let num2 = pvalue_num(a, b, c, d);
    let den = pvalue_den(a, b, c, d);
    assert(num1 * den <= num2 * den) by (nonlinear_arith)
        requires
            num1 <= num2,
            den >= 0,
    ;
}


proof fn lemma_tail_r1_zero(r2: nat, m: nat, a: nat)
    requires
        a >= 1,
    ensures
        tail_sum(0, r2, m, a) == 0,
    decreases m + 1 - a,
{
    if a <= m {
        lemma_binom_zero(0, a);
        assert(hyper_term(0, r2, m, a) == binom(0, a) * binom(r2, (m - a) as nat));
        assert(0nat * binom(r2, (m - a) as nat) == 0) by (nonlinear_arith);
        lemma_tail_r1_zero(r2, m, (a + 1) as nat);
    }
}

/// Splitting one Pascal step off the first margin splits the tail sum.
proof fn lemma_tail_split(r1: nat, r2: nat, m: nat, a: nat)
    requires
        r1 >= 1,
        m >= 1,
        1 <= a <= m + 1,
    ensures
        tail_sum(r1, r2, m, a) == tail_sum((r1 - 1) as nat, r2, m, a) + tail_sum(
            (r1 - 1) as nat,
            r2,
            (m - 1) as nat,
            (a - 1) as nat,
        ),
    decreases m + 1 - a,
{
    let r0 = (r1 - 1) as nat;
    let m0 = (m - 1) as nat;
    if a == m + 1 {
        assert(tail_sum(r1, r2, m, a) == 0);
        assert(tail_sum(r0, r2, m, a) == 0);
        assert(tail_sum(r0, r2, m0, (a - 1) as nat) == 0);
    } else {
        lemma_tail_split(r1, r2, m, (a + 1) as nat);
        // Pascal on the first factor of the head term
        assert(binom(r1, a) == binom(r0, (a - 1) as nat) + binom(r0, a));
        let z = binom(r2, (m - a) as nat);
        assert((binom(r0, (a - 1) as nat) + binom(r0, a)) * z == binom(r0, (a - 1) as nat) * z
            + binom(r0, a) * z) by (nonlinear_arith);
        assert(hyper_term(r1, r2, m, a) == binom(r1, a) * z);
        assert(hyper_term(r0, r2, m, a) == binom(r0, a) * z);
        assert(hyper_term(r0, r2, m0, (a - 1) as nat) == binom(r0, (a - 1) as nat) * binom(
            r2,
            (m0 - (a - 1)) as nat,
        ));
        assert((m0 - (a - 1)) as nat == (m - a) as nat);
        assert(tail_sum(r1, r2, m, a) == hyper_term(r1, r2, m, a) + tail_sum(
            r1,
            r2,
            m,
            (a + 1) as nat,
        ));
        assert(tail_sum(r0, r2, m, a) == hyper_term(r0, r2, m, a) + tail_sum(
            r0,
            r2,
            m,
            (a + 1) as nat,
        ));
        assert(tail_sum(r0, r2, m0, (a - 1) as nat) == hyper_term(r0, r2, m0, (a - 1) as nat)
            + tail_sum(r0, r2, m0, a));
    }
}

/// Vandermonde's identity: the whole hypergeometric numerator sums to
/// the denominator, `sum_k C(r1, k) C(r2, m - k) == C(r1 + r2, m)`.
pub proof fn lemma_vandermonde(r1: nat, r2: nat, m: nat)
    ensures
        tail_sum(r1, r2, m, 0) == binom(r1 + r2, m),
    decreases r1,
{
    if m == 0 {
        assert(tail_sum(r1, r2, 0, 0) == hyper_term(r1, r2, 0, 0) + tail_sum(r1, r2, 0, 1));
        assert(hyper_term(r1, r2, 0, 0) == binom(r1, 0) * binom(r2, 0));
        assert(binom(r1, 0) * binom(r2, 0) == 1) by (nonlinear_arith)
            requires
                binom(r1, 0) == 1,
                binom(r2, 0) == 1,
        ;
    } else if r1 == 0 {
        lemma_tail_r1_zero(r2, m, 1);
        assert(tail_sum(0, r2, m, 0) == hyper_term(0, r2, m, 0) + tail_sum(0, r2, m, 1));
        assert(hyper_term(0, r2, m, 0) == binom(0, 0) * binom(r2, m));
        assert(1nat * binom(r2, m) == binom(r2, m)) by (nonlinear_arith);
        assert(binom(0 + r2, m) == binom(r2, m));
    } else {
        let r0 = (r1 - 1) as nat;
        let m0 = (m - 1) as nat;
        lemma_vandermonde(r0, r2, m);
        lemma_vandermonde(r0, r2, m0);
        lemma_tail_split(r1, r2, m, 1);
        // the head terms at zero agree: C(r1, 0) == C(r1 - 1, 0)
        assert(tail_sum(r1, r2, m, 0) == hyper_term(r1, r2, m, 0) + tail_sum(r1, r2, m, 1));
        assert(tail_sum(r0, r2, m, 0) == hyper_term(r0, r2, m, 0) + tail_sum(r0, r2, m, 1));
        assert(hyper_term(r1, r2, m, 0) == binom(r1, 0) * binom(r2, m));
        assert(hyper_term(r0, r2, m, 0) == binom(r0, 0) * binom(r2, m));
        assert(tail_sum(r1, r2, m, 0) == tail_sum(r0, r2, m, 0) + tail_sum(r0, r2, m0, 0));
        // Pascal on the result: C(r1 + r2, m) == C(r1 + r2 - 1, m - 1) + C(r1 + r2 - 1, m)
        assert(binom(r1 + r2, m) == binom((r1 + r2 - 1) as nat, (m - 1) as nat) + binom(
            (r1 + r2 - 1) as nat,
            m,
        ));
        assert(r0 + r2 == (r1 + r2 - 1) as nat);
    }
}

proof fn lemma_tail_le_full(r1: nat, r2: nat, m: nat, a: nat)
    ensures
        tail_sum(r1, r2, m, a) <= tail_sum(r1, r2, m, 0),
    decreases a,
{
    if a > 0 {
        lemma_tail_le_full(r1, r2, m, (a - 1) as nat);
        if (a - 1) as nat <= m {
            assert(tail_sum(r1, r2, m, (a - 1) as nat) == hyper_term(r1, r2, m, (a - 1) as nat)
                + tail_sum(r1, r2, m, a));
        } else {
            assert(tail_sum(r1, r2, m, a) == 0);
        }
    }
}

/// The exact-test value is a probability: its numerator never exceeds
/// its denominator, so the p-value is at most one.
pub proof fn lemma_pvalue_probability(a: nat, b: nat, c: nat, d: nat)
    ensures
        pvalue_num(a, b, c, d) <= pvalue_den(a, b, c, d),
        rle(pvalue_num(a, b, c, d), pvalue_den(a, b, c, d), 1, 1),
{
    lemma_tail_le_full(a + b, c + d, a + c, a);
    lemma_vandermonde(a + b, c + d, a + c);
    assert((a + b) + (c + d) == a + b + c + d);
}

} // verus!
