//! Exact nonnegative rationals over arbitrary-precision naturals. P-values
//! and odds ratios are carried as `num / den` pairs and compared by
//! cross-multiplication, so no rounding ever enters the statistics.

use vstd::prelude::*;
use num::BigUint;
use crate::bignum::{big_nat, big_from_u64, big_mul, big_le, big_eq, big_clone};

verus! {

/// `n1 / d1 <= n2 / d2`, by cross-multiplication (denominators positive).
pub open spec fn rle(n1: nat, d1: nat, n2: nat, d2: nat) -> bool {
    n1 * d2 <= n2 * d1
}

/// `n1 / d1 == n2 / d2`, by cross-multiplication (denominators positive).
pub open spec fn req(n1: nat, d1: nat, n2: nat, d2: nat) -> bool {
    n1 * d2 == n2 * d1
}

/// `rle` over pairs `(numerator, denominator)`.
pub open spec fn rle_t(a: (nat, nat), b: (nat, nat)) -> bool {
    rle(a.0, a.1, b.0, b.1)
}

/// `req` over pairs `(numerator, denominator)`.
pub open spec fn req_t(a: (nat, nat), b: (nat, nat)) -> bool {
    req(a.0, a.1, b.0, b.1)
}

/// `min(value, 1)` on pairs: the pair itself when it is at most one, else
/// exactly one.
pub open spec fn clamp1(a: (nat, nat)) -> (nat, nat) {
    if rle(a.0, a.1, 1, 1) {
        a
    } else {
        (1, 1)
    }
}

pub proof fn lemma_rle_total(n1: nat, d1: nat, n2: nat, d2: nat)
    ensures
        rle(n1, d1, n2, d2) || rle(n2, d2, n1, d1),
{
}

pub proof fn lemma_rle_trans(n1: nat, d1: nat, n2: nat, d2: nat, n3: nat, d3: nat)
    requires
        d1 > 0,
        d2 > 0,
        d3 > 0,
        rle(n1, d1, n2, d2),
        rle(n2, d2, n3, d3),
    ensures
        rle(n1, d1, n3, d3),
{
    assert(n1 * d3 <= n3 * d1) by (nonlinear_arith)
        requires
            d1 > 0,
            d2 > 0,
            d3 > 0,
            n1 * d2 <= n2 * d1,
            n2 * d3 <= n3 * d2,
    ;
}

/// An exact nonnegative rational: `num / den` with `den > 0`.
pub struct Ratio {
    pub num: BigUint,
    pub den: BigUint,
}

impl Ratio {
    /// The denominator is positive.
    pub open spec fn wf(self) -> bool {
        big_nat(self.den) > 0
    }

    /// Numerator value.
    pub open spec fn n(self) -> nat {
        big_nat(self.num)
    }

    /// Denominator value.
    pub open spec fn d(self) -> nat {
        big_nat(self.den)
    }

    /// The `(numerator, denominator)` pair of values.
    pub open spec fn pair(self) -> (nat, nat) {
        (self.n(), self.d())
    }

    /// Builds `n / d` from machine integers.
    pub fn from_u64s(n: u64, d: u64) -> (r: Ratio)
        requires
            d >= 1,
        ensures
            r.n() == n as nat,
            r.d() == d as nat,
            r.wf(),
    {
        Ratio { num: big_from_u64(n), den: big_from_u64(d) }
    }

    /// The rational one.
    pub fn one() -> (r: Ratio)
        ensures
            r.n() == 1nat,
            r.d() == 1nat,
            r.wf(),
    {
        Ratio { num: big_from_u64(1), den: big_from_u64(1) }
    }

    /// A value-preserving copy.
    pub fn clone_val(&self) -> (r: Ratio)
        ensures
            r.n() == self.n(),
            r.d() == self.d(),
            r.wf() == self.wf(),
    {
        Ratio { num: big_clone(&self.num), den: big_clone(&self.den) }
    }

    /// `self <= other`, exactly.
    pub fn le(&self, other: &Ratio) -> (r: bool)
        ensures
            r == rle(self.n(), self.d(), other.n(), other.d()),
    {
        let a = big_mul(&self.num, &other.den);
        let b = big_mul(&other.num, &self.den);
        big_le(&a, &b)
    }

    /// `self == other` as rational values, exactly.
    pub fn eq_val(&self, other: &Ratio) -> (r: bool)
        ensures
            r == req(self.n(), self.d(), other.n(), other.d()),
    {
        let a = big_mul(&self.num, &other.den);
        let b = big_mul(&other.num, &self.den);
        big_eq(&a, &b)
    }

    /// Whether the denominator is positive.
    pub fn is_wf(&self) -> (r: bool)
        ensures
            r == self.wf(),
    {
        let z = big_from_u64(0);
        !big_le(&self.den, &z)
    }

    /// `min(self, 1)`: clamps a value to at most one.
    pub fn min_one(&self) -> (r: Ratio)
        requires
            self.wf(),
        ensures
            r.wf(),
            r.pair() == clamp1(self.pair()),
    {
        let one = Ratio::one();
        if self.le(&one) {
            self.clone_val()
        } else {
            one
        }
    }
}

} // verus!
