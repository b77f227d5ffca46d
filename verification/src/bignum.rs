//! Trusted face of `num::BigUint`: arbitrary-precision natural numbers, used
//! so that factorials and hypergeometric tail sums can be carried exactly.
//!
//! `big_nat` names the natural number a `BigUint` holds; every wrapper's
//! contract speaks of it.

use vstd::prelude::*;
use num::BigUint;

verus! {

#[verifier::external_type_specification]
#[verifier::external_body]
pub struct ExBigUint(BigUint);

/// The natural number that a `BigUint` holds.
pub uninterp spec fn big_nat(b: BigUint) -> nat;

/// Relies on `<BigUint as From<u64>>::from`: builds the big integer with
/// that value.
#[verifier::external_body]
pub fn big_from_u64(x: u64) -> (r: BigUint)
    ensures
        big_nat(r) == x as nat,
{
    BigUint::from(x)
}

/// Relies on `<&BigUint as Add>::add`: exact sum of the two values.
#[verifier::external_body]
pub fn big_add(a: &BigUint, b: &BigUint) -> (r: BigUint)
    ensures
        big_nat(r) == big_nat(*a) + big_nat(*b),
{
    a + b
}

/// Relies on `<&BigUint as Mul>::mul`: exact product of the two values.
#[verifier::external_body]
pub fn big_mul(a: &BigUint, b: &BigUint) -> (r: BigUint)
    ensures
        big_nat(r) == big_nat(*a) * big_nat(*b),
{
    a * b
}

/// Relies on `<&BigUint as Sub>::sub`: exact difference. Panics when the
/// result would be negative, so that is excluded.
#[verifier::external_body]
pub fn big_sub(a: &BigUint, b: &BigUint) -> (r: BigUint)
    requires
        big_nat(*b) <= big_nat(*a),
    ensures
        big_nat(r) == big_nat(*a) - big_nat(*b),
{
    a - b
}

/// Relies on `<BigUint as ToPrimitive>::to_u64`: the value when it fits
/// in 64 bits, `None` otherwise.
#[verifier::external_body]
pub fn big_to_u64(a: &BigUint) -> (r: Option<u64>)
    ensures
        match r {
            Some(v) => big_nat(*a) == v as nat,
            None => big_nat(*a) > u64::MAX,
        },
{
    num::ToPrimitive::to_u64(a)
}

/// Relies on `<&BigUint as Div>::div`: Euclidean quotient, rounded toward
/// zero, which is what `/` means on `nat`. Panics on a zero divisor, so that
/// is excluded.
#[verifier::external_body]
pub fn big_div(a: &BigUint, b: &BigUint) -> (r: BigUint)
    requires
        big_nat(*b) > 0,
    ensures
        big_nat(r) == big_nat(*a) / big_nat(*b),
{
    a / b
}

/// Relies on `<BigUint as Ord>::le`: the order on `BigUint` is the numeric
/// order of the held values.
#[verifier::external_body]
pub fn big_le(a: &BigUint, b: &BigUint) -> (r: bool)
    ensures
        r == (big_nat(*a) <= big_nat(*b)),
{
    a <= b
}

/// Relies on `<BigUint as PartialEq>::eq`: `BigUint`s are canonical, so
/// structural equality is equality of the held values.
#[verifier::external_body]
pub fn big_eq(a: &BigUint, b: &BigUint) -> (r: bool)
    ensures
        r == (big_nat(*a) == big_nat(*b)),
{
    a == b
}

/// Relies on `<BigUint as Clone>::clone`: the copy holds the same value.
#[verifier::external_body]
pub fn big_clone(a: &BigUint) -> (r: BigUint)
    ensures
        big_nat(r) == big_nat(*a),
{
    a.clone()
}

} // verus!
