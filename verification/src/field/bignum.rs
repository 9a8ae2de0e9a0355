//! Arbitrary-precision natural numbers for field orders and elements beyond 64 bits.
//!
//! A `BigValue` holds its base-2^32 limbs, least significant first; the arithmetic on it is
//! done by `num_bigint::BigUint`.

use vstd::prelude::*;
use num_bigint::BigUint;
use num_traits::{ToPrimitive, Zero};
use crate::arith::npow;

verus! {

/// The value of base-2^32 limbs, least significant first.
pub open spec fn limbs_value(s: Seq<u32>) -> nat
    decreases s.len(),
{
    if s.len() == 0 { 0 } else { s[0] as nat + 0x1_0000_0000 * limbs_value(s.drop_first()) }
}

/// A natural number of any size.
pub struct BigValue {
    limbs: Vec<u32>,
}

impl BigValue {
    /// The number this value stands for.
    pub closed spec fn value(&self) -> nat {
        limbs_value(self.limbs@)
    }

    /// The value with the given base-2^32 limbs, least significant first.
    pub fn from_limbs(limbs: Vec<u32>) -> (r: Self)
        ensures
            r.value() == limbs_value(limbs@),
    {
        BigValue { limbs }
    }

    /// The base-2^32 limbs, least significant first.
    pub fn limbs(&self) -> (r: &[u32])
        ensures
            limbs_value(r@) == self.value(),
    {
        self.limbs.as_slice()
    }

    pub fn from_u64(v: u64) -> (r: Self)
        ensures
            r.value() == v,
    {
        limbs_from_u64(v)
    }

    /// The value as a `u64` when it fits.
    pub fn to_u64(&self) -> (r: Option<u64>)
        ensures
            self.value() <= u64::MAX ==> r == Some(self.value() as u64),
            self.value() > u64::MAX ==> r is None,
    {
        limbs_to_u64(self)
    }

    /// Whether the two values are equal.
    pub fn same_value(&self, other: &BigValue) -> (r: bool)
        ensures
            r == (self.value() == other.value()),
    {
        !limbs_less(self, other) && !limbs_less(other, self)
    }

    pub fn is_zero(&self) -> (r: bool)
        ensures
            r == (self.value() == 0),
    {
        limbs_is_zero(self)
    }
}

impl Clone for BigValue {
    fn clone(&self) -> (r: Self)
        ensures
            r.value() == self.value(),
    {
        BigValue { limbs: self.limbs.clone() }
    }
}

/// Calls `BigUint::from(u64)`; claims the result has the value `v`.
#[verifier::external_body]
fn limbs_from_u64(v: u64) -> (r: BigValue)
    ensures
        r.value() == v,
{
    BigValue { limbs: BigUint::from(v).to_u32_digits() }
}

/// Calls `ToPrimitive::to_u64` on a `BigUint`; claims `Some` of the value exactly when it
/// fits in 64 bits.
#[verifier::external_body]
fn limbs_to_u64(a: &BigValue) -> (r: Option<u64>)
    ensures
        a.value() <= u64::MAX ==> r == Some(a.value() as u64),
        a.value() > u64::MAX ==> r is None,
{
    BigUint::new(a.limbs.clone()).to_u64()
}

/// Calls `Zero::is_zero` on a `BigUint`; claims it tells whether the value is zero.
#[verifier::external_body]
fn limbs_is_zero(a: &BigValue) -> (r: bool)
    ensures
        r == (a.value() == 0),
{
    BigUint::new(a.limbs.clone()).is_zero()
}

/// Calls `+` on two `BigUint`s; claims the sum.
#[verifier::external_body]
pub(crate) fn limbs_add(a: &BigValue, b: &BigValue) -> (r: BigValue)
    ensures
        r.value() == a.value() + b.value(),
{
    let s = BigUint::new(a.limbs.clone()) + BigUint::new(b.limbs.clone());
    BigValue { limbs: s.to_u32_digits() }
}

/// Calls `*` on two `BigUint`s; claims the product.
#[verifier::external_body]
pub(crate) fn limbs_mul(a: &BigValue, b: &BigValue) -> (r: BigValue)
    ensures
        r.value() == a.value() * b.value(),
{
    let s = BigUint::new(a.limbs.clone()) * BigUint::new(b.limbs.clone());
    BigValue { limbs: s.to_u32_digits() }
}

/// Calls `*` on a `BigUint` and a `u64`; claims the product.
#[verifier::external_body]
pub(crate) fn limbs_mul_u64(a: &BigValue, k: u64) -> (r: BigValue)
    ensures
        r.value() == a.value() * k,
{
    let s = BigUint::new(a.limbs.clone()) * k;
    BigValue { limbs: s.to_u32_digits() }
}

/// Calls `-` on two `BigUint`s, the second no larger than the first; claims the difference.
#[verifier::external_body]
pub(crate) fn limbs_sub(a: &BigValue, b: &BigValue) -> (r: BigValue)
    requires
        a.value() >= b.value(),
    ensures
        r.value() == a.value() - b.value(),
{
    let s = BigUint::new(a.limbs.clone()) - BigUint::new(b.limbs.clone());
    BigValue { limbs: s.to_u32_digits() }
}

/// Calls `-` on a `BigUint` and a `u64` no larger than it; claims the difference.
#[verifier::external_body]
pub(crate) fn limbs_sub_u64(a: &BigValue, k: u64) -> (r: BigValue)
    requires
        a.value() >= k,
    ensures
        r.value() == a.value() - k,
{
    let s = BigUint::new(a.limbs.clone()) - k;
    BigValue { limbs: s.to_u32_digits() }
}

/// Calls `/` and `%` on a `BigUint` and a nonzero `u64`; claims the quotient and the
/// remainder of Euclidean division.
#[verifier::external_body]
pub(crate) fn limbs_divrem_u64(a: &BigValue, d: u64) -> (r: (BigValue, u64))
    requires
        d > 0,
    ensures
        a.value() == r.0.value() * d + r.1,
        r.1 < d,
{
    let n = BigUint::new(a.limbs.clone());
    let q = &n / d;
    let rem = &n % d;
    (BigValue { limbs: q.to_u32_digits() }, rem.to_u64().unwrap_or(0))
}

/// Calls `/` on two `BigUint`s, the divisor nonzero; claims the floor of the quotient.
#[verifier::external_body]
pub(crate) fn limbs_div(a: &BigValue, b: &BigValue) -> (r: BigValue)
    requires
        b.value() > 0,
    ensures
        r.value() == a.value() / b.value(),
{
    let s = BigUint::new(a.limbs.clone()) / BigUint::new(b.limbs.clone());
    BigValue { limbs: s.to_u32_digits() }
}

/// Calls `to_string` on a `BigUint` (its `Display`, base ten); claims the decimal digits
/// of the value without leading zeros.
#[verifier::external_body]
pub(crate) fn limbs_to_decimal(a: &BigValue) -> (r: String)
    ensures
        r@ == crate::text::decimal(a.value()),
{
    BigUint::new(a.limbs.clone()).to_string()
}

/// Calls `<` on two `BigUint`s; claims it compares their values.
#[verifier::external_body]
pub(crate) fn limbs_less(a: &BigValue, b: &BigValue) -> (r: bool)
    ensures
        r == (a.value() < b.value()),
{
    BigUint::new(a.limbs.clone()) < BigUint::new(b.limbs.clone())
}

/// Calls `BigUint::pow` on `BigUint::from(b)`; claims `b^e`.
#[verifier::external_body]
pub(crate) fn limbs_pow_u64(b: u64, e: u32) -> (r: BigValue)
    ensures
        r.value() == npow(b as nat, e as nat),
{
    BigValue { limbs: BigUint::from(b).pow(e).to_u32_digits() }
}

} // verus!
