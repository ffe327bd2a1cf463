//! Arbitrary-precision natural numbers.
//!
//! The numbers are `num_bigint::BigUint` values. Their arithmetic is not
//! verified here: every function of this module states, without proof, what
//! one operation of that crate returns.

use vstd::prelude::*;
use num_bigint::BigUint;
use num_traits::{ToPrimitive, Zero};

verus! {

/// `num_bigint::BigUint`, a natural number of any size. Nothing of its
/// inside is known here.
#[verifier::external_type_specification]
#[verifier::external_body]
pub struct ExBigUint(num_bigint::BigUint);

/// The natural number that a `BigUint` holds.
pub uninterp spec fn big_value(n: BigUint) -> nat;

/// `BigUint::from` on a `usize`: the number `n`.
#[verifier::external_body]
pub(crate) fn big_from(n: usize) -> (r: BigUint)
    ensures
        big_value(r) == n,
{
    BigUint::from(n)
}

/// `Clone::clone` of a `BigUint`: a number of the same value.
#[verifier::external_body]
pub(crate) fn big_clone(a: &BigUint) -> (r: BigUint)
    ensures
        big_value(r) == big_value(*a),
{
    a.clone()
}

/// `&BigUint + &BigUint`: the sum.
#[verifier::external_body]
pub(crate) fn big_add(a: &BigUint, b: &BigUint) -> (r: BigUint)
    ensures
        big_value(r) == big_value(*a) + big_value(*b),
{
    a + b
}

/// `&BigUint * &BigUint`: the product.
#[verifier::external_body]
pub(crate) fn big_mul(a: &BigUint, b: &BigUint) -> (r: BigUint)
    ensures
        big_value(r) == big_value(*a) * big_value(*b),
{
    a * b
}

/// `&BigUint / &BigUint`: the quotient rounded down. The crate panics on a
/// zero divisor, which is left out here.
#[verifier::external_body]
pub(crate) fn big_div(a: &BigUint, b: &BigUint) -> (r: BigUint)
    requires
        big_value(*b) != 0,
    ensures
        big_value(r) == big_value(*a) / big_value(*b),
{
    a / b
}

/// `&BigUint % &BigUint`: the remainder. The crate panics on a zero
/// divisor, which is left out here.
#[verifier::external_body]
pub(crate) fn big_rem(a: &BigUint, b: &BigUint) -> (r: BigUint)
    requires
        big_value(*b) != 0,
    ensures
        big_value(r) == big_value(*a) % big_value(*b),
{
    a % b
}

/// `Zero::is_zero` of a `BigUint`: whether the number is zero.
#[verifier::external_body]
pub(crate) fn big_is_zero(a: &BigUint) -> (r: bool)
    ensures
        r == (big_value(*a) == 0),
{
    a.is_zero()
}

/// `BigUint::pow`: the number raised to the power `exponent`.
#[verifier::external_body]
pub(crate) fn big_pow(a: &BigUint, exponent: u32) -> (r: BigUint)
    ensures
        big_value(r) == vstd::arithmetic::power::pow(big_value(*a) as int, exponent as nat),
{
    a.pow(exponent)
}

/// `ToPrimitive::to_u64` of a `BigUint`: the number itself where it fits 64
/// bits, else nothing.
#[verifier::external_body]
pub(crate) fn big_to_u64(a: &BigUint) -> (r: Option<u64>)
    ensures
        r == (if big_value(*a) <= u64::MAX {
            Some(big_value(*a) as u64)
        } else {
            None::<u64>
        }),
{
    a.to_u64()
}

/// Number of decimal digits of `n`; zero has one digit.
pub open spec fn decimal_len(n: nat) -> nat
    decreases n,
{
    if n < 10 {
        1
    } else {
        1 + decimal_len(n / 10)
    }
}

/// `BigUint::to_str_radix` with radix ten, and the length of that string:
/// the crate writes the number in decimal digits, most significant first,
/// without sign or leading zeros, and zero as a single digit.
#[verifier::external_body]
pub(crate) fn big_decimal_len(a: &BigUint) -> (r: usize)
    ensures
        r == decimal_len(big_value(*a)),
{
    a.to_str_radix(10).len()
}

} // verus!
