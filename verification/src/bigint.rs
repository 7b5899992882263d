//! Trusted boundary around `num_bigint::BigInt`.
//!
//! A `BigInt` is an arbitrary-precision integer from the `num-bigint` crate.
//! Verus treats the type as opaque; `big_value` names the mathematical integer
//! a `BigInt` holds, and every wrapper below states what the operation it
//! calls does to that value.

use vstd::prelude::*;

verus! {

#[verifier::external_type_specification]
#[verifier::external_body]
pub struct ExBigInt(num_bigint::BigInt);

/// The mathematical integer that a `BigInt` represents.
pub uninterp spec fn big_value(b: num_bigint::BigInt) -> int;

/// Relies on `impl From<u128> for BigInt`: the conversion is value-preserving.
#[verifier::external_body]
pub fn big_from_u128(x: u128) -> (r: num_bigint::BigInt)
    ensures
        big_value(r) == x as int,
{
    num_bigint::BigInt::from(x)
}

/// Relies on `impl Clone for BigInt`: the clone holds the same integer.
#[verifier::external_body]
pub fn big_clone(a: &num_bigint::BigInt) -> (r: num_bigint::BigInt)
    ensures
        big_value(r) == big_value(*a),
{
    a.clone()
}

/// Relies on `impl Add for &BigInt`: exact arbitrary-precision addition.
#[verifier::external_body]
pub fn big_add(a: &num_bigint::BigInt, b: &num_bigint::BigInt) -> (r: num_bigint::BigInt)
    ensures
        big_value(r) == big_value(*a) + big_value(*b),
{
    a + b
}

/// Relies on `impl Sub for &BigInt`: exact arbitrary-precision subtraction.
#[verifier::external_body]
pub fn big_sub(a: &num_bigint::BigInt, b: &num_bigint::BigInt) -> (r: num_bigint::BigInt)
    ensures
        big_value(r) == big_value(*a) - big_value(*b),
{
    a - b
}

/// Relies on `impl Mul for &BigInt`: exact arbitrary-precision multiplication.
#[verifier::external_body]
pub fn big_mul(a: &num_bigint::BigInt, b: &num_bigint::BigInt) -> (r: num_bigint::BigInt)
    ensures
        big_value(r) == big_value(*a) * big_value(*b),
{
    a * b
}

/// Relies on `impl Div for &BigInt`: quotient truncated toward zero, which for
/// a non-negative dividend and positive divisor agrees with Euclidean division.
#[verifier::external_body]
pub fn big_div(a: &num_bigint::BigInt, b: &num_bigint::BigInt) -> (r: num_bigint::BigInt)
    requires
        big_value(*a) >= 0,
        big_value(*b) > 0,
    ensures
        big_value(r) == big_value(*a) / big_value(*b),
{
    a / b
}

/// Relies on `impl Rem for &BigInt`: the remainder of truncated division, so
/// its sign follows the dividend and its magnitude is below the divisor.
#[verifier::external_body]
pub fn big_rem(a: &num_bigint::BigInt, b: &num_bigint::BigInt) -> (r: num_bigint::BigInt)
    requires
        big_value(*b) > 0,
    ensures
        big_value(*a) >= 0 ==> big_value(r) == big_value(*a) % big_value(*b),
        big_value(*a) < 0 ==> big_value(r) == -((-big_value(*a)) % big_value(*b)),
{
    a % b
}

/// Relies on `impl PartialEq for BigInt`: equality of the represented integers.
#[verifier::external_body]
pub fn big_eq(a: &num_bigint::BigInt, b: &num_bigint::BigInt) -> (r: bool)
    ensures
        r == (big_value(*a) == big_value(*b)),
{
    a == b
}

/// Relies on `impl Ord for BigInt`: the order of the represented integers.
#[verifier::external_body]
pub fn big_lt(a: &num_bigint::BigInt, b: &num_bigint::BigInt) -> (r: bool)
    ensures
        r == (big_value(*a) < big_value(*b)),
{
    a < b
}

} // verus!
