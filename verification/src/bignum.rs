//! The arbitrary-precision unsigned integers that fractions are made of.
//!
//! `num_bigint::BigUint` does the arithmetic. Verus cannot see inside it, so
//! every operation that this crate uses is wrapped here, each with a contract
//! over the natural number that the integer holds. These contracts are taken
//! on trust from the behaviour of `num-bigint`; everything else in the crate
//! is proved from them.

use crate::bytes::le_minimal;
use crate::bytes::le_value;
use num_bigint::BigUint;
use vstd::prelude::*;

verus! {

#[verifier::external_type_specification]
#[verifier::external_body]
pub struct ExBigUint(num_bigint::BigUint);

/// The natural number that a big integer holds.
pub uninterp spec fn big_value(n: BigUint) -> nat;

/// The character of a decimal digit.
pub open spec fn digit_char(d: nat) -> char {
    if d == 0 {
        '0'
    } else if d == 1 {
        '1'
    } else if d == 2 {
        '2'
    } else if d == 3 {
        '3'
    } else if d == 4 {
        '4'
    } else if d == 5 {
        '5'
    } else if d == 6 {
        '6'
    } else if d == 7 {
        '7'
    } else if d == 8 {
        '8'
    } else {
        '9'
    }
}

/// A number in decimal digits, most significant first, without leading
/// zeros; zero is the single digit `0`.
pub open spec fn decimal(v: nat) -> Seq<char>
    decreases v,
{
    if v < 10 {
        seq![digit_char(v)]
    } else {
        decimal(v / 10).push(digit_char(v % 10))
    }
}

/// `BigUint::from(u64)`: the big integer with the value of `x`.
#[verifier::external_body]
pub(crate) fn big_from_u64(x: u64) -> (r: BigUint)
    ensures
        big_value(r) == x,
{
    BigUint::from(x)
}

/// `BigUint::clone`: a second integer with the same value.
#[verifier::external_body]
pub(crate) fn big_clone(a: &BigUint) -> (r: BigUint)
    ensures
        big_value(r) == big_value(*a),
{
    a.clone()
}

/// `BigUint == BigUint`: whether the two values are the same number.
#[verifier::external_body]
pub(crate) fn big_eq(a: &BigUint, b: &BigUint) -> (r: bool)
    ensures
        r == (big_value(*a) == big_value(*b)),
{
    a == b
}

/// `BigUint < BigUint`: whether the first value is the smaller number.
#[verifier::external_body]
pub(crate) fn big_lt(a: &BigUint, b: &BigUint) -> (r: bool)
    ensures
        r == (big_value(*a) < big_value(*b)),
{
    a < b
}

/// `&BigUint + &BigUint`: the sum.
#[verifier::external_body]
pub(crate) fn big_add(a: &BigUint, b: &BigUint) -> (r: BigUint)
    ensures
        big_value(r) == big_value(*a) + big_value(*b),
{
    a + b
}

/// `&BigUint - &BigUint`: the difference. The subtraction of `num-bigint`
/// panics when the result would be negative, so that case is excluded.
#[verifier::external_body]
pub(crate) fn big_sub(a: &BigUint, b: &BigUint) -> (r: BigUint)
    requires
        big_value(*a) >= big_value(*b),
    ensures
        big_value(r) == big_value(*a) - big_value(*b),
{
    a - b
}

/// `&BigUint * &BigUint`: the product.
#[verifier::external_body]
pub(crate) fn big_mul(a: &BigUint, b: &BigUint) -> (r: BigUint)
    ensures
        big_value(r) == big_value(*a) * big_value(*b),
{
    a * b
}

/// `&BigUint / &BigUint`: the quotient, rounded down. The division of
/// `num-bigint` panics on a zero divisor, so that case is excluded.
#[verifier::external_body]
pub(crate) fn big_div(a: &BigUint, b: &BigUint) -> (r: BigUint)
    requires
        big_value(*b) > 0,
    ensures
        big_value(r) == big_value(*a) / big_value(*b),
{
    a / b
}

/// `&BigUint % &BigUint`: the remainder of the division rounded down. It
/// panics on a zero divisor like the division, so that case is excluded.
#[verifier::external_body]
pub(crate) fn big_rem(a: &BigUint, b: &BigUint) -> (r: BigUint)
    requires
        big_value(*b) > 0,
    ensures
        big_value(r) == big_value(*a) % big_value(*b),
{
    a % b
}

/// `BigUint::to_string`: the value in decimal digits.
#[verifier::external_body]
pub(crate) fn big_to_decimal(a: &BigUint) -> (r: String)
    ensures
        r@ == decimal(big_value(*a)),
{
    a.to_string()
}

/// `BigUint::to_bytes_le`: the base-256 digits of the value, least
/// significant first, without superfluous zero digits; zero is the one
/// byte `0`.
#[verifier::external_body]
pub(crate) fn big_to_bytes_le(a: &BigUint) -> (r: Vec<u8>)
    ensures
        r@ == le_minimal(big_value(*a)),
{
    a.to_bytes_le()
}

/// `BigUint::from_bytes_le`: the integer whose base-256 digits, least
/// significant first, are the given bytes. Zero digits at the end change
/// nothing, and no bytes at all mean zero.
#[verifier::external_body]
pub(crate) fn big_from_bytes_le(bytes: &[u8]) -> (r: BigUint)
    ensures
        big_value(r) == le_value(bytes@),
{
    BigUint::from_bytes_le(bytes)
}

} // verus!
