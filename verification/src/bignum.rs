//! Arbitrary-precision naturals: the contract this library relies on when it
//! hands exponentiation and reduction to `num_bigint::BigUint`.
//!
//! Nothing in this module is proved. Each item states what the outside
//! operation is documented to do; the rest of the library is verified against
//! these statements.

use vstd::prelude::*;
use vstd::arithmetic::power::pow;
use num_bigint::BigUint;
use num_bigint::ToBigUint;

verus! {

/// `num_bigint::BigUint`, carried through verified code as an opaque value.
#[verifier::external_type_specification]
#[verifier::external_body]
pub struct ExBigUint(num_bigint::BigUint);

/// The base-2^32 digits of a `BigUint`, least significant first, as
/// `BigUint::to_u32_digits` lists them.
pub uninterp spec fn biguint_digits(b: BigUint) -> Seq<u32>;

/// The number that a little-endian sequence of base-2^32 digits denotes.
pub open spec fn digits_value(digits: Seq<u32>) -> nat
    decreases digits.len(),
{
    if digits.len() == 0 {
        0
    } else {
        digits[0] as nat + 0x1_0000_0000 * digits_value(digits.drop_first())
    }
}

/// The natural number that a `BigUint` holds.
pub open spec fn big_value(b: BigUint) -> nat {
    digits_value(biguint_digits(b))
}

/// `ToBigUint::to_biguint` on a `u8`: always `Some`, holding the same number.
#[verifier::external_body]
pub(crate) fn big_from_u8(x: u8) -> (b: Option<BigUint>)
    ensures
        b is Some,
        big_value(b->0) == x,
{
    x.to_biguint()
}

/// `BigUint::pow`: the base raised to `exponent`, with `0^0 = 1`. The power
/// is built in full, so time and memory grow with the size of the result.
#[verifier::external_body]
pub(crate) fn big_pow(base: &BigUint, exponent: u32) -> (r: BigUint)
    ensures
        big_value(r) == pow(big_value(*base) as int, exponent as nat),
{
    base.pow(exponent)
}

/// `BigUint % u128`: the remainder of division by a non-zero `modulus`.
/// The outside operation panics on a zero modulus, which is excluded here.
#[verifier::external_body]
pub(crate) fn big_rem(x: BigUint, modulus: u128) -> (r: BigUint)
    requires
        modulus > 0,
    ensures
        big_value(r) == big_value(x) % (modulus as nat),
{
    x % modulus
}

/// `BigUint::to_u32_digits`: the digits, least significant first. The most
/// significant digit, which comes last, is never zero; zero has no digits.
#[verifier::external_body]
pub(crate) fn big_u32_digits(x: &BigUint) -> (digits: Vec<u32>)
    ensures
        digits@ == biguint_digits(*x),
        digits@.len() > 0 ==> digits@.last() != 0,
{
    x.to_u32_digits()
}

} // verus!
