//! Trusted interface to num's arbitrary-precision unsigned integers.
//!
//! The operands of the precompile can be up to 1024 bytes wide, so the
//! executable arithmetic is done by `num::BigUint`. Each function the
//! pipeline calls is wrapped here with a contract over `big_value`, the
//! unsigned integer a `BigUint` holds; everything else in the crate is
//! verified against these contracts.

use vstd::prelude::*;
use vstd::arithmetic::power::pow;
use vstd::arithmetic::power2::pow2;
use crate::bytes::be_value;
use crate::gas::bit_len;

verus! {

/// `num::BigUint`, declared so that its values can flow through verified
/// code. The value itself is opaque; `big_value` names what it holds.
#[verifier::external_type_specification]
#[verifier::external_body]
pub struct ExBigUint(num::BigUint);

/// The unsigned integer a `BigUint` holds.
pub uninterp spec fn big_value(b: num::BigUint) -> nat;

/// Relies on `BigUint::from_bytes_be`: the slice is read as one big-endian
/// unsigned integer, and the empty slice gives zero.
#[verifier::external_body]
pub(crate) fn big_from_bytes_be(bytes: &[u8]) -> (r: num::BigUint)
    ensures
        big_value(r) == be_value(bytes@),
{
    num::BigUint::from_bytes_be(bytes)
}

/// Relies on `BigUint::to_bytes_be`: the value written in big-endian bytes,
/// without leading zeroes, except that zero is written as one zero byte.
#[verifier::external_body]
pub(crate) fn big_to_bytes_be(b: &num::BigUint) -> (r: Vec<u8>)
    ensures
        be_value(r@) == big_value(*b),
        r@.len() >= 1,
        big_value(*b) == 0 ==> r@.len() == 1 && r@[0] == 0,
        big_value(*b) != 0 ==> r@[0] != 0,
{
    b.to_bytes_be()
}

/// Relies on `Zero::zero` for `BigUint`: the value zero.
#[verifier::external_body]
pub(crate) fn big_zero() -> (r: num::BigUint)
    ensures
        big_value(r) == 0,
{
    num::Zero::zero()
}

/// Relies on `Zero::is_zero` for `BigUint`: true exactly for the value zero.
#[verifier::external_body]
pub(crate) fn big_is_zero(b: &num::BigUint) -> (r: bool)
    ensures
        r <==> big_value(*b) == 0,
{
    num::Zero::is_zero(b)
}

/// Relies on `One::is_one` for `BigUint`: true exactly for the value one.
#[verifier::external_body]
pub(crate) fn big_is_one(b: &num::BigUint) -> (r: bool)
    ensures
        r <==> big_value(*b) == 1,
{
    num::One::is_one(b)
}

/// Relies on `BigUint::bits`: the fewest binary digits needed to write the
/// value, and 0 for zero. The value cap keeps the count inside a `u64`.
#[verifier::external_body]
pub(crate) fn big_bits(b: &num::BigUint) -> (r: u64)
    requires
        big_value(*b) < pow2(8192),
    ensures
        r == bit_len(big_value(*b)),
{
    b.bits()
}

/// Relies on the `&` operator of `BigUint`: bitwise conjunction of the binary
/// digits, so masking with `2^256 - 1` keeps exactly the low 256 bits, which
/// is the value reduced modulo `2^256`.
#[verifier::external_body]
pub(crate) fn big_and(a: &num::BigUint, mask: &num::BigUint) -> (r: num::BigUint)
    ensures
        big_value(*mask) == pow2(256) - 1 ==> big_value(r) == big_value(*a) % pow2(256),
{
    a & mask
}

/// Relies on `BigUint::modpow`: `base^exponent` reduced modulo `modulus`.
/// It panics on a zero modulus, so that input is excluded here.
#[verifier::external_body]
pub(crate) fn big_modpow(base: &num::BigUint, exponent: &num::BigUint, modulus: &num::BigUint) -> (r:
    num::BigUint)
    requires
        big_value(*modulus) != 0,
    ensures
        big_value(r) == pow(big_value(*base) as int, big_value(*exponent)) % (big_value(*modulus)
            as int),
{
    base.modpow(exponent, modulus)
}

} // verus!
