//! The arbitrary-precision integer boundary: `num`'s `BigInt` carried as an
//! opaque value, named by the integer it holds, with trusted wrappers for
//! the handful of operations the radix renderer needs.
use vstd::prelude::*;
use vstd::arithmetic::power::pow;
use crate::digits::canon_digits;
use crate::digits::digits_ok;
use crate::digits::digits_val;

verus! {

#[verifier::external_type_specification]
#[verifier::external_body]
pub struct ExBigInt(num::bigint::BigInt);

/// The integer a `BigInt` holds.
pub uninterp spec fn big_value(n: &num::bigint::BigInt) -> int;

/// Relies on `num_bigint::BigInt::from_radix_be`: builds the integer with
/// the given sign from big-endian digits below the radix; an empty or
/// all-zero digit vector gives zero whatever the sign.
#[verifier::external_body]
pub(crate) fn big_from_radix(negative: bool, digits: &Vec<u8>, radix: u8) -> (r: num::bigint::BigInt)
    requires
        2 <= radix,
        digits_ok(digits@, radix as nat),
    ensures
        big_value(&r) == if negative {
            -(digits_val(digits@, radix as nat) as int)
        } else {
            digits_val(digits@, radix as nat) as int
        },
{
    let sign = if negative {
        num::bigint::Sign::Minus
    } else {
        num::bigint::Sign::Plus
    };
    num::bigint::BigInt::from_radix_be(sign, digits.as_slice(), radix as u32).unwrap()
}

/// Relies on `num_bigint::BigInt::from` for `i128`.
#[verifier::external_body]
pub(crate) fn big_from_i128(n: i128) -> (r: num::bigint::BigInt)
    ensures
        big_value(&r) == n as int,
{
    num::bigint::BigInt::from(n)
}

/// Relies on `Mul` for `&BigInt`: exact product.
#[verifier::external_body]
pub(crate) fn big_mul(a: &num::bigint::BigInt, b: &num::bigint::BigInt) -> (r: num::bigint::BigInt)
    ensures
        big_value(&r) == big_value(a) * big_value(b),
{
    a * b
}

/// Relies on `num_bigint::BigInt::pow`: exact power.
#[verifier::external_body]
pub(crate) fn big_pow(a: &num::bigint::BigInt, e: u32) -> (r: num::bigint::BigInt)
    ensures
        big_value(&r) == pow(big_value(a), e as nat),
{
    a.pow(e)
}

/// Relies on `Div` for `&BigInt`: quotient truncated toward zero, which on
/// nonnegative operands is the floor.
#[verifier::external_body]
pub(crate) fn big_div(a: &num::bigint::BigInt, b: &num::bigint::BigInt) -> (r: num::bigint::BigInt)
    requires
        big_value(a) >= 0,
        big_value(b) >= 1,
    ensures
        big_value(&r) == big_value(a) / big_value(b),
{
    a / b
}

/// Relies on `num_bigint::BigInt::sign`.
#[verifier::external_body]
pub(crate) fn big_is_negative(a: &num::bigint::BigInt) -> (r: bool)
    ensures
        r == (big_value(a) < 0),
{
    a.sign() == num::bigint::Sign::Minus
}

/// Relies on `num_bigint::BigInt::to_radix_be`: the canonical big-endian
/// digits of the magnitude in the given base, a single zero digit for zero.
#[verifier::external_body]
pub(crate) fn big_to_radix_digits(a: &num::bigint::BigInt, radix: u8) -> (r: Vec<u8>)
    requires
        2 <= radix,
    ensures
        r@ == canon_digits(if big_value(a) >= 0 {
            big_value(a) as nat
        } else {
            (-big_value(a)) as nat
        }, radix as nat),
{
    let (_, digits) = a.to_radix_be(radix as u32);
    digits
}

/// Builds the arbitrary-precision integer of a 32-bit value.
pub fn build_bigint(integer: i32) -> (r: num::bigint::BigInt)
    ensures
        big_value(&r) == integer as int,
{
    big_from_i128(integer as i128)
}

/// Builds the arbitrary-precision integer of a 128-bit value.
pub fn build_bigint_128(integer: i128) -> (r: num::bigint::BigInt)
    ensures
        big_value(&r) == integer as int,
{
    big_from_i128(integer)
}

} // verus!
