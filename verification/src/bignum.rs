//! Contracts for the big-integer operations of `num` that the library calls.
//!
//! Nothing in this module is proved: each function states what the named
//! operation of `num` does, over the number that a value holds.

use num::bigint::BigInt;
use num::bigint::BigUint;
use num::bigint::ParseBigIntError;
use rand::rngs::OsRng;
use vstd::prelude::*;

verus! {

/// `num::bigint::BigUint`, taken as it is. All that is known of a value is
/// the digits it holds, which [`digits`] names.
#[verifier::external_type_specification]
#[verifier::external_body]
pub struct ExBigUint(num::bigint::BigUint);

/// `num::bigint::BigInt`, taken as it is. All that is known of a value is
/// its sign and the digits it holds, which [`negative`] and [`magnitude`]
/// name.
#[verifier::external_type_specification]
#[verifier::external_body]
pub struct ExBigInt(num::bigint::BigInt);

/// `num::bigint::ParseBigIntError`, of which nothing is read.
#[verifier::external_type_specification]
#[verifier::external_body]
pub struct ExParseBigIntError(num::bigint::ParseBigIntError);

/// `rand::rngs::OsRng`, the handle of the operating system's random number
/// generator, of which nothing is read.
#[verifier::external_type_specification]
#[verifier::external_body]
pub struct ExOsRng(rand::rngs::OsRng);

/// The digits that a `BigUint` holds, as bytes, most significant first.
pub uninterp spec fn digits(b: BigUint) -> Seq<u8>;

/// The digits of the absolute value that a `BigInt` holds, as bytes, most
/// significant first.
pub uninterp spec fn magnitude(b: BigInt) -> Seq<u8>;

/// Whether a `BigInt` holds a number below zero.
pub uninterp spec fn negative(b: BigInt) -> bool;

/// The natural number that a `BigUint` holds: the one that its digits
/// write. What the operations below do is stated over this number.
pub closed spec fn uval(b: BigUint) -> nat {
    crate::bytes::be_value(digits(b))
}

/// The integer that a `BigInt` holds: the number that its digits write,
/// with its sign. What the operations below do is stated over this
/// integer.
pub closed spec fn ival(b: BigInt) -> int {
    if negative(b) {
        -(crate::bytes::be_value(magnitude(b)) as int)
    } else {
        crate::bytes::be_value(magnitude(b)) as int
    }
}

/// The numbers that a sequence of `BigUint` holds.
pub open spec fn uvals(v: Seq<BigUint>) -> Seq<nat> {
    v.map_values(|b: BigUint| uval(b))
}

/// `BigUint::from` on a `u64`: the result holds that number.
#[verifier::external_body]
pub(crate) fn from_u64(x: u64) -> (r: BigUint)
    ensures
        uval(r) == x,
{
    BigUint::from(x)
}

/// `Clone::clone` of a `BigUint`: the copy holds the same number.
#[verifier::external_body]
pub(crate) fn big_clone(a: &BigUint) -> (r: BigUint)
    ensures
        uval(r) == uval(*a),
{
    a.clone()
}

/// `&BigUint + &BigUint`: the sum, which cannot overflow.
#[verifier::external_body]
pub(crate) fn big_add(a: &BigUint, b: &BigUint) -> (r: BigUint)
    ensures
        uval(r) == uval(*a) + uval(*b),
{
    a + b
}

/// `&BigUint - &BigUint`, which panics when the result would be negative:
/// that case is excluded.
#[verifier::external_body]
pub(crate) fn big_sub(a: &BigUint, b: &BigUint) -> (r: BigUint)
    requires
        uval(*b) <= uval(*a),
    ensures
        uval(r) == uval(*a) - uval(*b),
{
    a - b
}

/// `&BigUint * &BigUint`: the product.
#[verifier::external_body]
pub(crate) fn big_mul(a: &BigUint, b: &BigUint) -> (r: BigUint)
    ensures
        uval(r) == uval(*a) * uval(*b),
{
    a * b
}

/// `&BigUint / &BigUint`, which panics on a zero divisor: the quotient
/// rounded down.
#[verifier::external_body]
pub(crate) fn big_div(a: &BigUint, b: &BigUint) -> (r: BigUint)
    requires
        uval(*b) > 0,
    ensures
        uval(r) == uval(*a) / uval(*b),
{
    a / b
}

/// `&BigUint % &BigUint`, which panics on a zero divisor: the remainder.
#[verifier::external_body]
pub(crate) fn big_rem(a: &BigUint, b: &BigUint) -> (r: BigUint)
    requires
        uval(*b) > 0,
    ensures
        uval(r) == uval(*a) % uval(*b),
{
    a % b
}

/// `BigUint`'s `<`: the order of the numbers held.
#[verifier::external_body]
pub(crate) fn big_lt(a: &BigUint, b: &BigUint) -> (r: bool)
    ensures
        r == (uval(*a) < uval(*b)),
{
    a < b
}

/// `BigUint`'s `==`: two values are equal exactly when they hold the same
/// number.
#[verifier::external_body]
pub(crate) fn big_eq(a: &BigUint, b: &BigUint) -> (r: bool)
    ensures
        r == (uval(*a) == uval(*b)),
{
    a == b
}

/// `BigUint::to_str_radix` with radix 32: the numeral in the digits `0-9a-v`,
/// most significant first, without a leading zero, and `"0"` for zero.
#[verifier::external_body]
pub(crate) fn to_str_radix32(a: &BigUint) -> (r: String)
    ensures
        r@ == crate::base32::b32_digits(uval(*a)),
{
    a.to_str_radix(32)
}

/// `BigUint::from_bytes_be`: the number that the bytes write, most
/// significant byte first; 0 for no bytes.
#[verifier::external_body]
pub(crate) fn from_bytes_be(bytes: &[u8]) -> (r: BigUint)
    ensures
        uval(r) == crate::bytes::be_value(bytes@),
{
    BigUint::from_bytes_be(bytes)
}

/// `BigUint::to_bytes_be`: the digits held, which are the bytes of the
/// number, most significant first, without a leading zero byte; one zero
/// byte for 0.
#[verifier::external_body]
pub(crate) fn to_bytes_be(a: &BigUint) -> (r: Vec<u8>)
    ensures
        r@ == digits(*a),
        r@ == crate::bytes::be_bytes(uval(*a)),
{
    a.to_bytes_be()
}

/// The handle `OsRng` of the operating system's random number generator.
#[verifier::external_body]
pub(crate) fn os_rng() -> OsRng {
    OsRng
}

/// `RandBigInt::gen_biguint_range` on an `OsRng`, which panics on an empty
/// range: some number from the lower bound up to, and without, the upper
/// bound. Nothing more is said of the number drawn.
#[verifier::external_body]
pub(crate) fn os_random_range(rng: &mut OsRng, lo: &BigUint, hi: &BigUint) -> (r: BigUint)
    requires
        uval(*lo) < uval(*hi),
    ensures
        uval(*lo) <= uval(r) < uval(*hi),
{
    num::bigint::RandBigInt::gen_biguint_range(rng, lo, hi)
}

/// `Num::from_str_radix` for `BigUint` with radix 32: the number that the
/// string writes, for the strings that `parse_number` takes, and an error
/// for every other string.
#[verifier::external_body]
pub(crate) fn from_str_radix32(s: &str) -> (r: Result<BigUint, ParseBigIntError>)
    ensures
        r is Ok <==> crate::base32::parse_number(s@) is Some,
        r matches Ok(n) ==> Some(uval(n)) == crate::base32::parse_number(s@),
{
    num::Num::from_str_radix(s, 32)
}

/// `RandBigInt::gen_biguint_range` on `rand::thread_rng()`, which panics on
/// an empty range: some number from the lower bound up to, and without, the
/// upper bound. Nothing more is said of the number drawn.
#[verifier::external_body]
pub(crate) fn random_range(lo: &BigUint, hi: &BigUint) -> (r: BigUint)
    requires
        uval(*lo) < uval(*hi),
    ensures
        uval(*lo) <= uval(r) < uval(*hi),
{
    num::bigint::RandBigInt::gen_biguint_range(&mut rand::thread_rng(), lo, hi)
}

/// `ToBigInt::to_bigint` of a `BigUint`: always `Some`, holding the same number.
#[verifier::external_body]
pub(crate) fn to_bigint(a: &BigUint) -> (r: Option<BigInt>)
    ensures
        r is Some,
        ival(r->0) == uval(*a),
{
    num::bigint::ToBigInt::to_bigint(a)
}

/// `ToBigUint::to_biguint` of a `BigInt`: `None` for a negative number,
/// otherwise the same number, with the same digits.
#[verifier::external_body]
pub(crate) fn to_biguint(a: &BigInt) -> (r: Option<BigUint>)
    ensures
        r is Some <==> !negative(*a),
        r is Some <==> ival(*a) >= 0,
        r is Some ==> digits(r->0) == magnitude(*a),
        r is Some ==> uval(r->0) == ival(*a),
{
    num::bigint::ToBigUint::to_biguint(a)
}

/// `Clone::clone` of a `BigInt`: the copy holds the same integer.
#[verifier::external_body]
pub(crate) fn int_clone(a: &BigInt) -> (r: BigInt)
    ensures
        ival(r) == ival(*a),
{
    a.clone()
}

/// `&BigInt + &BigInt`: the sum.
#[verifier::external_body]
pub(crate) fn int_add(a: &BigInt, b: &BigInt) -> (r: BigInt)
    ensures
        ival(r) == ival(*a) + ival(*b),
{
    a + b
}

/// `&BigInt - &BigInt`: the difference.
#[verifier::external_body]
pub(crate) fn int_sub(a: &BigInt, b: &BigInt) -> (r: BigInt)
    ensures
        ival(r) == ival(*a) - ival(*b),
{
    a - b
}

/// `&BigInt * &BigInt`: the product.
#[verifier::external_body]
pub(crate) fn int_mul(a: &BigInt, b: &BigInt) -> (r: BigInt)
    ensures
        ival(r) == ival(*a) * ival(*b),
{
    a * b
}

/// `&BigInt / &BigInt`, which panics on a zero divisor and rounds towards
/// zero. Stated for a dividend that is not negative and a positive divisor,
/// where that is the quotient rounded down.
#[verifier::external_body]
pub(crate) fn int_div(a: &BigInt, b: &BigInt) -> (r: BigInt)
    requires
        ival(*a) >= 0,
        ival(*b) > 0,
    ensures
        ival(r) == ival(*a) / ival(*b),
{
    a / b
}

/// `&BigInt % &BigInt`, which panics on a zero divisor and takes the sign
/// of the dividend. Stated for a dividend that is not negative and a
/// positive divisor, where that is the remainder.
#[verifier::external_body]
pub(crate) fn int_rem(a: &BigInt, b: &BigInt) -> (r: BigInt)
    requires
        ival(*a) >= 0,
        ival(*b) > 0,
    ensures
        ival(r) == ival(*a) % ival(*b),
{
    a % b
}

/// `BigInt`'s `<`: the order of the integers held.
#[verifier::external_body]
pub(crate) fn int_lt(a: &BigInt, b: &BigInt) -> (r: bool)
    ensures
        r == (ival(*a) < ival(*b)),
{
    a < b
}

} // verus!
