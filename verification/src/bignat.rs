//! The boundary to `num_bigint`: the `BigUint` type, the natural number it
//! stands for, and one contract per operation that the library calls.
//!
//! The wrappers in this file are not proved. Each one makes exactly one call
//! into `num_bigint` and states what that operation is documented to return,
//! over the natural number that the big integer holds.

use num_bigint::BigUint;
use vstd::arithmetic::power::pow;
use vstd::arithmetic::power2::pow2;
use vstd::pervasive::unreached;
use vstd::prelude::*;

verus! {

/// Makes `num_bigint::BigUint` known to the verifier, as a type whose
/// inside it does not see.
#[verifier::external_type_specification]
#[verifier::external_body]
pub struct ExBigUint(num_bigint::BigUint);

/// The natural number that a `BigUint` holds.
pub uninterp spec fn nat_of(b: BigUint) -> nat;

/// The number written by base-2^32 digits, least significant digit first.
pub open spec fn digits_value(digits: Seq<u32>) -> nat
    decreases digits.len(),
{
    if digits.len() == 0 {
        0
    } else {
        digits[0] as nat + 0x1_0000_0000 * digits_value(digits.skip(1))
    }
}

/// `BigUint::from(u64)`: the big integer with the value of `x`.
#[verifier::external_body]
pub(crate) fn big_from_u64(x: u64) -> (r: BigUint)
    ensures
        nat_of(r) == x,
{
    BigUint::from(x)
}

/// `BigUint::clone`: a copy that holds the same number.
#[verifier::external_body]
pub(crate) fn big_clone(a: &BigUint) -> (r: BigUint)
    ensures
        nat_of(r) == nat_of(*a),
{
    a.clone()
}

/// `==` on `BigUint`: whether both hold the same number.
#[verifier::external_body]
pub(crate) fn big_eq(a: &BigUint, b: &BigUint) -> (r: bool)
    ensures
        r == (nat_of(*a) == nat_of(*b)),
{
    a == b
}

/// `<` on `BigUint`: the order of the numbers held.
#[verifier::external_body]
pub(crate) fn big_lt(a: &BigUint, b: &BigUint) -> (r: bool)
    ensures
        r == (nat_of(*a) < nat_of(*b)),
{
    a < b
}

/// `&a + &b` on `BigUint`: the sum.
#[verifier::external_body]
pub(crate) fn big_add(a: &BigUint, b: &BigUint) -> (r: BigUint)
    ensures
        nat_of(r) == nat_of(*a) + nat_of(*b),
{
    a + b
}

/// `&a - &b` on `BigUint`: the difference. The subtraction panics when the
/// result would be negative, so that case is excluded.
#[verifier::external_body]
pub(crate) fn big_sub(a: &BigUint, b: &BigUint) -> (r: BigUint)
    requires
        nat_of(*a) >= nat_of(*b),
    ensures
        nat_of(r) == nat_of(*a) - nat_of(*b),
{
    a - b
}

/// `&a * &b` on `BigUint`: the product.
#[verifier::external_body]
pub(crate) fn big_mul(a: &BigUint, b: &BigUint) -> (r: BigUint)
    ensures
        nat_of(r) == nat_of(*a) * nat_of(*b),
{
    a * b
}

/// `&a / &b` on `BigUint`: the quotient rounded down. Division by zero
/// panics, so that case is excluded.
#[verifier::external_body]
pub(crate) fn big_div(a: &BigUint, b: &BigUint) -> (r: BigUint)
    requires
        nat_of(*b) != 0,
    ensures
        nat_of(r) == nat_of(*a) / nat_of(*b),
{
    a / b
}

/// `&a % &b` on `BigUint`: the remainder. A zero divisor panics, so that
/// case is excluded.
#[verifier::external_body]
pub(crate) fn big_rem(a: &BigUint, b: &BigUint) -> (r: BigUint)
    requires
        nat_of(*b) != 0,
    ensures
        nat_of(r) == nat_of(*a) % nat_of(*b),
{
    a % b
}

/// `BigUint::pow`: the base raised to a machine-sized exponent.
#[verifier::external_body]
pub(crate) fn big_pow(a: &BigUint, exponent: u32) -> (r: BigUint)
    ensures
        nat_of(r) == pow(nat_of(*a) as int, exponent as nat),
{
    a.pow(exponent)
}

/// `BigUint::nth_root`: the truncated principal root, that is the largest
/// number whose `n`-th power does not exceed `a`. A degree of zero panics,
/// so that case is excluded.
#[verifier::external_body]
pub(crate) fn big_nth_root(a: &BigUint, n: u32) -> (r: BigUint)
    requires
        n >= 1,
    ensures
        pow(nat_of(r) as int, n as nat) <= nat_of(*a),
        nat_of(*a) < pow(nat_of(r) as int + 1, n as nat),
{
    a.nth_root(n)
}

/// `BigUint::bit`: whether the binary digit at the given position is set.
#[verifier::external_body]
pub(crate) fn big_bit(a: &BigUint, bit: u64) -> (r: bool)
    ensures
        r == ((nat_of(*a) / pow2(bit as nat)) % 2 == 1),
{
    a.bit(bit)
}

/// `BigUint::to_u32_digits`: the base-2^32 digits, least significant first,
/// without a leading zero digit (so zero has no digits at all).
#[verifier::external_body]
pub(crate) fn big_to_u32_digits(a: &BigUint) -> (r: Vec<u32>)
    ensures
        digits_value(r@) == nat_of(*a),
        r@.len() > 0 ==> r@[r@.len() - 1] != 0,
{
    a.to_u32_digits()
}

/// A number with a nonzero most significant digit is at least the weight of
/// that digit's place.
pub proof fn lemma_digits_lower_bound(digits: Seq<u32>)
    requires
        digits.len() > 0,
        digits[digits.len() - 1] != 0,
    ensures
        digits_value(digits) >= 1,
        digits.len() >= 2 ==> digits_value(digits) >= 0x1_0000_0000,
    decreases digits.len(),
{
    if digits.len() == 1 {
        assert(digits.skip(1).len() == 0);
        assert(digits_value(digits.skip(1)) == 0);
    } else {
        let rest = digits.skip(1);
        assert(rest[rest.len() - 1] == digits[digits.len() - 1]);
        lemma_digits_lower_bound(rest);
    }
}

/// Whether a big integer is zero.
pub fn big_is_zero(a: &BigUint) -> (r: bool)
    ensures
        r == (nat_of(*a) == 0),
{
    let zero = big_from_u64(0);
    big_eq(a, &zero)
}

/// Whether a big integer is one.
pub fn big_is_one(a: &BigUint) -> (r: bool)
    ensures
        r == (nat_of(*a) == 1),
{
    let one = big_from_u64(1);
    big_eq(a, &one)
}

/// The value of a big integer as a `u32`, if it is small enough.
pub fn biguint_to_u32(x: &BigUint) -> (r: Option<u32>)
    ensures
        match r {
            Some(v) => nat_of(*x) == v,
            None => nat_of(*x) > u32::MAX,
        },
{
    let digits = big_to_u32_digits(x);
    if digits.len() == 0 {
        Some(0)
    } else if digits.len() == 1 {
        proof {
            assert(digits@.skip(1).len() == 0);
            assert(digits_value(digits@.skip(1)) == 0);
        }
        Some(digits[0])
    } else {
        proof {
            lemma_digits_lower_bound(digits@);
        }
        None
    }
}

/// The value of a big integer that is known to fit in a `u32`.
pub fn small_value(x: &BigUint) -> (r: u32)
    requires
        nat_of(*x) <= u32::MAX,
    ensures
        r == nat_of(*x),
{
    match biguint_to_u32(x) {
        Some(v) => v,
        None => unreached(),
    }
}

} // verus!
