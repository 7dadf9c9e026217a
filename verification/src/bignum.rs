//! Arbitrary-precision natural numbers.
//!
//! The numbers are `num_bigint::BigUint` values. Verus does not look inside
//! them: what a value holds has a name, [`big_digits`], and every operation
//! that the library uses is a small function whose contract is stated over
//! that name and is trusted, not proved.

use vstd::prelude::*;
use num_bigint::BigUint;
use num_traits::Zero;
use factorial::Factorial;

verus! {

/// `num_bigint::BigUint`, taken as it is: the verifier knows nothing of a
/// value but what the functions below say.
#[verifier::external_type_specification]
#[verifier::external_body]
pub struct ExBigUint(BigUint);

/// The base 2^32 digits of a number, least significant first, as
/// `BigUint::to_u32_digits` hands them out.
pub uninterp spec fn big_digits(n: BigUint) -> Seq<u32>;

/// The number that a sequence of base 2^32 digits stands for, least
/// significant digit first.
pub open spec fn digits_value(digits: Seq<u32>) -> nat
    decreases digits.len(),
{
    if digits.len() == 0 {
        0
    } else {
        digits[0] as nat + 0x1_0000_0000 * digits_value(digits.drop_first())
    }
}

/// The natural number that `n` holds.
pub open spec fn big_value(n: BigUint) -> nat {
    digits_value(big_digits(n))
}

/// The factorial of `n`.
pub open spec fn factorial(n: nat) -> nat
    decreases n,
{
    if n == 0 {
        1
    } else {
        n * factorial((n - 1) as nat)
    }
}

/// `num_traits::Zero::zero` for `BigUint`: the number zero, which has no digits.
#[verifier::external_body]
pub(crate) fn big_zero() -> (r: BigUint)
    ensures
        big_digits(r) == Seq::<u32>::empty(),
{
    BigUint::zero()
}

/// `BigUint::from(usize)`: the number `n`.
#[verifier::external_body]
pub(crate) fn big_from_usize(n: usize) -> (r: BigUint)
    ensures
        big_value(r) == n,
{
    BigUint::from(n)
}

/// `usize::try_from(&BigUint)`: the number as a `usize`, where it fits.
#[verifier::external_body]
pub(crate) fn big_to_usize(n: &BigUint) -> (r: Option<usize>)
    ensures
        r is Some <==> big_value(*n) <= usize::MAX,
        r matches Some(v) ==> v == big_value(*n),
{
    usize::try_from(n).ok()
}

/// `Clone::clone` for `BigUint`: a number with the same digits.
pub assume_specification[ <BigUint as Clone>::clone ](n: &BigUint) -> (r: BigUint)
    ensures
        big_digits(r) == big_digits(*n),
;

/// `&BigUint % usize`: the remainder of `n` divided by `d`. The outside code
/// panics on a zero divisor.
#[verifier::external_body]
pub(crate) fn big_rem(n: &BigUint, d: usize) -> (r: BigUint)
    requires
        d > 0,
    ensures
        big_value(r) == big_value(*n) % (d as nat),
{
    n % d
}

/// `BigUint / usize`: the quotient of `n` divided by `d`, rounded down. The
/// outside code panics on a zero divisor.
#[verifier::external_body]
pub(crate) fn big_div(n: BigUint, d: usize) -> (r: BigUint)
    requires
        d > 0,
    ensures
        big_value(r) == big_value(n) / (d as nat),
{
    n / d
}

/// `BigUint * usize`: the product.
#[verifier::external_body]
pub(crate) fn big_mul(n: BigUint, m: usize) -> (r: BigUint)
    ensures
        big_value(r) == big_value(n) * m,
{
    n * m
}

/// `BigUint + BigUint`: the sum.
#[verifier::external_body]
pub(crate) fn big_add(a: BigUint, b: BigUint) -> (r: BigUint)
    ensures
        big_value(r) == big_value(a) + big_value(b),
{
    a + b
}

/// `BigUint < BigUint`: whether `a` is the smaller number.
#[verifier::external_body]
pub(crate) fn big_lt(a: &BigUint, b: &BigUint) -> (r: bool)
    ensures
        r == (big_value(*a) < big_value(*b)),
{
    a < b
}

/// `factorial::Factorial::factorial` for `BigUint`: the factorial of `n`.
/// Below 35 the outside code reads it from a table; the contract claims
/// nothing of larger arguments.
#[verifier::external_body]
pub(crate) fn big_factorial(n: &BigUint) -> (r: BigUint)
    requires
        big_value(*n) < 35,
    ensures
        big_value(r) == factorial(big_value(*n)),
{
    n.factorial()
}

} // verus!
