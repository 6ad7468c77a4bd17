//! The size of the space that a search faces, as a decimal number.

use vstd::prelude::*;
use vstd::arithmetic::power::pow;
use num_bigint::BigUint;

verus! {

/// The character of a decimal digit.
pub open spec fn digit(d: int) -> char {
    if d == 0 {
        '0'
    } else if d == 1 {
        '1'
    } else if d == 2 {
        '2'
    } else if d == 3 {
        '3'
    } else if d == 4 {
        '4'
    } else if d == 5 {
        '5'
    } else if d == 6 {
        '6'
    } else if d == 7 {
        '7'
    } else if d == 8 {
        '8'
    } else {
        '9'
    }
}

/// The decimal digits of `n`, the highest first, without leading zeros.
pub open spec fn decimal(n: nat) -> Seq<char>
    decreases n,
{
    if n < 10 {
        seq![digit(n as int)]
    } else {
        decimal(n / 10).push(digit((n % 10) as int))
    }
}

/// Raises `base` to the power `exponent` with `num_traits::pow` on a
/// `num_bigint::BigUint` (made by `BigUint::from`), and writes the result
/// with `BigUint::to_str_radix(10)`.
///
/// Trusted: the text holds the decimal digits of `base` to the power
/// `exponent`, where anything to the power 0 is 1.
#[verifier::external_body]
pub(crate) fn power_decimal(base: usize, exponent: usize) -> (digits: String)
    ensures
        digits@ == decimal(pow(base as int, exponent as nat) as nat),
{
    num_traits::pow(BigUint::from(base), exponent).to_str_radix(10)
}

} // verus!
