//! Arithmetic and number formatting by `rug` and `num_bigint`, on plain sequences of digits.
//!
//! Each function here hands its arguments to one function of those crates and hands back what
//! comes out. Their contracts are taken on trust; everything else is proved.

use crate::digits;
use crate::numeral;
use num_bigint::BigUint;
use rug::integer::{Order, ParseIntegerError};
use rug::ops::Pow;
use vstd::arithmetic::power::*;
use vstd::prelude::*;

verus! {

/// The error of `rug::Integer::parse_radix`. Nothing is known of what it holds.
#[verifier::external_type_specification]
#[verifier::external_body]
pub struct ExParseIntegerError(ParseIntegerError);

/// Calls `rug`'s `Mul` on two integers: the result is the exact product. The product has to be of
/// a size that GMP can hold, which would otherwise abort the process.
#[verifier::external_body]
pub(crate) fn rug_mul(a: &[u32], b: &[u32]) -> (r: Vec<u32>)
    requires
        digits::holds(a@),
        digits::holds(b@),
        digits::size(digits::value(a@)) + digits::size(digits::value(b@)) <= digits::max_bits(),
    ensures
        digits::normalized(r@),
        digits::value(r@) == digits::value(a@) * digits::value(b@),
{
    let fst = rug::Integer::from_digits(a, Order::Lsf);
    let snd = rug::Integer::from_digits(b, Order::Lsf);
    (fst * snd).to_digits(Order::Lsf)
}

/// Calls `rug`'s `Rem` on two integers: of two natural numbers the result is the remainder of the
/// division. It panics where the divisor is zero.
#[verifier::external_body]
pub(crate) fn rug_rem(a: &[u32], b: &[u32]) -> (r: Vec<u32>)
    requires
        digits::holds(a@),
        digits::holds(b@),
        digits::value(b@) != 0,
    ensures
        digits::normalized(r@),
        digits::value(r@) == digits::value(a@) % digits::value(b@),
{
    let fst = rug::Integer::from_digits(a, Order::Lsf);
    let snd = rug::Integer::from_digits(b, Order::Lsf);
    (fst % snd).to_digits(Order::Lsf)
}

/// Calls `rug`'s `Pow<u32>` on an integer: the result is the exact power, and any zeroth power is
/// one. The power has to be of a size that GMP can hold, which would otherwise abort the process.
#[verifier::external_body]
pub(crate) fn rug_pow(a: &[u32], exponent: u32) -> (r: Vec<u32>)
    requires
        digits::holds(a@),
        digits::size(digits::value(a@)) * exponent <= digits::max_bits(),
    ensures
        digits::normalized(r@),
        digits::value(r@) == pow(digits::value(a@) as int, exponent as nat),
{
    rug::Integer::from_digits(a, Order::Lsf).pow(exponent).to_digits(Order::Lsf)
}

/// Calls `rug`'s `PartialOrd` on two integers: it orders them by their values.
#[verifier::external_body]
pub(crate) fn rug_less(a: &[u32], b: &[u32]) -> (r: bool)
    requires
        digits::holds(a@),
        digits::holds(b@),
    ensures
        r == (digits::value(a@) < digits::value(b@)),
{
    rug::Integer::from_digits(a, Order::Lsf) < rug::Integer::from_digits(b, Order::Lsf)
}

/// Calls `rug::Integer::parse_radix`, by which `rug::Integer::from_str_radix` is defined, on a
/// text that is short enough for GMP to hold the number: it fails where the text stands for no
/// number, and gives the sign and the magnitude of the number otherwise.
#[verifier::external_body]
pub(crate) fn rug_parse(text: &[u8], radix: i32) -> (r: Result<(bool, Vec<u32>), ParseIntegerError>)
    requires
        2 <= radix <= 36,
        text@.len() * digits::size(radix as nat) <= digits::max_bits() + 64,
    ensures
        r matches Ok((negative, d)) ==> {
            &&& digits::normalized(d@)
            &&& numeral::parsed(text@, radix as nat) matches Some(v)
            &&& negative == (v < 0)
            &&& digits::value(d@) == digits::magnitude(v)
        },
        r is Err ==> numeral::parsed(text@, radix as nat) is None,
{
    match rug::Integer::parse_radix(text, radix) {
        Ok(parsed) => {
            let number = rug::Integer::from(parsed);
            Ok((number < 0, number.to_digits(Order::Lsf)))
        },
        Err(e) => Err(e),
    }
}

/// Calls `num_bigint::BigUint::to_str_radix`: the number in lower case digits of the radix, most
/// significant digit first, without leading zeros. It panics where the text is too long to
/// allocate.
#[verifier::external_body]
pub(crate) fn biguint_to_str_radix(d: &[u32], radix: u32) -> (r: Vec<u8>)
    requires
        digits::holds(d@),
        2 <= radix <= 36,
        numeral::numeral(digits::value(d@), radix as nat).len() <= isize::MAX,
    ensures
        r@ == numeral::numeral(digits::value(d@), radix as nat),
{
    BigUint::from_slice(d).to_str_radix(radix).into_bytes()
}

} // verus!
