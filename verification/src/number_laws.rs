//! What the operations on numbers do, in terms of their values.

use crate::digits;
use crate::integer;
use crate::integer::{from_biguint, Integer};
use crate::log2;
use crate::log2::is_power_of_two;
use crate::natural::Natural;
use crate::numeral;
use vstd::arithmetic::div_mod::*;
use vstd::arithmetic::power::*;
use vstd::arithmetic::power2::*;
use vstd::prelude::*;

verus! {

/// Arithmetic on natural numbers is that on their values.
pub proof fn law_natural(
    a: Natural,
    b: Natural,
    e: u32,
    product: Natural,
    remainder: Natural,
    power: Natural,
    less: bool,
    equal: bool,
    zero: bool,
)
    requires
        b@ != 0,
        call_ensures(Natural::mul, (&a, &b), product),
        call_ensures(Natural::rem, (&a, &b), remainder),
        call_ensures(Natural::pow, (&a, e), power),
        call_ensures(Natural::less, (&a, &b), less),
        call_ensures(<Natural as PartialEq>::eq, (&a, &b), equal),
        call_ensures(Natural::is_zero, (&a,), zero),
    ensures
        product@ == a@ * b@,
        remainder@ < b@,
        (a@ - remainder@) % (b@ as int) == 0,
        power@ == pow(a@ as int, e as nat),
        less == (a@ < b@),
        equal == (a@ == b@),
        zero == (a@ == 0),
{
    let (x, y) = (a@ as int, b@ as int);
    lemma_fundamental_div_mod(x, y);
    lemma_mod_bound(x, y);
    let q = x / y;
    assert(x - remainder@ == q * y) by (nonlinear_arith)
        requires
            x == y * q + remainder@,
    ;
    lemma_mod_multiples_basic(q, y);
}

/// Arithmetic on integers is that on their values, and a remainder has the sign of the dividend.
pub proof fn law_integer(
    a: Integer,
    b: Integer,
    e: u32,
    product: Integer,
    remainder: Integer,
    power: Integer,
    less: bool,
    equal: bool,
)
    requires
        b@ != 0,
        call_ensures(Integer::mul, (&a, &b), product),
        call_ensures(Integer::rem, (&a, &b), remainder),
        call_ensures(Integer::pow, (&a, e), power),
        call_ensures(Integer::less, (&a, &b), less),
        call_ensures(<Integer as PartialEq>::eq, (&a, &b), equal),
    ensures
        product@ == a@ * b@,
        exists|q: int| a@ == #[trigger] (q * b@) + remainder@,
        -digits::magnitude(b@) < remainder@ < digits::magnitude(b@),
        a@ >= 0 ==> remainder@ >= 0,
        a@ <= 0 ==> remainder@ <= 0,
        power@ == pow(a@, e as nat),
        less == (a@ < b@),
        equal == (a@ == b@),
{
    let d = if a@ < 0 {
        -a@
    } else {
        a@
    };
    lemma_fundamental_div_mod(d, b@);
    let k = d / b@;
    let q = if a@ < 0 {
        -k
    } else {
        k
    };
    assert(a@ == q * b@ + remainder@) by (nonlinear_arith)
        requires
            d == b@ * k + d % b@,
            a@ < 0 && d == -a@ && q == -k && remainder@ == -(d % b@) || a@ >= 0 && d == a@ && q == k
                && remainder@ == d % b@,
    ;
    integer::lemma_mod_magnitude(d, b@);
    lemma_mod_bound(d, digits::magnitude(b@) as int);
    if a@ == 0 {
        lemma_small_mod(0, digits::magnitude(b@));
    }
}

/// An integer is made of its sign and its magnitude.
pub proof fn law_integer_parts(
    a: Integer,
    negative: bool,
    magnitude: &Natural,
    negate: bool,
    n: Natural,
    r: Integer,
    zero: bool,
    one: Integer,
)
    requires
        call_ensures(Integer::is_negative, (&a,), negative),
        call_ensures(Integer::magnitude, (&a,), magnitude),
        call_ensures(Integer::from_magnitude, (negate, n), r),
        call_ensures(Integer::is_zero, (&a,), zero),
        call_ensures(Integer::one, (), one),
    ensures
        negative == (a@ < 0),
        negative ==> a@ == -magnitude@,
        !negative ==> a@ == magnitude@,
        negate ==> r@ == -n@,
        !negate ==> r@ == n@,
        zero == (a@ == 0),
        one@ == 1,
{
}

/// A copy has the same value.
pub proof fn law_clone(n: Natural, m: Natural, a: Integer, b: Integer)
    requires
        cloned(n, m),
        cloned(a, b),
    ensures
        n@ == m@,
        a@ == b@,
{
}

/// The integer that is made of a natural number has its value.
pub proof fn law_from_biguint(n: Natural, r: Integer)
    requires
        call_ensures(from_biguint, (&n,), r),
    ensures
        r@ == n@,
{
}

/// Digits stand for the sum of their multiples of the powers of 2^32, and come back without leading
/// zeros.
pub proof fn law_digits(given: Vec<u32>, n: Natural, back: &[u32])
    requires
        call_ensures(Natural::from_digits, (given,), n),
        call_ensures(Natural::digits, (&n,), back),
    ensures
        n@ == given@.fold_right(|d: u32, v: nat| (d as nat + 0x1_0000_0000 * v) as nat, 0nat),
        n@ == back@.fold_right(|d: u32, v: nat| (d as nat + 0x1_0000_0000 * v) as nat, 0nat),
        back@.len() > 0 ==> back@.last() != 0,
{
    lemma_value_fold(given@);
    lemma_value_fold(back@);
}

proof fn lemma_value_fold(s: Seq<u32>)
    ensures
        digits::value(s) == s.fold_right(
            |d: u32, v: nat| (d as nat + 0x1_0000_0000 * v) as nat,
            0nat,
        ),
    decreases s.len(),
{
    let f = |d: u32, v: nat| (d as nat + 0x1_0000_0000 * v) as nat;
    s.lemma_fold_right_alt(f, 0nat);
    lemma_value_fold_alt(s);
}

proof fn lemma_value_fold_alt(s: Seq<u32>)
    ensures
        digits::value(s) == s.fold_right_alt(
            |d: u32, v: nat| (d as nat + 0x1_0000_0000 * v) as nat,
            0nat,
        ),
    decreases s.len(),
{
    if s.len() > 0 {
        assert(s.skip(1) =~= s.subrange(1, s.len() as int));
        lemma_value_fold_alt(s.skip(1));
    }
}

/// The size of a number is the exponent of the least power of two that is not less.
pub proof fn law_size(n: Natural, r: u64)
    requires
        call_ensures(Natural::size, (&n,), r),
    ensures
        n@ <= pow2(r as nat),
        forall|k: nat| n@ <= #[trigger] pow2(k) ==> r <= k,
{
    digits::lemma_size_bound(n@);
    assert forall|k: nat| n@ <= #[trigger] pow2(k) implies r <= k by {
        digits::lemma_size_least(n@, k);
    }
}

/// A number that is written and read back is the same, with a sign in front or without.
pub proof fn law_text(
    n: Natural,
    radix: u32,
    text: Vec<u8>,
    plain: &[u8],
    signed: &[u8],
    a: Option<Integer>,
    b: Option<Integer>,
)
    requires
        2 <= radix <= 36,
        call_ensures(Natural::to_str_radix, (&n, radix), text),
        plain@ == text@,
        signed@ == seq![0x2du8] + text@,
        call_ensures(Integer::from_str_radix, (plain, radix), a),
        call_ensures(Integer::from_str_radix, (signed, radix), b),
    ensures
        a is Some && a->0@ == n@,
        b is Some && b->0@ == -n@,
{
    numeral::law_parsed_numeral(n@, radix as nat);
    numeral::law_parsed_negative(n@, radix as nat);
}

/// A text is read to the number that it stands for, and to none where it stands for none.
pub proof fn law_from_str_radix(text: &[u8], radix: u32, r: Option<Integer>)
    requires
        2 <= radix <= 36,
        call_ensures(Integer::from_str_radix, (text, radix), r),
    ensures
        r is Some == numeral::parsed(text@, radix as nat) is Some,
        r matches Some(x) ==> numeral::parsed(text@, radix as nat) == Some(x@),
{
}

/// A number is written in the symbols of its digits, most significant digit first, without leading
/// zeros.
pub proof fn law_numeral(n: Natural, radix: u32, text: Vec<u8>)
    requires
        2 <= radix <= 36,
        call_ensures(Natural::to_str_radix, (&n, radix), text),
    ensures
        text@.len() > 0,
        forall|i: int|
            0 <= i < text@.len() ==> 0x30 <= #[trigger] text@[i] <= 0x39 || 0x61 <= text@[i]
                < 0x61 + radix - 10,
        n@ == text@.fold_left(
            0nat,
            |v: nat, c: u8|
                (v * radix + if c <= 0x39 {
                    c - 0x30
                } else {
                    c - 0x61 + 10
                }) as nat,
        ),
        n@ > 0 ==> text@[0] != 0x30,
{
    let r = radix as nat;
    lemma_numeral_fold(n@, r);
    let f = |v: nat, c: u8|
        (v * r + if c <= 0x39 {
            c - 0x30
        } else {
            c - 0x61 + 10
        }) as nat;
    let g = |v: nat, c: u8|
        (v * radix + if c <= 0x39 {
            c - 0x30
        } else {
            c - 0x61 + 10
        }) as nat;
    assert(f =~= g);
}

proof fn lemma_numeral_fold(n: nat, radix: nat)
    requires
        2 <= radix <= 36,
    ensures
        ({
            let text = numeral::numeral(n, radix);
            &&& text.len() > 0
            &&& forall|i: int|
                0 <= i < text.len() ==> 0x30 <= #[trigger] text[i] <= 0x39 || 0x61 <= text[i]
                    < 0x61 + radix - 10
            &&& n == text.fold_left(
                0nat,
                |v: nat, c: u8|
                    (v * radix + if c <= 0x39 {
                        c - 0x30
                    } else {
                        c - 0x61 + 10
                    }) as nat,
            )
            &&& n > 0 ==> text[0] != 0x30
        }),
    decreases n,
{
    let text = numeral::numeral(n, radix);
    let f = |v: nat, c: u8|
        (v * radix + if c <= 0x39 {
            c - 0x30
        } else {
            c - 0x61 + 10
        }) as nat;
    if n < radix {
        assert(text.drop_last() =~= Seq::empty());
        assert(text.drop_last().fold_left(0nat, f) == 0);
        assert(0 * radix == 0);
        assert(f(0nat, text[0]) == n);
    } else {
        lemma_div_decreases(n as int, radix as int);
        let q = n / radix;
        lemma_numeral_fold(q, radix);
        assert(q > 0) by (nonlinear_arith)
            requires
                q == n / radix,
                n >= radix,
                radix >= 2,
        ;
        let rest = numeral::numeral(q, radix);
        assert(text.drop_last() =~= rest);
        lemma_fundamental_div_mod(n as int, radix as int);
        lemma_mod_bound(n as int, radix as int);
        vstd::arithmetic::mul::lemma_mul_is_commutative(q as int, radix as int);
        assert(f(q, text.last()) == n);
        assert forall|i: int| 0 <= i < text.len() implies 0x30 <= #[trigger] text[i] <= 0x39
            || 0x61 <= text[i] < 0x61 + radix - 10 by {
            if i < rest.len() {
                assert(text[i] == rest[i]);
            }
        }
        assert(text[0] == rest[0]);
    }
}

/// What a power of two is, and its logarithm.
pub proof fn law_power_of_two(n: usize, r: bool, k: nat, l: usize)
    requires
        call_ensures(is_power_of_two, (n,), r),
        n == pow2(k) ==> call_ensures(log2::log2, (n,), l),
    ensures
        r == exists|j: nat| #[trigger] pow2(j) == n,
        n == pow2(k) ==> r && l == k,
{
    if n == pow2(k) {
        log2::law_log(k);
    }
}

} // verus!
