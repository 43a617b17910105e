//! Numbers written in a radix from 2 to 36: what a text stands for, and how a natural number is
//! written.

use crate::digits;
use vstd::arithmetic::power::*;
use vstd::arithmetic::power2::*;
use vstd::prelude::*;

verus! {

/// The white space of ASCII.
pub open spec fn is_space(b: u8) -> bool {
    b == 0x20 || 0x09 <= b <= 0x0d
}

/// What a byte is worth as a digit: `0` to `9`, then the letters of either case; 36 for any other.
pub open spec fn digit_value(b: u8) -> nat {
    if 0x30 <= b <= 0x39 {
        (b - 0x30) as nat
    } else if 0x61 <= b <= 0x7a {
        (b - 0x61 + 10) as nat
    } else if 0x41 <= b <= 0x5a {
        (b - 0x41 + 10) as nat
    } else {
        36
    }
}

/// How a digit is written: `0` to `9`, then the lower case letters.
pub open spec fn symbol(d: nat) -> u8 {
    if d < 10 {
        (0x30 + d) as u8
    } else {
        (0x61 + d - 10) as u8
    }
}

/// What a sequence of digits stands for, most significant digit first.
pub open spec fn digits_value(s: Seq<u8>, radix: nat) -> nat
    decreases s.len(),
{
    if s.len() == 0 {
        0
    } else {
        digits_value(s.drop_last(), radix) * radix + digit_value(s.last())
    }
}

/// The text without its white space.
pub open spec fn without_space(text: Seq<u8>) -> Seq<u8> {
    text.filter(|b: u8| !is_space(b))
}

/// The text without its underscores.
pub open spec fn without_underscore(text: Seq<u8>) -> Seq<u8> {
    text.filter(|b: u8| b != 0x5f)
}

/// Whether the first byte is a plus or a minus sign.
pub open spec fn has_sign(text: Seq<u8>) -> bool {
    text.len() > 0 && (text[0] == 0x2b || text[0] == 0x2d)
}

/// Whether each byte is a digit of the radix.
pub open spec fn all_digits(s: Seq<u8>, radix: nat) -> bool {
    forall|i: int| 0 <= i < s.len() ==> digit_value(#[trigger] s[i]) < radix
}

/// The number that a text stands for, if it stands for one: an optional sign, then at least one
/// digit of the radix. White space is ignored everywhere, and so are underscores behind the first
/// digit.
pub open spec fn parsed(text: Seq<u8>, radix: nat) -> Option<int> {
    let signed = without_space(text);
    let unsigned = if has_sign(signed) {
        signed.skip(1)
    } else {
        signed
    };
    let digits = without_underscore(unsigned);
    if unsigned.len() == 0 || unsigned[0] == 0x5f || !all_digits(digits, radix) {
        None
    } else if signed[0] == 0x2d {
        Some(-digits_value(digits, radix))
    } else {
        Some(digits_value(digits, radix) as int)
    }
}

/// How a natural number is written: in lower case, without leading zeros.
pub open spec fn numeral(n: nat, radix: nat) -> Seq<u8>
    decreases n,
{
    if n < radix || radix < 2 {
        seq![symbol(n)]
    } else {
        proof {
            vstd::arithmetic::div_mod::lemma_div_decreases(n as int, radix as int);
        }
        numeral(n / radix, radix).push(symbol(n % radix))
    }
}

proof fn lemma_filter_all(s: Seq<u8>, p: spec_fn(u8) -> bool)
    requires
        forall|i: int| 0 <= i < s.len() ==> p(#[trigger] s[i]),
    ensures
        s.filter(p) == s,
    decreases s.len(),
{
    reveal(Seq::filter);
    if s.len() > 0 {
        lemma_filter_all(s.drop_last(), p);
        assert(s.drop_last().push(s.last()) =~= s);
    } else {
        assert(s.filter(p) =~= s);
    }
}

proof fn lemma_numeral(n: nat, radix: nat)
    requires
        2 <= radix <= 36,
    ensures
        numeral(n, radix).len() > 0,
        all_digits(numeral(n, radix), radix),
        digits_value(numeral(n, radix), radix) == n,
    decreases n,
{
    let s = numeral(n, radix);
    if n < radix {
        assert(s.drop_last() =~= Seq::<u8>::empty());
        assert(digits_value(s.drop_last(), radix) * radix == 0) by (nonlinear_arith)
            requires
                digits_value(s.drop_last(), radix) == 0,
        ;
        assert(digit_value(s.last()) == n);
    } else {
        let q = n / radix;
        assert(q < n) by (nonlinear_arith)
            requires
                q == n / radix,
                2 <= radix,
                n >= radix,
        ;
        lemma_numeral(q, radix);
        assert(s.drop_last() =~= numeral(q, radix));
        assert(n % radix < radix);
        assert(digit_value(s.last()) == n % radix);
        vstd::arithmetic::div_mod::lemma_fundamental_div_mod(n as int, radix as int);
        vstd::arithmetic::mul::lemma_mul_is_commutative(q as int, radix as int);
        assert forall|i: int| 0 <= i < s.len() implies digit_value(#[trigger] s[i]) < radix by {
            if i < s.len() - 1 {
                assert(s[i] == numeral(q, radix)[i]);
            }
        }
    }
}

/// A text made of digits alone stands for the value of the digits.
proof fn lemma_parsed_digits(s: Seq<u8>, radix: nat)
    requires
        2 <= radix <= 36,
        s.len() > 0,
        all_digits(s, radix),
    ensures
        parsed(s, radix) == Some(digits_value(s, radix) as int),
{
    assert(digit_value(s[0]) < radix);
    assert forall|i: int| 0 <= i < s.len() implies !is_space(#[trigger] s[i]) && s[i] != 0x5f by {
        assert(digit_value(s[i]) < radix);
    }
    lemma_filter_all(s, |b: u8| !is_space(b));
    lemma_filter_all(s, |b: u8| b != 0x5f);
}

/// Reading back a number that was written gives the number.
pub proof fn law_parsed_numeral(n: nat, radix: nat)
    requires
        2 <= radix <= 36,
    ensures
        parsed(numeral(n, radix), radix) == Some(n as int),
{
    lemma_numeral(n, radix);
    lemma_parsed_digits(numeral(n, radix), radix);
}

/// A minus sign in front of a number that was written negates it.
pub proof fn law_parsed_negative(n: nat, radix: nat)
    requires
        2 <= radix <= 36,
    ensures
        parsed(seq![0x2du8] + numeral(n, radix), radix) == Some(-(n as int)),
{
    let s = numeral(n, radix);
    let text = seq![0x2du8] + s;
    lemma_numeral(n, radix);
    assert forall|i: int| 0 <= i < text.len() implies !is_space(#[trigger] text[i]) by {
        if i > 0 {
            assert(text[i] == s[i - 1]);
            assert(digit_value(s[i - 1]) < radix);
        }
    }
    assert forall|i: int| 0 <= i < s.len() implies #[trigger] s[i] != 0x5f by {
        assert(digit_value(s[i]) < radix);
    }
    lemma_filter_all(text, |b: u8| !is_space(b));
    lemma_filter_all(s, |b: u8| b != 0x5f);
    assert(text.skip(1) =~= s);
    assert(digit_value(s[0]) < radix);
}

/// A number is written in digits and lower case letters, of which there is at least one.
pub proof fn law_numeral_digits(n: nat, radix: nat)
    requires
        2 <= radix <= 36,
    ensures
        numeral(n, radix).len() > 0,
        forall|i: int|
            0 <= i < numeral(n, radix).len() ==> 0x30 <= #[trigger] numeral(n, radix)[i] <= 0x39
                || 0x61 <= numeral(n, radix)[i] <= 0x7a,
    decreases n,
{
    if n >= radix {
        vstd::arithmetic::div_mod::lemma_div_decreases(n as int, radix as int);
        law_numeral_digits(n / radix, radix);
    }
}

/// All digits of a numeral but the first contribute to its value.
pub(crate) proof fn lemma_numeral_len(n: nat, radix: nat)
    requires
        2 <= radix <= 36,
    ensures
        numeral(n, radix).len() > 0,
        numeral(n, radix).len() == 1 || pow(
            radix as int,
            (numeral(n, radix).len() - 1) as nat,
        ) <= n,
    decreases n,
{
    reveal(pow);
    if n >= radix {
        let q = n / radix;
        assert(q < n && q * radix <= n) by (nonlinear_arith)
            requires
                q == n / radix,
                2 <= radix,
                n >= radix,
        ;
        lemma_numeral_len(q, radix);
        let k = numeral(q, radix).len();
        assert(numeral(n, radix).len() == k + 1);
        if k == 1 {
            lemma_pow1(radix as int);
        } else {
            assert(pow(radix as int, k) == radix * pow(radix as int, (k - 1) as nat));
            assert(radix * pow(radix as int, (k - 1) as nat) <= radix * q) by (nonlinear_arith)
                requires
                    pow(radix as int, (k - 1) as nat) <= q,
                    radix >= 2,
            ;
            assert(radix * q == q * radix) by (nonlinear_arith);
        }
    }
}

/// The value of a few digits is small.
pub(crate) proof fn lemma_digits_value_bound(s: Seq<u8>, radix: nat)
    requires
        2 <= radix <= 36,
        all_digits(s, radix),
    ensures
        digits_value(s, radix) < pow2(digits::size(radix) * s.len()),
    decreases s.len(),
{
    lemma2_to64();
    if s.len() > 0 {
        let t = s.drop_last();
        assert forall|i: int| 0 <= i < t.len() implies digit_value(#[trigger] t[i]) < radix by {
            assert(t[i] == s[i]);
        }
        lemma_digits_value_bound(t, radix);
        let b = digits::size(radix);
        digits::lemma_size_bound(radix);
        lemma_pow2_adds(b * t.len(), b);
        assert(b * t.len() + b == b * s.len()) by (nonlinear_arith)
            requires
                s.len() == t.len() + 1,
        ;
        let v = digits_value(t, radix);
        let d = digit_value(s.last());
        assert(digit_value(s[s.len() - 1]) < radix);
        assert(v * radix + d < pow2(b * t.len()) * pow2(b)) by (nonlinear_arith)
            requires
                v < pow2(b * t.len()),
                d < radix,
                radix <= pow2(b),
        ;
    }
}

/// A short text stands for a number of a size that arithmetic can be done on.
pub(crate) proof fn lemma_parsed_size(text: Seq<u8>, radix: nat)
    requires
        2 <= radix <= 36,
        text.len() * digits::size(radix) <= digits::max_bits(),
    ensures
        parsed(text, radix) matches Some(v) ==> digits::size(digits::magnitude(v))
            <= digits::max_bits(),
{
    if parsed(text, radix) is Some {
        let signed = without_space(text);
        let unsigned = if has_sign(signed) {
            signed.skip(1)
        } else {
            signed
        };
        let d = without_underscore(unsigned);
        text.lemma_filter_len(|b: u8| !is_space(b));
        unsigned.lemma_filter_len(|b: u8| b != 0x5f);
        let k = digits::size(radix);
        assert(k * d.len() <= text.len() * k) by (nonlinear_arith)
            requires
                d.len() <= text.len(),
        ;
        lemma_digits_value_bound(d, radix);
        digits::lemma_pow2_monotone(k * d.len(), digits::max_bits());
        digits::lemma_size_least(digits_value(d, radix), digits::max_bits());
    }
}

} // verus!
