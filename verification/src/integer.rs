//! Integers of any size that memory and GMP can hold.

use crate::bignum::rug_parse;
use crate::digits;
use crate::natural::Natural;
use crate::numeral;
use vstd::arithmetic::power::*;
use vstd::prelude::*;

verus! {

/// The remainder of the division that rounds towards zero: it has the sign of the dividend.
pub open spec fn truncated_rem(a: int, b: int) -> int {
    if a < 0 {
        -((-a) % b)
    } else {
        a % b
    }
}

/// An integer.
#[derive(Debug)]
pub struct Integer {
    negative: bool,
    magnitude: Natural,
}

impl View for Integer {
    type V = int;

    closed spec fn view(&self) -> int {
        if self.negative {
            -self.magnitude@
        } else {
            self.magnitude@ as int
        }
    }
}

impl Clone for Integer {
    fn clone(&self) -> (r: Self)
        ensures
            r@ == self@,
    {
        proof {
            use_type_invariant(self);
        }
        Integer { negative: self.negative, magnitude: self.magnitude.clone() }
    }
}

impl PartialEq for Integer {
    fn eq(&self, other: &Self) -> (r: bool) {
        proof {
            use_type_invariant(self);
            use_type_invariant(other);
        }
        self.negative == other.negative && self.magnitude == other.magnitude
    }
}

impl vstd::std_specs::cmp::PartialEqSpecImpl for Integer {
    open spec fn obeys_eq_spec() -> bool {
        true
    }

    open spec fn eq_spec(&self, other: &Self) -> bool {
        self@ == other@
    }
}

impl Eq for Integer {

}

impl Integer {
    #[verifier::type_invariant]
    closed spec fn inv(self) -> bool {
        self.negative ==> self.magnitude@ > 0
    }

    /// The number with the given magnitude, negated if asked for.
    pub fn from_magnitude(negate: bool, magnitude: Natural) -> (r: Self)
        ensures
            r@ == if negate {
                -magnitude@
            } else {
                magnitude@ as int
            },
    {
        let negative = negate && !magnitude.is_zero();
        Integer { negative, magnitude }
    }

    /// One.
    pub fn one() -> (r: Self)
        ensures
            r@ == 1,
    {
        let mut digits: Vec<u32> = Vec::new();
        digits.push(1);
        proof {
            reveal_with_fuel(digits::value, 2);
        }
        Integer { negative: false, magnitude: Natural::from_digits(digits) }
    }

    /// Whether this is less than zero.
    pub fn is_negative(&self) -> (r: bool)
        ensures
            r == (self@ < 0),
    {
        proof {
            use_type_invariant(self);
        }
        self.negative
    }

    /// The absolute value.
    pub fn magnitude(&self) -> (r: &Natural)
        ensures
            r@ == digits::magnitude(self@),
    {
        proof {
            use_type_invariant(self);
        }
        &self.magnitude
    }

    /// Whether this is zero.
    pub fn is_zero(&self) -> (r: bool)
        ensures
            r == (self@ == 0),
    {
        self.magnitude().is_zero()
    }

    /// The product.
    pub fn mul(&self, other: &Integer) -> (r: Integer)
        requires
            digits::size(digits::magnitude(self@)) + digits::size(digits::magnitude(other@))
                <= digits::max_bits(),
        ensures
            r@ == self@ * other@,
    {
        let product = self.magnitude().mul(other.magnitude());
        proof {
            use_type_invariant(self);
            use_type_invariant(other);
            lemma_sign_of_product(self@, other@);
        }
        Self::from_magnitude(self.negative != other.negative, product)
    }

    /// The remainder of the division by another number, with the sign of this one.
    pub fn rem(&self, divisor: &Integer) -> (r: Integer)
        requires
            divisor@ != 0,
        ensures
            r@ == truncated_rem(self@, divisor@),
    {
        let remainder = self.magnitude().rem(divisor.magnitude());
        proof {
            use_type_invariant(self);
            lemma_mod_magnitude(digits::magnitude(self@) as int, divisor@);
        }
        Self::from_magnitude(self.negative, remainder)
    }

    /// The power.
    pub fn pow(&self, exponent: u32) -> (r: Integer)
        requires
            digits::size(digits::magnitude(self@)) * exponent <= digits::max_bits(),
        ensures
            r@ == pow(self@, exponent as nat),
    {
        let power = self.magnitude().pow(exponent);
        proof {
            use_type_invariant(self);
            lemma_sign_of_power(digits::magnitude(self@) as int, exponent as nat);
        }
        Self::from_magnitude(self.negative && exponent % 2 == 1, power)
    }

    /// Whether this is less than another number.
    pub fn less(&self, other: &Integer) -> (r: bool)
        ensures
            r == (self@ < other@),
    {
        proof {
            use_type_invariant(self);
            use_type_invariant(other);
        }
        if self.negative {
            !other.negative || other.magnitude.less(&self.magnitude)
        } else {
            !other.negative && self.magnitude.less(&other.magnitude)
        }
    }

    /// The number that a text stands for in the given radix.
    pub fn from_str_radix(text: &[u8], radix: u32) -> (r: Option<Integer>)
        requires
            2 <= radix <= 36,
            text@.len() * digits::size(radix as nat) <= digits::max_bits() + 64,
            numeral::parsed(text@, radix as nat) matches Some(v) ==> digits::size(
                digits::magnitude(v),
            ) <= digits::max_bits(),
        ensures
            match r {
                Some(x) => numeral::parsed(text@, radix as nat) == Some(x@),
                None => numeral::parsed(text@, radix as nat) is None,
            },
    {
        match rug_parse(text, radix as i32) {
            Ok((negative, d)) => {
                Some(Integer { negative, magnitude: Natural::from_held(d) })
            },
            Err(_) => None,
        }
    }
}

/// The integer with the value of a natural number, which is written out and read back in the radix
/// 32.
pub fn from_biguint(n: &Natural) -> (r: Integer)
    ensures
        r@ == n@,
{
    // no number is too large to be read back
    let _ = n.digits();
    proof {
        numeral::law_parsed_numeral(n@, 32);
        lemma_numeral_size(n@);
    }
    let text = n.to_str_radix(32);
    Integer::from_str_radix(text.as_slice(), 32).unwrap()
}

proof fn lemma_numeral_size(n: nat)
    requires
        digits::size(n) <= digits::max_bits(),
    ensures
        numeral::numeral(n, 32).len() * digits::size(32) <= digits::max_bits() + 64,
        numeral::numeral(n, 32).len() <= isize::MAX,
{
    let k = (numeral::numeral(n, 32).len() - 1) as nat;
    numeral::lemma_numeral_len(n, 32);
    reveal_with_fuel(digits::size, 6);
    assert(digits::size(32) == 5);
    if k > 0 {
        vstd::arithmetic::power2::lemma2_to64();
        vstd::arithmetic::power2::lemma_pow2(5);
        vstd::arithmetic::power::lemma_pow_multiplies(2, 5, k);
        vstd::arithmetic::power2::lemma_pow2(5 * k);
        digits::lemma_size_bound(n);
        if 5 * k > digits::max_bits() {
            digits::lemma_pow2_monotone(digits::size(n), digits::max_bits());
            vstd::arithmetic::power2::lemma_pow2_strictly_increases(digits::max_bits(), 5 * k);
        }
    }
}

/// The remainder does not depend on the sign of the divisor.
pub(crate) proof fn lemma_mod_magnitude(a: int, b: int)
    requires
        b != 0,
    ensures
        a % b == a % (digits::magnitude(b) as int),
{
    if b < 0 {
        let c = -b;
        vstd::arithmetic::div_mod::lemma_fundamental_div_mod(a, c);
        let q = a / c;
        let r = a % c;
        assert(a % b == r) by (nonlinear_arith)
            requires
                b == -c,
                c > 0,
                a == c * q + r,
                0 <= r < c,
        ;
    }
}

/// The magnitude of a product is the product of the magnitudes, and its sign follows from theirs.
pub(crate) proof fn lemma_sign_of_product(a: int, b: int)
    ensures
        digits::magnitude(a) * digits::magnitude(b) == digits::magnitude(a * b),
        (a < 0) == (b < 0) ==> a * b >= 0,
        (a < 0) != (b < 0) ==> a * b <= 0,
{
    assert(a >= 0 && b >= 0 ==> a * b >= 0) by (nonlinear_arith);
    assert(a < 0 && b < 0 ==> a * b >= 0) by (nonlinear_arith);
    assert(a < 0 && b >= 0 ==> a * b <= 0) by (nonlinear_arith);
    assert(a >= 0 && b < 0 ==> a * b <= 0) by (nonlinear_arith);
    assert((-a) * b == -(a * b)) by (nonlinear_arith);
    assert(a * (-b) == -(a * b)) by (nonlinear_arith);
    assert((-a) * (-b) == a * b) by (nonlinear_arith);
}

proof fn lemma_sign_of_power(a: int, e: nat)
    ensures
        pow(-a, e) == if e % 2 == 1 {
            -pow(a, e)
        } else {
            pow(a, e)
        },
    decreases e,
{
    reveal(pow);
    if e > 0 {
        let f = (e - 1) as nat;
        lemma_sign_of_power(a, f);
        let p = pow(a, f);
        assert((-a) * p == -(a * p)) by (nonlinear_arith);
        assert((-a) * (-p) == a * p) by (nonlinear_arith);
    }
}

} // verus!
