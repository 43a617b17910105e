//! Natural numbers of any size that memory and GMP can hold.

use crate::bignum::{biguint_to_str_radix, rug_less, rug_mul, rug_pow, rug_rem};
use crate::digits;
use crate::numeral;
use vstd::arithmetic::power::*;
use vstd::arithmetic::power2::*;
use vstd::prelude::*;

verus! {

/// A natural number.
#[derive(Debug)]
pub struct Natural {
    digits: Vec<u32>,
}

impl View for Natural {
    type V = nat;

    closed spec fn view(&self) -> nat {
        digits::value(self.digits@)
    }
}

impl Clone for Natural {
    fn clone(&self) -> (r: Self)
        ensures
            r@ == self@,
    {
        proof {
            use_type_invariant(self);
        }
        let copy = self.digits.clone();
        assert(copy@ == self.digits@);
        Natural { digits: copy }
    }
}

impl PartialEq for Natural {
    fn eq(&self, other: &Self) -> (r: bool) {
        proof {
            use_type_invariant(self);
            use_type_invariant(other);
            if self@ == other@ {
                digits::lemma_value_unique(self.digits@, other.digits@);
            }
        }
        if self.digits.len() != other.digits.len() {
            return false;
        }
        let mut i: usize = 0;
        while i < self.digits.len()
            invariant
                i <= self.digits@.len(),
                self.digits@.len() == other.digits@.len(),
                forall|j: int| 0 <= j < i ==> self.digits@[j] == other.digits@[j],
                self@ == other@ ==> self.digits@ == other.digits@,
            decreases self.digits@.len() - i,
        {
            if self.digits[i] != other.digits[i] {
                return false;
            }
            i = i + 1;
        }
        assert(self.digits@ =~= other.digits@);
        true
    }
}

impl vstd::std_specs::cmp::PartialEqSpecImpl for Natural {
    open spec fn obeys_eq_spec() -> bool {
        true
    }

    open spec fn eq_spec(&self, other: &Self) -> bool {
        self@ == other@
    }
}

impl Eq for Natural {

}

impl Natural {
    #[verifier::type_invariant]
    closed spec fn inv(self) -> bool {
        digits::holds(self.digits@)
    }

    /// The number with the given base 2^32 digits, least significant digit first.
    pub fn from_digits(digits: Vec<u32>) -> (r: Self)
        requires
            digits@.len() <= digits::max_digits(),
        ensures
            r@ == digits::value(digits@),
    {
        let mut digits = digits;
        let ghost given = digits@;
        proof {
            digits::lemma_few_digits(digits@);
        }
        while digits.len() > 0 && digits[digits.len() - 1] == 0
            invariant
                digits::value(digits@) == digits::value(given),
            decreases digits@.len(),
        {
            proof {
                digits::lemma_value_drop_zero(digits@);
            }
            let _ = digits.pop();
        }
        Natural { digits }
    }

    /// The number with the given digits, which have no leading zeros.
    pub(crate) fn from_held(digits: Vec<u32>) -> (r: Self)
        requires
            digits::holds(digits@),
        ensures
            r@ == digits::value(digits@),
    {
        Natural { digits }
    }

    /// The base 2^32 digits, least significant digit first, without leading zeros.
    pub fn digits(&self) -> (r: &[u32])
        ensures
            digits::value(r@) == self@,
            digits::holds(r@),
    {
        proof {
            use_type_invariant(self);
        }
        self.digits.as_slice()
    }

    /// Whether this is zero.
    pub fn is_zero(&self) -> (r: bool)
        ensures
            r == (self@ == 0),
    {
        proof {
            use_type_invariant(self);
            if self.digits@.len() > 0 {
                digits::lemma_value_lower(self.digits@);
                lemma_pow2_pos((32 * (self.digits@.len() - 1)) as nat);
            }
        }
        self.digits.len() == 0
    }

    /// The least `k` for which this is at most 2^k.
    pub fn size(&self) -> (r: u64)
        ensures
            r == digits::size(self@),
            r <= digits::max_bits(),
    {
        proof {
            use_type_invariant(self);
        }
        if self.digits.len() == 0 {
            return 0;
        }
        let last: usize = self.digits.len() - 1;
        let mut exact = true;
        let mut i: usize = 0;
        while i < last
            invariant
                i <= last,
                last == self.digits@.len() - 1,
                exact == forall|j: int| 0 <= j < i ==> self.digits@[j] == 0,
            decreases last - i,
        {
            if self.digits[i] != 0 {
                exact = false;
            }
            i = i + 1;
        }
        // what is above the lower digits, rounded up
        let high: u64 = if exact {
            self.digits[last] as u64
        } else {
            self.digits[last] as u64 + 1
        };
        let mut bits: u64 = 0;
        let mut power: u64 = 1;
        proof {
            let lower = self.digits@.drop_last();
            digits::lemma_value_last(self.digits@);
            digits::lemma_value_zero(lower);
            digits::lemma_value_upper(lower);
            assert forall|j: int| 0 <= j < last implies lower[j] == self.digits@[j] by {}
            if !exact {
                let j = choose|j: int| 0 <= j < last && self.digits@[j] != 0;
                assert(lower[j] != 0);
            }
            digits::lemma_size_split(
                digits::value(lower),
                self.digits@.last() as nat,
                (32 * last) as nat,
            );
            lemma2_to64();
        }
        while power < high
            invariant
                0 < high <= 0x1_0000_0000,
                bits <= 32,
                power == pow2(bits as nat),
                bits > 0 ==> pow2((bits - 1) as nat) < high,
            decreases 0x1_0000_0000 - power,
        {
            proof {
                lemma2_to64();
                lemma_pow2_unfold((bits + 1) as nat);
                if bits == 32 {
                    assert(power == 0x1_0000_0000);
                }
            }
            power = 2 * power;
            bits = bits + 1;
        }
        proof {
            digits::lemma_size_least(high as nat, bits as nat);
            digits::lemma_size_bound(high as nat);
            if digits::size(high as nat) < bits {
                digits::lemma_pow2_monotone(digits::size(high as nat), (bits - 1) as nat);
            }
        }
        32 * last as u64 + bits
    }

    /// The product.
    pub fn mul(&self, other: &Natural) -> (r: Natural)
        requires
            digits::size(self@) + digits::size(other@) <= digits::max_bits(),
        ensures
            r@ == self@ * other@,
    {
        proof {
            use_type_invariant(self);
            use_type_invariant(other);
            digits::lemma_size_mul(self@, other@);
        }
        let product = rug_mul(self.digits.as_slice(), other.digits.as_slice());
        Natural { digits: product }
    }

    /// The remainder of the division by another number.
    pub fn rem(&self, divisor: &Natural) -> (r: Natural)
        requires
            divisor@ != 0,
        ensures
            r@ == self@ % divisor@,
    {
        proof {
            use_type_invariant(self);
            use_type_invariant(divisor);
            vstd::arithmetic::div_mod::lemma_mod_decreases(self@, divisor@);
            digits::lemma_size_monotone(self@ % divisor@, self@);
        }
        let remainder = rug_rem(self.digits.as_slice(), divisor.digits.as_slice());
        Natural { digits: remainder }
    }

    /// The power.
    pub fn pow(&self, exponent: u32) -> (r: Natural)
        requires
            digits::size(self@) * exponent <= digits::max_bits(),
        ensures
            r@ == pow(self@ as int, exponent as nat),
    {
        proof {
            use_type_invariant(self);
            digits::lemma_size_pow(self@, exponent as nat);
        }
        let power = rug_pow(self.digits.as_slice(), exponent);
        Natural { digits: power }
    }

    /// Whether this is less than another number.
    pub fn less(&self, other: &Natural) -> (r: bool)
        ensures
            r == (self@ < other@),
    {
        proof {
            use_type_invariant(self);
            use_type_invariant(other);
        }
        rug_less(self.digits.as_slice(), other.digits.as_slice())
    }

    /// The number as a text in the given radix.
    pub fn to_str_radix(&self, radix: u32) -> (r: Vec<u8>)
        requires
            2 <= radix <= 36,
            numeral::numeral(self@, radix as nat).len() <= isize::MAX,
        ensures
            r@ == numeral::numeral(self@, radix as nat),
    {
        proof {
            use_type_invariant(self);
        }
        biguint_to_str_radix(self.digits.as_slice(), radix)
    }
}

} // verus!
