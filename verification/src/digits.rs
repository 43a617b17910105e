//! Natural numbers as sequences of base 2^32 digits, least significant digit first, and the
//! number of bits that they take.

use vstd::arithmetic::mul::*;
use vstd::arithmetic::power::*;
use vstd::arithmetic::power2::*;
use vstd::prelude::*;

verus! {

/// The number that a sequence of digits stands for.
pub open spec fn value(s: Seq<u32>) -> nat
    decreases s.len(),
{
    if s.len() == 0 {
        0
    } else {
        s[0] as nat + 0x1_0000_0000 * value(s.skip(1))
    }
}

/// There are no leading zeros: each number has exactly one such sequence.
pub open spec fn normalized(s: Seq<u32>) -> bool {
    s.len() > 0 ==> s.last() != 0
}

/// The least `k` with `x <= 2^k`.
pub open spec fn size(x: nat) -> nat
    decreases x,
{
    if x <= 1 {
        0
    } else {
        1 + size(((x + 1) / 2) as nat)
    }
}

/// The absolute value of an integer.
pub open spec fn magnitude(x: int) -> nat {
    if x < 0 {
        (-x) as nat
    } else {
        x as nat
    }
}

/// How many digits a number may have: the arithmetic underneath counts the 64-bit words of a
/// number in a signed 32-bit integer, and where pointers have 32 bits, its bits in one of them.
pub open spec fn max_digits() -> nat {
    if usize::MAX > u32::MAX {
        0xFFFF_FFC0
    } else {
        0x7FF_FFC0
    }
}

/// How many digits a number may have.
pub fn digit_limit() -> (r: usize)
    ensures
        r == max_digits(),
{
    if usize::MAX as u64 > u32::MAX as u64 {
        0xFFFF_FFC0
    } else {
        0x7FF_FFC0
    }
}

/// How many bits a number may have.
pub open spec fn max_bits() -> nat {
    32 * max_digits()
}

/// A sequence of digits on which arithmetic is done: normalized, and not too large.
pub open spec fn holds(s: Seq<u32>) -> bool {
    normalized(s) && size(value(s)) <= max_bits()
}

pub(crate) proof fn lemma_value_upper(s: Seq<u32>)
    ensures
        value(s) < pow2(32 * s.len()),
    decreases s.len(),
{
    lemma2_to64();
    if s.len() > 0 {
        lemma_value_upper(s.skip(1));
        lemma_pow2_adds(32, 32 * s.skip(1).len());
        lemma_mul_inequality(
            value(s.skip(1)) as int + 1,
            pow2(32 * s.skip(1).len()) as int,
            0x1_0000_0000,
        );
    }
}

pub(crate) proof fn lemma_value_lower(s: Seq<u32>)
    requires
        normalized(s),
        s.len() > 0,
    ensures
        value(s) >= pow2((32 * (s.len() - 1)) as nat),
    decreases s.len(),
{
    lemma2_to64();
    if s.len() > 1 {
        let t = s.skip(1);
        assert(t.last() == s.last());
        lemma_value_lower(t);
        lemma_pow2_adds(32, (32 * (t.len() - 1)) as nat);
        lemma_mul_inequality(
            pow2((32 * (t.len() - 1)) as nat) as int,
            value(t) as int,
            0x1_0000_0000,
        );
    }
}

/// A normalized sequence is determined by its value.
pub(crate) proof fn lemma_value_unique(s: Seq<u32>, t: Seq<u32>)
    requires
        normalized(s),
        normalized(t),
        value(s) == value(t),
    ensures
        s == t,
    decreases s.len(),
{
    if s.len() == 0 || t.len() == 0 {
        if s.len() > 0 {
            lemma_value_lower(s);
            lemma_pow2_pos((32 * (s.len() - 1)) as nat);
        }
        if t.len() > 0 {
            lemma_value_lower(t);
            lemma_pow2_pos((32 * (t.len() - 1)) as nat);
        }
        assert(s =~= t);
    } else {
        assert(s[0] == t[0] && value(s.skip(1)) == value(t.skip(1)));
        assert(s.len() > 1 ==> s.skip(1).last() == s.last());
        assert(t.len() > 1 ==> t.skip(1).last() == t.last());
        lemma_value_unique(s.skip(1), t.skip(1));
        assert forall|i: int| 0 <= i < s.len() implies s[i] == t[i] by {
            if i > 0 {
                assert(s[i] == s.skip(1)[i - 1]);
                assert(t[i] == t.skip(1)[i - 1]);
            }
        }
        assert(s.len() == s.skip(1).len() + 1 && t.len() == t.skip(1).len() + 1);
        assert(s =~= t);
    }
}

/// A leading zero does not count.
pub(crate) proof fn lemma_value_drop_zero(s: Seq<u32>)
    requires
        s.len() > 0,
        s.last() == 0,
    ensures
        value(s.drop_last()) == value(s),
    decreases s.len(),
{
    if s.len() > 1 {
        lemma_value_drop_zero(s.skip(1));
        assert(s.skip(1).drop_last() =~= s.drop_last().skip(1));
    } else {
        assert(value(s.skip(1)) == 0);
    }
}

pub(crate) proof fn lemma_size_bound(x: nat)
    ensures
        x <= pow2(size(x)),
    decreases x,
{
    lemma2_to64();
    if x > 1 {
        let h = ((x + 1) / 2) as nat;
        lemma_size_bound(h);
        lemma_pow2_unfold(size(x));
    }
}

pub(crate) proof fn lemma_size_least(x: nat, k: nat)
    requires
        x <= pow2(k),
    ensures
        size(x) <= k,
    decreases k,
{
    lemma2_to64();
    if x > 1 {
        lemma_pow2_unfold(k);
        lemma_size_least(((x + 1) / 2) as nat, (k - 1) as nat);
    }
}

pub(crate) proof fn lemma_size_mul(x: nat, y: nat)
    ensures
        size(x * y) <= size(x) + size(y),
{
    lemma_size_bound(x);
    lemma_size_bound(y);
    lemma_pow2_adds(size(x), size(y));
    assert(x * y <= pow2(size(x)) * pow2(size(y))) by (nonlinear_arith)
        requires
            x <= pow2(size(x)),
            y <= pow2(size(y)),
    ;
    lemma_size_least(x * y, size(x) + size(y));
}

pub(crate) proof fn lemma_size_monotone(x: nat, y: nat)
    requires
        x <= y,
    ensures
        size(x) <= size(y),
{
    lemma_size_bound(y);
    lemma_size_least(x, size(y));
}

/// The powers of a natural number are natural numbers, and their size grows with the exponent.
pub(crate) proof fn lemma_size_pow(x: nat, e: nat)
    ensures
        pow(x as int, e) >= 0,
        size(pow(x as int, e) as nat) <= size(x) * e,
    decreases e,
{
    reveal(pow);
    if e > 0 {
        let f = (e - 1) as nat;
        lemma_size_pow(x, f);
        let p = pow(x as int, f) as nat;
        assert(pow(x as int, e) == x * p);
        lemma_size_mul(x, p);
        assert(x * p >= 0) by (nonlinear_arith);
        assert(size(x) + size(x) * f == size(x) * e) by (nonlinear_arith)
            requires
                e == f + 1,
        ;
    }
}

/// A sequence of few digits is one on which arithmetic may be done.
pub(crate) proof fn lemma_few_digits(s: Seq<u32>)
    requires
        s.len() <= max_digits(),
    ensures
        size(value(s)) <= max_bits(),
{
    lemma_value_upper(s);
    lemma_pow2_monotone(32 * s.len(), max_bits());
    lemma_size_least(value(s), max_bits());
}

pub(crate) proof fn lemma_pow2_monotone(a: nat, b: nat)
    requires
        a <= b,
    ensures
        pow2(a) <= pow2(b),
{
    if a < b {
        lemma_pow2_strictly_increases(a, b);
    }
}

/// The last digit stands for as many powers of two as the digits before it take.
pub(crate) proof fn lemma_value_last(s: Seq<u32>)
    requires
        s.len() > 0,
    ensures
        value(s) == value(s.drop_last()) + s.last() * pow2((32 * (s.len() - 1)) as nat),
    decreases s.len(),
{
    lemma2_to64();
    if s.len() == 1 {
        assert(value(s.skip(1)) == 0);
        assert(value(s.drop_last()) == 0);
        assert(pow2((32 * (s.len() - 1)) as nat) == 1);
        assert(s.last() * 1 == s[0]);
    } else {
        let t = s.skip(1);
        lemma_value_last(t);
        assert(t.drop_last() =~= s.drop_last().skip(1));
        assert(s.drop_last()[0] == s[0]);
        let p = pow2((32 * (t.len() - 1)) as nat);
        lemma_pow2_adds(32, (32 * (t.len() - 1)) as nat);
        let (low, d) = (value(t.drop_last()), s.last() as nat);
        assert(value(t) == low + d * p);
        assert(pow2((32 * (s.len() - 1)) as nat) == 0x1_0000_0000 * p);
        assert(0x1_0000_0000 * (low + d * p) == 0x1_0000_0000 * low + d * (0x1_0000_0000 * p))
            by (nonlinear_arith);
    }
}

/// Only zeros stand for zero.
pub(crate) proof fn lemma_value_zero(s: Seq<u32>)
    ensures
        value(s) == 0 <==> forall|i: int| 0 <= i < s.len() ==> s[i] == 0,
    decreases s.len(),
{
    if s.len() > 0 {
        lemma_value_zero(s.skip(1));
        if value(s) == 0 {
            assert forall|i: int| 0 <= i < s.len() implies s[i] == 0 by {
                if i > 0 {
                    assert(s.skip(1)[i - 1] == s[i]);
                }
            }
        }
    }
}

/// The size of a number, by its part above some bits, rounded up.
pub(crate) proof fn lemma_size_split(low: nat, high: nat, bits: nat)
    requires
        low < pow2(bits),
        high > 0,
    ensures
        size(low + high * pow2(bits)) == bits + size(
            if low == 0 {
                high
            } else {
                high + 1
            },
        ),
{
    let p = pow2(bits);
    let x = low + high * p;
    let h = if low == 0 {
        high
    } else {
        high + 1
    };
    let k = size(h);
    lemma_size_bound(h);
    lemma_pow2_adds(bits, k);
    assert(x <= p * pow2(k)) by (nonlinear_arith)
        requires
            x == low + high * p,
            low < p,
            low == 0 && h == high || h == high + 1,
            h <= pow2(k),
    ;
    lemma_size_least(x, bits + k);
    lemma_size_bound(x);
    assert(x >= p) by (nonlinear_arith)
        requires
            x == low + high * p,
            high > 0,
    ;
    if size(x) < bits {
        lemma_pow2_strictly_increases(size(x), bits);
    } else {
        let j = (size(x) - bits) as nat;
        lemma_pow2_adds(bits, j);
        assert(h <= pow2(j)) by (nonlinear_arith)
            requires
                x == low + high * p,
                x <= p * pow2(j),
                p > 0,
                low == 0 && h == high || low > 0 && h == high + 1,
        ;
        lemma_size_least(h, j);
    }
}

} // verus!
