//! Powers of two and their logarithms.

use vstd::arithmetic::power2::*;
use vstd::bits::*;
use vstd::prelude::*;
use vstd::std_specs::bits::*;

verus! {

/// Whether a number is a power of two.
pub open spec fn power_of_two(n: nat) -> bool {
    exists|k: nat| #[trigger] pow2(k) == n
}

/// The logarithm of a power of two.
pub open spec fn log(n: nat) -> nat {
    choose|k: nat| #[trigger] pow2(k) == n
}

/// A power of two has one logarithm.
pub proof fn law_log(k: nat)
    ensures
        log(pow2(k)) == k,
{
    let l = log(pow2(k));
    assert(pow2(l) == pow2(k));
    if l < k {
        lemma_pow2_strictly_increases(l, k);
    }
    if k < l {
        lemma_pow2_strictly_increases(k, l);
    }
}

/// A power of two has its only one behind as many zeros as its logarithm says.
proof fn lemma_trailing_zeros(n: u64, k: nat)
    requires
        n == pow2(k),
    ensures
        u64_trailing_zeros(n) == k,
{
    lemma_pow2_pos(k);
    axiom_u64_trailing_zeros(n);
    if k >= 64 {
        lemma2_to64_rest();
        lemma_pow2_unfold(64);
        if k > 64 {
            lemma_pow2_strictly_increases(64, k);
        }
    }
    let t = u64_trailing_zeros(n) as u64;
    let s = k as u64;
    lemma_u64_shl_is_mul(1, s);
    assert(t == s) by (bit_vector)
        requires
            s < 64,
            t < 64,
            n == 1u64 << s,
            (n >> t) & 1 == 1,
    ;
}

/// Whether a number is a power of two.
pub fn is_power_of_two(n: usize) -> (r: bool)
    ensures
        r == power_of_two(n as nat),
{
    let x: u64 = n as u64;
    proof {
        axiom_u64_trailing_zeros(x);
        if power_of_two(n as nat) {
            let k = choose|k: nat| #[trigger] pow2(k) == n as nat;
            lemma_pow2_pos(k);
            lemma_trailing_zeros(x, k);
        }
    }
    if x == 0 {
        return false;
    }
    let t: u32 = x.trailing_zeros();
    proof {
        lemma_u64_pow2_no_overflow(t as nat);
        lemma_u64_shl_is_mul(1, t as u64);
        assert(1u64 << t == 1u64 << (t as u64)) by (bit_vector);
    }
    (1u64 << t) == x
}

/// The logarithm of a power of two.
pub fn log2(n: usize) -> (r: usize)
    requires
        power_of_two(n as nat),
    ensures
        r == log(n as nat),
        pow2(r as nat) == n,
{
    proof {
        lemma_trailing_zeros(n as u64, log(n as nat));
        axiom_u64_trailing_zeros(n as u64);
    }
    (n as u64).trailing_zeros() as usize
}

} // verus!
