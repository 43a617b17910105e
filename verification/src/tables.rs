//! Tables of the products of the subsets of a few bases.

use crate::digits;
use crate::integer;
use crate::integer::Integer;
use crate::log2;
use crate::product;
use vstd::arithmetic::div_mod::*;
use vstd::arithmetic::mul::*;
use vstd::arithmetic::power2::*;
use vstd::prelude::*;

verus! {

/// The table of a sequence of bases: each base beyond the first appends to what is there a copy of
/// it, multiplied by the base and reduced.
pub open spec fn table(bases: Seq<int>, modulus: int) -> Seq<int>
    decreases bases.len(),
{
    if bases.len() == 0 {
        seq![1int]
    } else if bases.len() == 1 {
        seq![1int, bases[0]]
    } else {
        let half = table(bases.drop_last(), modulus);
        half + half.map_values(|x: int| integer::truncated_rem(x * bases.last(), modulus))
    }
}

/// Whether a bit of a number is set.
pub open spec fn bit(n: nat, j: nat) -> bool {
    (n / pow2(j)) % 2 == 1
}

/// The product of the bases that the bits of a number select.
pub open spec fn subset_product(bases: Seq<int>, n: nat) -> int
    decreases bases.len(),
{
    if bases.len() == 0 {
        1
    } else {
        subset_product(bases.drop_last(), n) * (if bit(n, (bases.len() - 1) as nat) {
            bases.last()
        } else {
            1
        })
    }
}

/// The piece with the given index where a sequence is cut into pieces of `n` items; the last piece
/// may be shorter.
pub open spec fn chunk<A>(s: Seq<A>, n: nat, index: int) -> Seq<A> {
    s.subrange(
        index * n,
        if (index + 1) * n < s.len() {
            (index + 1) * n
        } else {
            s.len() as int
        },
    )
}

/// How many pieces there are where `len` items are cut into pieces of `n`.
pub open spec fn chunk_count(len: nat, n: nat) -> nat {
    ((len + n - 1) / (n as int)) as nat
}

/// The tables of the pieces of a sequence of bases.
pub open spec fn tables(bases: Seq<int>, modulus: int, n: nat) -> Seq<Seq<int>> {
    Seq::new(chunk_count(bases.len(), n), |t: int| table(chunk(bases, n, t), modulus))
}

/// Whether the entries that are made of a base can be held before they are reduced, where a table
/// begins with the base at `first`: the base extends the empty set and the first base, and from the
/// second extension on what has been reduced.
pub open spec fn fits(bases: Seq<int>, modulus: int, first: int, i: int) -> bool {
    let size = digits::size(digits::magnitude(bases[i]));
    &&& i > first ==> size + digits::size(digits::magnitude(bases[first])) <= digits::max_bits()
    &&& i > first + 1 ==> size + digits::size(digits::magnitude(modulus)) <= digits::max_bits()
}

/// Whether the entries that are made of a base can be held, where tables of `n` bases are made.
pub open spec fn fits_in_chunk(bases: Seq<int>, modulus: int, n: nat, i: int) -> bool {
    fits(bases, modulus, i - i % (n as int), i)
}

/// How many bases a table combines, where tables of `n` are made of `len` bases: no more than there
/// are.
pub open spec fn per_table(len: nat, n: nat) -> nat {
    if n <= len {
        n
    } else {
        len
    }
}

/// Every piece has at least one item, and at most `n`.
pub(crate) proof fn lemma_chunk<A>(s: Seq<A>, n: nat, t: int)
    requires
        n > 0,
        0 <= t < chunk_count(s.len(), n),
    ensures
        0 <= t * n < s.len(),
        0 < chunk(s, n, t).len() <= n,
        chunk(s, n, t).len() <= s.len(),
        chunk(s, n, t).len() == if t * n + n < s.len() {
            n as int
        } else {
            s.len() - t * n
        },
        chunk(s, n, t) == s.subrange(t * n, t * n + chunk(s, n, t).len()),
{
    let c = chunk_count(s.len(), n) as int;
    lemma_fundamental_div_mod(s.len() + n - 1, n as int);
    assert(t * n < s.len() && t * n >= 0 && (t + 1) * n == t * n + n) by (nonlinear_arith)
        requires
            0 <= t < c,
            n > 0,
            s.len() + n - 1 == n * c + (s.len() + n - 1) % (n as int),
            (s.len() + n - 1) % (n as int) < n,
    ;
}

/// A table has an entry for each subset of the bases.
pub proof fn law_table_len(bases: Seq<int>, modulus: int)
    ensures
        table(bases, modulus).len() == pow2(bases.len()),
    decreases bases.len(),
{
    lemma2_to64();
    if bases.len() > 1 {
        law_table_len(bases.drop_last(), modulus);
        lemma_pow2_unfold(bases.len());
    }
}

/// More bases at the end only extend a table.
pub proof fn law_table_prefix(bases: Seq<int>, modulus: int, k: nat)
    requires
        k <= bases.len(),
    ensures
        pow2(k) <= table(bases, modulus).len(),
        table(bases.take(k as int), modulus) == table(bases, modulus).take(pow2(k) as int),
    decreases bases.len(),
{
    law_table_len(bases, modulus);
    digits::lemma_pow2_monotone(k, bases.len());
    if k == bases.len() {
        assert(bases.take(k as int) =~= bases);
    } else {
        let rest = bases.drop_last();
        law_table_prefix(rest, modulus, k);
        assert(rest.take(k as int) =~= bases.take(k as int));
        law_table_len(rest, modulus);
        lemma2_to64();
        if bases.len() == 1 {
            assert(table(rest, modulus) =~= table(bases, modulus).take(1));
        } else {
            assert(table(bases, modulus).take(pow2(k) as int) =~= table(rest, modulus).take(
                pow2(k) as int,
            ));
        }
    }
}

/// A table starts with one and the first base.
pub proof fn law_table_first(bases: Seq<int>, modulus: int)
    requires
        bases.len() > 0,
    ensures
        table(bases, modulus).len() >= 2,
        table(bases, modulus)[0] == 1,
        table(bases, modulus)[1] == bases[0],
{
    law_table_prefix(bases, modulus, 1);
    lemma2_to64();
    let one = bases.take(1);
    let whole = table(bases, modulus);
    assert(table(one, modulus) =~= seq![1int, bases[0]]);
    assert(whole.take(2)[0] == whole[0] && whole.take(2)[1] == whole[1]);
}

/// The entry that adds a base to a subset of the bases before it is that of the subset, multiplied
/// by the base and reduced.
pub proof fn law_table_step(bases: Seq<int>, modulus: int, j: nat, i: nat)
    requires
        1 <= j < bases.len(),
        i < pow2(j),
    ensures
        i + pow2(j) < table(bases, modulus).len(),
        table(bases, modulus)[(i + pow2(j)) as int] == integer::truncated_rem(
            table(bases, modulus)[i as int] * bases[j as int],
            modulus,
        ),
{
    let whole = table(bases, modulus);
    let lower = bases.take(j as int);
    let upper = bases.take((j + 1) as int);
    law_table_len(bases, modulus);
    law_table_prefix(bases, modulus, j);
    law_table_prefix(bases, modulus, j + 1);
    lemma_pow2_unfold(j + 1);
    law_table_len(lower, modulus);
    assert(upper.drop_last() =~= lower);
    assert(upper.last() == bases[j as int]);
    assert(whole.take(pow2(j) as int)[i as int] == whole[i as int]);
    assert(whole.take(pow2(j + 1) as int)[(i + pow2(j)) as int] == whole[(i + pow2(j)) as int]);
    assert(table(upper, modulus)[(i + pow2(j)) as int] == integer::truncated_rem(
        table(lower, modulus)[i as int] * bases[j as int],
        modulus,
    ));
}

/// Every base is combined in one table: that of the piece which it is in.
pub proof fn law_base_in_chunk(bases: Seq<int>, n: nat, i: int)
    requires
        n > 0,
        0 <= i < bases.len(),
    ensures
        0 <= i / (n as int) < chunk_count(bases.len(), n),
        chunk(bases, n, i / (n as int))[i % (n as int)] == bases[i],
{
    let m = n as int;
    let t = i / m;
    lemma_fundamental_div_mod(i, m);
    lemma_div_pos_is_pos(i, m);
    lemma_div_is_ordered(i, bases.len() - 1, m);
    lemma_div_multiples_vanish_fancy_sum(bases.len() - 1, 1, m);
    assert(bases.len() + n - 1 == bases.len() - 1 + m * 1);
    lemma_chunk(bases, n, t);
    lemma_mul_is_commutative(t, m);
    lemma_mod_bound(i, m);
}

/// Where the number of bases and the number of bases per table are powers of two, every table
/// combines as many bases as the others and has an entry for each of their subsets, and no base is
/// left over. Where there are not enough bases for one table, a single table combines them all.
pub proof fn law_tables_full(bases: Seq<int>, modulus: int, n: nat)
    requires
        log2::power_of_two(bases.len()),
        log2::power_of_two(n),
    ensures
        tables(bases, modulus, n).len() * per_table(bases.len(), n) == bases.len(),
        forall|t: int|
            0 <= t < tables(bases, modulus, n).len() ==> (#[trigger] tables(
                bases,
                modulus,
                n,
            )[t]).len() == pow2(per_table(bases.len(), n)),
{
    let a = log2::log(n);
    let b = log2::log(bases.len());
    let k = per_table(bases.len(), n);
    assert(pow2(a) == n && pow2(b) == bases.len());
    lemma_pow2_pos(a);
    lemma_pow2_pos(b);
    let q = if n <= bases.len() {
        if b < a {
            lemma_pow2_strictly_increases(b, a);
        }
        lemma_pow2_adds(a, (b - a) as nat);
        pow2((b - a) as nat)
    } else {
        1
    };
    assert(bases.len() == k * q);
    lemma_mul_is_commutative(k as int, q as int);
    if n <= bases.len() {
        lemma_fundamental_div_mod_converse(bases.len() + n - 1, n as int, q as int, n - 1);
    } else {
        lemma_fundamental_div_mod_converse(bases.len() + n - 1, n as int, 1, bases.len() - 1);
    }
    assert(chunk_count(bases.len(), n) == q);
    assert forall|t: int| 0 <= t < tables(bases, modulus, n).len() implies (#[trigger] tables(
        bases,
        modulus,
        n,
    )[t]).len() == pow2(k) by {
        lemma_chunk(bases, n, t);
        assert(t * k + k <= q * k) by (nonlinear_arith)
            requires
                t + 1 <= q,
        ;
        if n > bases.len() {
            assert(t == 0);
            assert(0 * n == 0);
        }
        law_table_len(chunk(bases, n, t), modulus);
    }
}

/// The last entries of the tables of the pieces of a sequence of bases.
pub open spec fn last_entries(bases: Seq<int>, modulus: int, n: nat) -> Seq<int> {
    tables(bases, modulus, n).map_values(|t: Seq<int>| t.last())
}

/// What the tables combine to does not depend on how the bases are grouped: the product of the last
/// entries of all tables is congruent to the product of all bases.
pub proof fn law_tables_combine(bases: Seq<int>, modulus: int, n: nat)
    requires
        modulus != 0,
        n > 0,
    ensures
        (product::product(last_entries(bases, modulus, n)) - product::product(bases)) % modulus
            == 0,
{
    let count = chunk_count(bases.len(), n);
    lemma_tables_combine(bases, modulus, n, count);
    let entries = last_entries(bases, modulus, n);
    assert(entries.take(count as int) =~= entries);
    lemma_fundamental_div_mod(bases.len() + n - 1, n as int);
    lemma_mod_bound(bases.len() + n - 1, n as int);
    lemma_mul_is_commutative(n as int, count as int);
    assert(bases.take(bases.len() as int) =~= bases);
}

/// Two ways to group the bases give tables that combine to the same.
pub proof fn law_tables_grouping(bases: Seq<int>, modulus: int, a: nat, b: nat)
    requires
        modulus != 0,
        a > 0,
        b > 0,
    ensures
        (product::product(last_entries(bases, modulus, a)) - product::product(
            last_entries(bases, modulus, b),
        )) % modulus == 0,
{
    let p = product::product(last_entries(bases, modulus, a));
    let q = product::product(last_entries(bases, modulus, b));
    let all = product::product(bases);
    law_tables_combine(bases, modulus, a);
    law_tables_combine(bases, modulus, b);
    lemma_mod_mul_congruent(q - all, -1, modulus);
    assert((q - all) * -1 == all - q);
    lemma_mod_sum_zero(p - all, all - q, modulus);
}

/// The first tables combine to the product of the bases of their pieces.
proof fn lemma_tables_combine(bases: Seq<int>, modulus: int, n: nat, t: nat)
    requires
        modulus != 0,
        n > 0,
        t <= chunk_count(bases.len(), n),
    ensures
        ({
            let covered = if t * n < bases.len() {
                (t * n) as int
            } else {
                bases.len() as int
            };
            (product::product(last_entries(bases, modulus, n).take(t as int)) - product::product(
                bases.take(covered),
            )) % modulus == 0
        }),
    decreases t,
{
    let entries = last_entries(bases, modulus, n);
    if t == 0 {
        assert(0 * n == 0);
        assert(bases.take(0) =~= entries.take(0));
        lemma_zero_mod(modulus);
    } else {
        let u = (t - 1) as nat;
        let piece = chunk(bases, n, u as int);
        lemma_chunk(bases, n, u as int);
        lemma_tables_combine(bases, modulus, n, u);
        lemma_last_entry(piece, modulus);
        law_table_len(piece, modulus);
        assert(t * n == u * n + n) by (nonlinear_arith)
            requires
                t == u + 1,
        ;
        let before = bases.take((u * n) as int);
        let covered = bases.take((u * n + piece.len()) as int);
        assert(covered =~= before + piece);
        product::law_product_concat(before, piece);
        assert(entries.take(t as int).drop_last() =~= entries.take(u as int));
        let e = entries[u as int];
        assert(entries.take(t as int).last() == e);
        assert(product::product(entries.take(t as int)) == product::product(
            entries.take(u as int),
        ) * e);
        assert(e == table(piece, modulus).last());
        let (x, p) = (product::product(entries.take(u as int)), product::product(before));
        let q = product::product(piece);
        lemma_mod_mul_congruent(x - p, e, modulus);
        lemma_mod_mul_congruent(e - q, p, modulus);
        lemma_mod_sum_zero((x - p) * e, (e - q) * p, modulus);
        assert((x - p) * e + (e - q) * p == x * e - p * q) by (nonlinear_arith);
    }
}

/// The last entry of a table is congruent to the product of all its bases.
proof fn lemma_last_entry(bases: Seq<int>, modulus: int)
    requires
        modulus != 0,
    ensures
        (table(bases, modulus).last() - product::product(bases)) % modulus == 0,
    decreases bases.len(),
{
    if bases.len() <= 1 {
        reveal_with_fuel(product::product, 2);
        lemma_zero_mod(modulus);
    } else {
        let rest = bases.drop_last();
        let b = bases.last();
        lemma_last_entry(rest, modulus);
        law_table_len(rest, modulus);
        lemma_pow2_pos(rest.len());
        let x = table(rest, modulus).last();
        let p = product::product(rest);
        let r = integer::truncated_rem(x * b, modulus);
        assert(table(bases, modulus).last() == r);
        lemma_truncated_rem_congruent(x * b, modulus);
        lemma_mod_mul_congruent(x - p, b, modulus);
        assert((x - p) * b == x * b - p * b) by (nonlinear_arith);
        lemma_mod_sum_zero(r - x * b, x * b - p * b, modulus);
    }
}

/// Every entry of a table is congruent to the product of the bases that the bits of its index
/// select.
pub proof fn law_table_congruent(bases: Seq<int>, modulus: int, n: nat)
    requires
        modulus != 0,
        n < pow2(bases.len()),
    ensures
        (table(bases, modulus)[n as int] - subset_product(bases, n)) % modulus == 0,
    decreases bases.len(),
{
    lemma2_to64();
    if bases.len() <= 1 {
        reveal_with_fuel(subset_product, 2);
        lemma_zero_mod(modulus);
        if bases.len() == 1 {
            assert(bit(n, 0) == (n == 1));
            assert(1 * bases[0] == bases[0]);
        }
        assert(table(bases, modulus)[n as int] == subset_product(bases, n));
    } else {
        let rest = bases.drop_last();
        let k = rest.len();
        let h = pow2(k);
        let b = bases.last();
        let half = table(rest, modulus);
        law_table_len(rest, modulus);
        lemma_pow2_pos(k);
        lemma_pow2_unfold((k + 1) as nat);
        if n < h {
            law_table_congruent(rest, modulus, n);
            lemma_basic_div(n as int, h as int);
            assert(!bit(n, k));
            assert(subset_product(rest, n) * 1 == subset_product(rest, n));
        } else {
            let i = (n - h) as nat;
            law_table_congruent(rest, modulus, i);
            lemma_subset_product_high_bit(rest, i, k);
            lemma_fundamental_div_mod_converse(n as int, h as int, 1, i as int);
            assert(bit(n, k));
            let x = half[i as int];
            let s = subset_product(rest, i);
            assert(table(bases, modulus)[n as int] == integer::truncated_rem(x * b, modulus));
            lemma_truncated_rem_congruent(x * b, modulus);
            let r = integer::truncated_rem(x * b, modulus);
            lemma_mod_mul_congruent(x - s, b, modulus);
            assert((x - s) * b == x * b - s * b) by (nonlinear_arith);
            lemma_mod_sum_zero(r - x * b, x * b - s * b, modulus);
            assert(subset_product(bases, n) == s * b);
        }
    }
}

/// Where the modulus is greater than one and the bases are reduced, every entry of a table is the
/// product of the bases that the bits of its index select, reduced.
pub proof fn law_table_entry(bases: Seq<int>, modulus: int, n: nat)
    requires
        modulus > 1,
        forall|i: int| 0 <= i < bases.len() ==> 0 <= #[trigger] bases[i] < modulus,
        n < pow2(bases.len()),
    ensures
        table(bases, modulus)[n as int] == subset_product(bases, n) % modulus,
{
    law_table_congruent(bases, modulus, n);
    law_table_len(bases, modulus);
    lemma_table_reduced(bases, modulus, n as int);
    let x = table(bases, modulus)[n as int];
    let s = subset_product(bases, n);
    lemma_mod_equivalence(x, s, modulus);
    lemma_small_mod(x as nat, modulus as nat);
}

proof fn lemma_table_reduced(bases: Seq<int>, modulus: int, i: int)
    requires
        modulus > 1,
        forall|j: int| 0 <= j < bases.len() ==> 0 <= #[trigger] bases[j] < modulus,
        0 <= i < table(bases, modulus).len(),
    ensures
        0 <= table(bases, modulus)[i] < modulus,
    decreases bases.len(),
{
    if bases.len() > 1 {
        let rest = bases.drop_last();
        let half = table(rest, modulus);
        assert forall|j: int| 0 <= j < rest.len() implies 0 <= #[trigger] rest[j] < modulus by {
            assert(rest[j] == bases[j]);
        }
        if i < half.len() {
            lemma_table_reduced(rest, modulus, i);
        } else {
            let x = half[i - half.len()];
            lemma_table_reduced(rest, modulus, i - half.len());
            assert(0 <= bases[bases.len() - 1] < modulus);
            assert(x * bases.last() >= 0) by (nonlinear_arith)
                requires
                    x >= 0,
                    bases.last() >= 0,
            ;
        }
    }
}

proof fn lemma_zero_mod(m: int)
    requires
        m != 0,
    ensures
        0int % m == 0,
{
    integer::lemma_mod_magnitude(0, m);
    lemma_small_mod(0, digits::magnitude(m));
}

/// A multiple leaves no remainder.
proof fn lemma_multiple_mod(q: int, m: int)
    requires
        m != 0,
    ensures
        (q * m) % m == 0,
{
    integer::lemma_mod_magnitude(q * m, m);
    if m < 0 {
        assert(q * m == (-q) * (-m)) by (nonlinear_arith);
        lemma_mod_multiples_basic(-q, -m);
    } else {
        lemma_mod_multiples_basic(q, m);
    }
}

proof fn lemma_truncated_rem_congruent(a: int, m: int)
    requires
        m != 0,
    ensures
        (integer::truncated_rem(a, m) - a) % m == 0,
{
    if a < 0 {
        let q = (-a) / m;
        lemma_fundamental_div_mod(-a, m);
        assert(integer::truncated_rem(a, m) - a == q * m) by (nonlinear_arith)
            requires
                -a == m * q + (-a) % m,
                integer::truncated_rem(a, m) == -((-a) % m),
        ;
        lemma_multiple_mod(q, m);
    } else {
        let q = a / m;
        lemma_fundamental_div_mod(a, m);
        assert(integer::truncated_rem(a, m) - a == (-q) * m) by (nonlinear_arith)
            requires
                a == m * q + a % m,
                integer::truncated_rem(a, m) == a % m,
        ;
        lemma_multiple_mod(-q, m);
    }
}

proof fn lemma_mod_mul_congruent(a: int, b: int, m: int)
    requires
        m != 0,
        a % m == 0,
    ensures
        (a * b) % m == 0,
{
    lemma_fundamental_div_mod(a, m);
    let q = a / m;
    assert(a * b == (q * b) * m) by (nonlinear_arith)
        requires
            a == m * q,
    ;
    lemma_multiple_mod(q * b, m);
}

proof fn lemma_mod_sum_zero(a: int, b: int, m: int)
    requires
        m != 0,
        a % m == 0,
        b % m == 0,
    ensures
        (a + b) % m == 0,
{
    lemma_fundamental_div_mod(a, m);
    lemma_fundamental_div_mod(b, m);
    let (p, q) = (a / m, b / m);
    assert(a + b == (p + q) * m) by (nonlinear_arith)
        requires
            a == m * p,
            b == m * q,
    ;
    lemma_multiple_mod(p + q, m);
}

/// Bits beyond the number of bases select nothing.
proof fn lemma_subset_product_high_bit(bases: Seq<int>, n: nat, k: nat)
    requires
        bases.len() <= k,
    ensures
        subset_product(bases, n + pow2(k)) == subset_product(bases, n),
    decreases bases.len(),
{
    if bases.len() > 0 {
        lemma_subset_product_high_bit(bases.drop_last(), n, k);
        lemma_bit_below(n, (bases.len() - 1) as nat, k);
    }
}

/// Adding a power of two leaves the lower bits as they are.
proof fn lemma_bit_below(n: nat, j: nat, k: nat)
    requires
        j < k,
    ensures
        bit(n + pow2(k), j) == bit(n, j),
{
    let p = pow2(j) as int;
    let q = pow2((k - j - 1) as nat) as int;
    lemma_pow2_pos(j);
    lemma_pow2_adds(j, (k - j) as nat);
    lemma_pow2_unfold((k - j) as nat);
    assert(pow2(k) == p * (2 * q));
    lemma_div_multiples_vanish_fancy_sum(n as int, 2 * q, p);
    lemma_mod_multiples_vanish(q, n as int / p, 2);
}

/// Adding a multiple of the divisor adds the factor to the quotient.
proof fn lemma_div_multiples_vanish_fancy_sum(a: int, c: int, d: int)
    requires
        d > 0,
    ensures
        (a + d * c) / d == a / d + c,
{
    lemma_fundamental_div_mod(a, d);
    lemma_mul_is_distributive_add(d, a / d, c);
    lemma_mul_is_commutative(d, a / d + c);
    lemma_fundamental_div_mod_converse(a + d * c, d, a / d + c, a % d);
}

/// Makes the table of a few bases: the products of all their subsets, each reduced as it is
/// extended by a base.
pub fn make_table(bases: &[Integer], modulus: &Integer) -> (r: Vec<Integer>)
    requires
        bases@.len() > 0,
        pow2(bases@.len()) <= usize::MAX,
        bases@.len() > 1 ==> modulus@ != 0,
        forall|i: int|
            0 <= i < bases@.len() ==> #[trigger] fits(
                product::values(bases@),
                modulus@,
                0,
                i,
            ),
    ensures
        product::values(r@) == table(product::values(bases@), modulus@),
{
    let mut ret: Vec<Integer> = Vec::new();
    // base case: the empty set, and the first base alone
    ret.push(Integer::one());
    ret.push(bases[0].clone());
    let ghost all = product::values(bases@);
    let mut bnum: usize = 1;
    assert(product::values(ret@) =~= table(all.take(1), modulus@));
    proof {
        lemma2_to64();
    }
    while bnum < bases.len()
        invariant
            1 <= bnum <= bases@.len(),
            bases@.len() > 1 ==> modulus@ != 0,
            forall|i: int| 0 <= i < bases@.len() ==> #[trigger] fits(all, modulus@, 0, i),
            ret@.len() >= 2,
            bnum == 1 ==> ret@.len() == 2,
            ret@[0]@ == 1,
            ret@[1]@ == all[0],
            forall|i: int|
                2 <= i < ret@.len() ==> digits::magnitude((#[trigger] ret@[i])@)
                    <= digits::magnitude(modulus@),
            all == product::values(bases@),
            product::values(ret@) == table(all.take(bnum as int), modulus@),
        decreases bases@.len() - bnum,
    {
        let base = &bases[bnum];
        let base_idx: usize = ret.len();
        let ghost half = ret@;
        let mut idx: usize = 0;
        // multiply the base by each of the first base_idx entries
        while idx < base_idx
            invariant
                idx <= base_idx,
                base_idx == half.len(),
                ret@.len() == base_idx + idx,
                forall|i: int| 0 <= i < base_idx ==> ret@[i] == half[i],
                base_idx >= 2,
                bnum == 1 ==> base_idx == 2,
                half[0]@ == 1,
                half[1]@ == all[0],
                forall|i: int|
                    2 <= i < ret@.len() ==> digits::magnitude((#[trigger] ret@[i])@)
                        <= digits::magnitude(modulus@),
                forall|i: int|
                    0 <= i < idx ==> (#[trigger] ret@[base_idx + i])@ == integer::truncated_rem(
                        half[i]@ * base@,
                        modulus@,
                    ),
                modulus@ != 0,
                1 <= bnum < all.len(),
                all[bnum as int] == base@,
                fits(all, modulus@, 0, bnum as int),
            decreases base_idx - idx,
        {
            proof {
                let x = digits::magnitude(half[idx as int]@);
                if idx == 0 {
                    digits::lemma_size_monotone(x, 1);
                } else if idx >= 2 {
                    assert(ret@[idx as int] == half[idx as int]);
                    digits::lemma_size_monotone(x, digits::magnitude(modulus@));
                }
                lemma_truncated_rem_bound(half[idx as int]@ * base@, modulus@);
            }
            let entry = ret[idx].mul(base).rem(modulus);
            ret.push(entry);
            idx = idx + 1;
        }
        proof {
            let prefix = all.take(bnum as int);
            let longer = all.take(bnum + 1);
            assert(longer.drop_last() =~= prefix);
            assert(longer.last() == base@);
            assert(product::values(half).len() == half.len());
            let grown = table(longer, modulus@);
            assert(product::values(ret@) =~= grown) by {
                assert forall|i: int| 0 <= i < ret@.len() implies product::values(ret@)[i]
                    == grown[i] by {
                    if i < base_idx {
                        assert(product::values(half)[i] == half[i]@);
                    } else {
                        let j = i - base_idx;
                        assert(ret@[base_idx + j]@ == integer::truncated_rem(
                            half[j]@ * base@,
                            modulus@,
                        ));
                        assert(product::values(half)[j] == half[j]@);
                    }
                }
            }
        }
        bnum = bnum + 1;
    }
    assert(all.take(bases@.len() as int) =~= all);
    ret
}

proof fn lemma_truncated_rem_bound(a: int, b: int)
    requires
        b != 0,
    ensures
        digits::magnitude(integer::truncated_rem(a, b)) <= digits::magnitude(b),
{
    let m = digits::magnitude(b) as int;
    let d = if a < 0 {
        -a
    } else {
        a
    };
    integer::lemma_mod_magnitude(d, b);
    lemma_mod_bound(d, m);
}

} // verus!
