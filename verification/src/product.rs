//! The product of a list of integers, multiplied in pairs.

use crate::digits;
use crate::integer;
use crate::integer::Integer;
use crate::par::par_zip_update;
use vstd::prelude::*;
use vstd::seq_lib::*;

verus! {

/// The values of a sequence of integers.
pub open spec fn values(s: Seq<Integer>) -> Seq<int> {
    s.map_values(|x: Integer| x@)
}

/// The product of a sequence of numbers.
pub open spec fn product(s: Seq<int>) -> int
    decreases s.len(),
{
    if s.len() == 0 {
        1
    } else {
        product(s.drop_last()) * s.last()
    }
}

/// What the numbers of a sequence take in all: no product of some of them takes more.
pub open spec fn total_size(s: Seq<int>) -> nat
    decreases s.len(),
{
    if s.len() == 0 {
        0
    } else {
        total_size(s.drop_last()) + digits::size(digits::magnitude(s.last()))
    }
}

/// The product of a sequence multiplies its numbers from the first on.
pub proof fn law_product_fold(s: Seq<int>)
    ensures
        product(s) == s.fold_left(1, |a: int, b: int| a * b),
    decreases s.len(),
{
    if s.len() > 0 {
        law_product_fold(s.drop_last());
    }
}

/// The product of two sequences, one behind the other, is the product of their products.
pub proof fn law_product_concat(a: Seq<int>, b: Seq<int>)
    ensures
        product(a + b) == product(a) * product(b),
    decreases b.len(),
{
    if b.len() == 0 {
        assert(a + b =~= a);
    } else {
        law_product_concat(a, b.drop_last());
        assert((a + b).drop_last() =~= a + b.drop_last());
        assert((product(a) * product(b.drop_last())) * b.last() == product(a) * (product(
            b.drop_last(),
        ) * b.last())) by (nonlinear_arith);
    }
}

/// The product of a sequence is that of the items before, at and behind a place.
pub(crate) proof fn lemma_product_split(s: Seq<int>, i: int)
    requires
        0 <= i < s.len(),
    ensures
        product(s) == product(s.take(i)) * (s[i] * product(s.skip(i + 1))),
{
    let item = seq![s[i]];
    assert(item.drop_last() =~= Seq::<int>::empty());
    assert(product(item.drop_last()) == 1);
    assert(s =~= s.take(i) + (item + s.skip(i + 1)));
    law_product_concat(item, s.skip(i + 1));
    law_product_concat(s.take(i), item + s.skip(i + 1));
}

proof fn lemma_total_size_concat(a: Seq<int>, b: Seq<int>)
    ensures
        total_size(a + b) == total_size(a) + total_size(b),
    decreases b.len(),
{
    if b.len() == 0 {
        assert(a + b =~= a);
    } else {
        lemma_total_size_concat(a, b.drop_last());
        assert((a + b).drop_last() =~= a + b.drop_last());
    }
}

proof fn lemma_total_size_part(s: Seq<int>, i: int)
    requires
        0 <= i < s.len(),
    ensures
        digits::size(digits::magnitude(s[i])) <= total_size(s),
    decreases s.len(),
{
    if i < s.len() - 1 {
        lemma_total_size_part(s.drop_last(), i);
    }
}

/// A sequence with the same numbers in another order has the same product, and takes as much.
pub proof fn law_product_permutation(a: Seq<int>, b: Seq<int>)
    requires
        a.to_multiset() == b.to_multiset(),
    ensures
        product(a) == product(b),
        total_size(a) == total_size(b),
    decreases b.len(),
{
    to_multiset_len(a);
    to_multiset_len(b);
    if b.len() > 0 {
        let x = b.last();
        let j = b.len() - 1;
        to_multiset_contains(b, x);
        to_multiset_contains(a, x);
        assert(b[j] == x);
        assert(b.contains(x));
        let i = choose|i: int| 0 <= i < a.len() && a[i] == x;
        to_multiset_remove(a, i);
        to_multiset_remove(b, j);
        assert(b.remove(j) =~= b.drop_last());
        law_product_permutation(a.remove(i), b.drop_last());
        lemma_remove(a, i);
    }
}

/// Neither the order nor the split of a sequence matters: where its numbers are those of two
/// others together, its product is the product of their products.
pub proof fn law_product_split(x: Seq<int>, y: Seq<int>, z: Seq<int>)
    requires
        z.to_multiset() == (x + y).to_multiset(),
    ensures
        product(z) == product(x) * product(y),
        total_size(z) == total_size(x) + total_size(y),
{
    law_product_permutation(z, x + y);
    law_product_concat(x, y);
    lemma_total_size_concat(x, y);
}

/// Taking out an item takes its factor out of the product.
proof fn lemma_remove(s: Seq<int>, i: int)
    requires
        0 <= i < s.len(),
    ensures
        product(s) == product(s.remove(i)) * s[i],
        total_size(s) == total_size(s.remove(i)) + digits::size(digits::magnitude(s[i])),
{
    let (before, item, behind) = (s.take(i), seq![s[i]], s.skip(i + 1));
    assert(s.remove(i) =~= before + behind);
    assert(s =~= before + (item + behind));
    assert(item.drop_last() =~= Seq::<int>::empty());
    assert(total_size(item.drop_last()) == 0);
    lemma_product_split(s, i);
    law_product_concat(before, behind);
    lemma_total_size_concat(before, behind);
    lemma_total_size_concat(item, behind);
    lemma_total_size_concat(before, item + behind);
    let (p, q) = (product(before), product(behind));
    assert(p * (s[i] * q) == (p * q) * s[i]) by (nonlinear_arith);
}

/// Multiplying two sequences item by item multiplies their products, and takes no more.
proof fn lemma_pairwise(a: Seq<int>, b: Seq<int>, c: Seq<int>)
    requires
        a.len() == b.len(),
        a.len() == c.len(),
        forall|i: int| 0 <= i < c.len() ==> #[trigger] c[i] == a[i] * b[i],
    ensures
        product(c) == product(a) * product(b),
        total_size(c) <= total_size(a) + total_size(b),
    decreases a.len(),
{
    if a.len() > 0 {
        lemma_pairwise(a.drop_last(), b.drop_last(), c.drop_last());
        let (x, y, p, q) = (a.last(), b.last(), product(a.drop_last()), product(b.drop_last()));
        assert(c.last() == x * y);
        assert((p * q) * (x * y) == (p * x) * (q * y)) by (nonlinear_arith);
        integer::lemma_sign_of_product(x, y);
        digits::lemma_size_mul(digits::magnitude(x), digits::magnitude(y));
    }
}

/// A trailing one neither changes the product nor takes anything.
proof fn lemma_push_one(s: Seq<int>)
    ensures
        product(s.push(1)) == product(s),
        total_size(s.push(1)) == total_size(s),
{
    assert(s.push(1).drop_last() =~= s);
}

/// Replaces a list by its product. The list is folded in half until one number is left: the first
/// half is multiplied by the second, pair by pair and in parallel, and padded with a one where its
/// length is odd.
pub fn parallel_product(v: &mut Vec<Integer>)
    requires
        old(v)@.len() > 0,
        total_size(values(old(v)@)) <= digits::max_bits(),
    ensures
        final(v)@.len() == 1,
        final(v)@[0]@ == product(values(old(v)@)),
{
    if v.len() % 2 == 1 {
        proof {
            lemma_push_one(values(v@));
        }
        v.push(Integer::one());
        assert(values(v@) =~= values(old(v)@).push(1));
    }
    while v.len() > 1
        invariant
            v@.len() == 1 || v@.len() % 2 == 0,
            v@.len() > 0,
            product(values(v@)) == product(values(old(v)@)),
            total_size(values(v@)) <= digits::max_bits(),
        decreases v@.len(),
    {
        let split_point: usize = v.len() / 2;
        let ghost whole = v@;
        let ghost a = whole.take(split_point as int);
        let ghost b = whole.skip(split_point as int);
        proof {
            assert(values(whole) =~= values(a) + values(b));
            law_product_concat(values(a), values(b));
            lemma_total_size_concat(values(a), values(b));
            assert forall|i: int| 0 <= i < split_point implies digits::size(
                digits::magnitude(a[i]@),
            ) + digits::size(digits::magnitude((#[trigger] b[i])@)) <= digits::max_bits() by {
                lemma_total_size_part(values(a), i);
                lemma_total_size_part(values(b), i);
            }
        }
        let (fst, snd) = v.split_at_mut(split_point);
        par_zip_update(fst, snd, Integer::mul);
        let ghost c = v@.take(split_point as int);
        proof {
            assert forall|i: int| 0 <= i < split_point implies #[trigger] values(c)[i] == values(
                a,
            )[i] * values(b)[i] by {
                assert(c[i] == v@[i]);
            }
            lemma_pairwise(values(a), values(b), values(c));
        }
        if split_point != 1 && split_point % 2 == 1 {
            v.truncate(split_point + 1);
            v.set(split_point, Integer::one());
            proof {
                lemma_push_one(values(c));
                assert(values(v@) =~= values(c).push(1));
            }
        } else {
            v.truncate(split_point);
            assert(values(v@) =~= values(c));
        }
    }
    proof {
        assert(values(v@).drop_last() =~= Seq::<int>::empty());
        assert(product(values(v@).drop_last()) == 1);
    }
}

} // verus!
