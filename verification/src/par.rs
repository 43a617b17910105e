//! Work that `rayon` spreads over threads.
//!
//! Each function here hands a function of its caller to a parallel iterator. The contracts say
//! which items that function is applied to and where its results go, and are taken on trust; what
//! it does to an item is proved where it is defined.

use crate::integer::Integer;
use crate::tables;
use rayon::prelude::{
    IndexedParallelIterator, IntoParallelRefIterator, IntoParallelRefMutIterator, ParallelExtend,
    ParallelIterator, ParallelSlice,
};
use vstd::prelude::*;

verus! {

/// Calls `rayon`'s `par_iter_mut`, `zip` and `for_each` on two slices of the same length: each
/// item of the first becomes what `f` makes of it and the item at its place in the second.
#[verifier::external_body]
pub(crate) fn par_zip_update<F: Fn(&Integer, &Integer) -> Integer + Sync + Send>(
    fst: &mut [Integer],
    snd: &[Integer],
    f: F,
)
    requires
        old(fst)@.len() == snd@.len(),
        forall|i: int|
            0 <= i < snd@.len() ==> call_requires(f, (&old(fst)@[i], &#[trigger] snd@[i])),
    ensures
        final(fst)@.len() == old(fst)@.len(),
        forall|i: int|
            0 <= i < final(fst)@.len() ==> call_ensures(
                f,
                (&old(fst)@[i], &snd@[i]),
                #[trigger] final(fst)@[i],
            ),
{
    fst.par_iter_mut().zip(snd).for_each(|(a, b)| *a = f(a, b));
}

/// Whether a function may be called on a slice that holds the given items.
pub open spec fn accepted_by<F: Fn(&[Integer]) -> Vec<Integer>>(f: F, items: Seq<Integer>) -> bool {
    forall|piece: &[Integer]| piece@ == items ==> #[trigger] call_requires(f, (piece,))
}

/// Whether a function, called on a slice that holds the given items, may return the given result.
pub open spec fn made_from<F: Fn(&[Integer]) -> Vec<Integer>>(
    f: F,
    items: Seq<Integer>,
    result: Vec<Integer>,
) -> bool {
    exists|piece: &[Integer]| piece@ == items && #[trigger] call_ensures(f, (piece,), result)
}

/// Calls `rayon`'s `par_chunks`, `map` and `par_extend`: a slice is cut into pieces of `n` items,
/// the last of which may be shorter, and what `f` makes of each piece is appended to `results`, in
/// the order of the pieces. `par_chunks` panics where `n` is zero.
#[verifier::external_body]
pub(crate) fn par_extend_chunks<F: Fn(&[Integer]) -> Vec<Integer> + Sync + Send>(
    results: &mut Vec<Vec<Integer>>,
    items: &[Integer],
    n: usize,
    f: F,
)
    requires
        n > 0,
        forall|t: int|
            0 <= t < tables::chunk_count(items@.len(), n as nat) ==> accepted_by(
                f,
                #[trigger] tables::chunk(items@, n as nat, t),
            ),
    ensures
        final(results)@.len() == old(results)@.len() + tables::chunk_count(
            items@.len(),
            n as nat,
        ),
        final(results)@.take(old(results)@.len() as int) == old(results)@,
        forall|t: int|
            0 <= t < tables::chunk_count(items@.len(), n as nat) ==> made_from(
                f,
                #[trigger] tables::chunk(items@, n as nat, t),
                final(results)@[old(results)@.len() + t],
            ),
{
    results.par_extend(items.par_chunks(n).map(f));
}

/// Calls `rayon`'s `par_iter`, `map` and `par_extend`: what `f` makes of each item is appended to
/// `results`, in the order of the items.
#[verifier::external_body]
pub(crate) fn par_extend_map<F: Fn(&(Integer, usize)) -> Integer + Sync + Send>(
    results: &mut Vec<Integer>,
    items: &[(Integer, usize)],
    f: F,
)
    requires
        forall|i: int| 0 <= i < items@.len() ==> call_requires(f, (&#[trigger] items@[i],)),
    ensures
        final(results)@.len() == old(results)@.len() + items@.len(),
        final(results)@.take(old(results)@.len() as int) == old(results)@,
        forall|i: int|
            0 <= i < items@.len() ==> call_ensures(
                f,
                (&#[trigger] items@[i],),
                final(results)@[old(results)@.len() + i],
            ),
{
    results.par_extend(items.par_iter().map(f));
}

} // verus!
