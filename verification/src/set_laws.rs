//! What the operations of a set do, in terms of how often each number is among its entries.

use crate::elements;
use crate::elements::Elements;
use crate::exp_set;
use crate::exp_set::ParallelExpSet;
use crate::group;
use crate::group::SemiGroup;
use crate::integer::Integer;
use crate::natural::Natural;
use crate::precomp::PrecompBases;
use crate::product;
use vstd::arithmetic::power::*;
use vstd::prelude::*;

verus! {

/// How often a number is among entries.
pub open spec fn times(entries: Seq<(Integer, usize)>, x: int) -> nat
    decreases entries.len(),
{
    if entries.len() == 0 {
        0
    } else {
        times(entries.drop_last(), x) + if entries.last().0@ == x {
            entries.last().1 as nat
        } else {
            0
        }
    }
}

/// The multiset that entries keep has each number as often as it is among them.
pub proof fn law_times(e: Elements, x: int)
    requires
        e.wf(),
    ensures
        times(e.entries@, x) == elements::count(e@, x),
        e@.contains_key(x) == (times(e.entries@, x) > 0),
{
    let s = e.list();
    let entries = e.entries@;
    if elements::listed(s, x) {
        let i = elements::place(s, x);
        assert(s[i].0 == x);
        assert forall|j: int| 0 <= j < entries.len() && j != i implies (#[trigger] entries[j]).0@
            != x by {
            assert(s[j].0 == entries[j].0@);
        }
        lemma_times_once(entries, x, i);
        assert(entries[i].1 == s[i].1);
    } else {
        assert forall|j: int| 0 <= j < entries.len() implies (#[trigger] entries[j]).0@ != x by {
            assert(s[j].0 == entries[j].0@);
        }
        lemma_times_none(entries, x);
    }
}

/// The entries are natural numbers in ascending order, each of them there at least once.
pub proof fn law_entries(e: Elements)
    requires
        e.wf(),
    ensures
        forall|i: int|
            0 <= i < e.entries@.len() ==> (#[trigger] e.entries@[i]).0@ >= 0 && e.entries@[i].1
                >= 1,
        forall|i: int, j: int|
            0 <= i < j < e.entries@.len() ==> (#[trigger] e.entries@[i]).0@ < (
            #[trigger] e.entries@[j]).0@,
{
    let s = e.list();
    assert forall|i: int| 0 <= i < e.entries@.len() implies (#[trigger] e.entries@[i]).0@ >= 0
        && e.entries@[i].1 >= 1 by {
        assert(s[i] == (e.entries@[i].0@, e.entries@[i].1 as nat));
    }
    assert forall|i: int, j: int| 0 <= i < j < e.entries@.len() implies (
    #[trigger] e.entries@[i]).0@ < (#[trigger] e.entries@[j]).0@ by {
        assert(s[i].0 == e.entries@[i].0@ && s[j].0 == e.entries@[j].0@);
    }
}

/// Two multisets with each number equally often have the same entries.
pub proof fn law_same_times(a: Elements, b: Elements)
    requires
        a.wf(),
        b.wf(),
        forall|x: int| #[trigger] times(a.entries@, x) == times(b.entries@, x),
    ensures
        a.entries@.len() == b.entries@.len(),
        forall|i: int|
            0 <= i < a.entries@.len() ==> (#[trigger] a.entries@[i]).0@ == b.entries@[i].0@
                && a.entries@[i].1 == b.entries@[i].1,
{
    assert forall|x: int| #[trigger] a@.dom().contains(x) == b@.dom().contains(x) by {
        law_times(a, x);
        law_times(b, x);
        assert(times(a.entries@, x) == times(b.entries@, x));
    }
    assert forall|x: int| #[trigger] a@.dom().contains(x) implies a@[x] == b@[x] by {
        law_times(a, x);
        law_times(b, x);
        assert(times(a.entries@, x) == times(b.entries@, x));
    }
    assert(a@.dom() =~= b@.dom());
    assert(a@ =~= b@);
    elements::law_list_unique(a.list(), b.list());
    assert forall|i: int| 0 <= i < a.entries@.len() implies (#[trigger] a.entries@[i]).0@
        == b.entries@[i].0@ && a.entries@[i].1 == b.entries@[i].1 by {
        assert(a.list()[i] == b.list()[i]);
    }
    assert(a.list().len() == a.entries@.len());
    assert(b.list().len() == b.entries@.len());
}

proof fn lemma_times_none(entries: Seq<(Integer, usize)>, x: int)
    requires
        forall|j: int| 0 <= j < entries.len() ==> (#[trigger] entries[j]).0@ != x,
    ensures
        times(entries, x) == 0,
    decreases entries.len(),
{
    if entries.len() > 0 {
        let rest = entries.drop_last();
        assert forall|j: int| 0 <= j < rest.len() implies (#[trigger] rest[j]).0@ != x by {
            assert(rest[j] == entries[j]);
        }
        lemma_times_none(rest, x);
        assert(entries[entries.len() - 1].0@ != x);
    }
}

proof fn lemma_times_once(entries: Seq<(Integer, usize)>, x: int, i: int)
    requires
        0 <= i < entries.len(),
        entries[i].0@ == x,
        forall|j: int|
            0 <= j < entries.len() && j != i ==> (#[trigger] entries[j]).0@ != x,
    ensures
        times(entries, x) == entries[i].1,
    decreases entries.len(),
{
    let rest = entries.drop_last();
    assert forall|j: int| 0 <= j < rest.len() && j != i implies (#[trigger] rest[j]).0@ != x by {
        assert(rest[j] == entries[j]);
    }
    if i == entries.len() - 1 {
        lemma_times_none(rest, x);
    } else {
        assert(entries[entries.len() - 1].0@ != x);
        lemma_times_once(rest, x, i);
    }
}

/// Putting in a number makes it one more, leaves the others as often as they were, and asks the
/// group for the power of a digest that is known.
pub proof fn law_insert<G: SemiGroup>(s: &mut ParallelExpSet<G>, n: Natural, x: int)
    requires
        old(s).wf(),
        call_ensures(ParallelExpSet::<G>::insert, (s, n), ()),
    ensures
        final(s).wf(),
        times(final(s).elements.entries@, x) == times(old(s).elements.entries@, x) + if x == n@ {
            1nat
        } else {
            0nat
        },
        old(s).digest is None ==> final(s).digest is None,
        old(s).digest matches Some(d) ==> final(s).digest matches Some(r) && call_ensures(
            G::power,
            (&old(s).group, &d, &n),
            r,
        ),
        final(s).group == old(s).group,
        final(s).bases == old(s).bases,
{
    law_times(old(s).elements, x);
    law_times(final(s).elements, x);
}

/// Putting in numbers adds how often each of them is given.
pub proof fn law_insert_all<G: SemiGroup>(s: &mut ParallelExpSet<G>, items: Vec<Natural>, x: int)
    requires
        old(s).wf(),
        call_ensures(ParallelExpSet::<G>::insert_all, (s, items), ()),
    ensures
        final(s).wf(),
        times(final(s).elements.entries@, x) == times(old(s).elements.entries@, x)
            + items@.map_values(|n: Natural| n@ as int).to_multiset().count(x),
        old(s).digest is None ==> final(s).digest is None,
        final(s).group == old(s).group,
        final(s).bases == old(s).bases,
{
    law_times(old(s).elements, x);
    law_times(final(s).elements, x);
    exp_set::law_added_count(old(s).elements@, items@, x);
    exp_set::lemma_occurrences_multiset(items@, x);
    assert(exp_set::numbers(items@) =~= items@.map_values(|n: Natural| n@ as int));
}

/// Putting in numbers asks the group for a power of a known digest by each of them in turn.
pub proof fn law_insert_all_digest<G: SemiGroup>(
    s: &mut ParallelExpSet<G>,
    items: Vec<Natural>,
    d: G::Elem,
)
    requires
        old(s).digest == Some(d),
        call_ensures(ParallelExpSet::<G>::insert_all, (s, items), ()),
    ensures
        final(s).digest is Some,
        exists|ds: Seq<G::Elem>|
            {
                &&& ds.len() == items@.len() + 1
                &&& ds[0] == d
                &&& #[trigger] ds.last() == final(s).digest->0
                &&& forall|i: int|
                    0 <= i < items@.len() ==> call_ensures(
                        G::power,
                        (&old(s).group, &ds[i], &#[trigger] items@[i]),
                        ds[i + 1],
                    )
            },
{
    let ds = lemma_applied_chain(old(s).group, d, items@, final(s).digest->0);
    assert(ds.last() == final(s).digest->0);
}

proof fn lemma_applied_chain<G: SemiGroup>(
    group: G,
    d: G::Elem,
    items: Seq<Natural>,
    r: G::Elem,
) -> (ds: Seq<G::Elem>)
    requires
        exp_set::applied(group, d, items, r),
    ensures
        ds.len() == items.len() + 1,
        ds[0] == d,
        ds.last() == r,
        forall|i: int|
            0 <= i < items.len() ==> call_ensures(
                G::power,
                (&group, &ds[i], &#[trigger] items[i]),
                ds[i + 1],
            ),
    decreases items.len(),
{
    if items.len() == 0 {
        seq![d]
    } else {
        let rest = items.drop_last();
        let q = choose|q: G::Elem|
            exp_set::applied(group, d, rest, q) && #[trigger] group::is_power(
                group,
                q,
                items.last(),
                r,
            );
        let es = lemma_applied_chain(group, d, rest, q);
        let ds = es.push(r);
        assert forall|i: int| 0 <= i < items.len() implies call_ensures(
            G::power,
            (&group, &ds[i], &#[trigger] items[i]),
            ds[i + 1],
        ) by {
            if i < rest.len() {
                assert(rest[i] == items[i]);
                assert(ds[i] == es[i] && ds[i + 1] == es[i + 1]);
            } else {
                assert(group::is_power(group, q, items.last(), r));
            }
        }
        ds
    }
}

/// Putting in no numbers changes nothing.
pub proof fn law_insert_none<G: SemiGroup>(s: &mut ParallelExpSet<G>, items: Vec<Natural>, x: int)
    requires
        old(s).wf(),
        items@.len() == 0,
        call_ensures(ParallelExpSet::<G>::insert_all, (s, items), ()),
    ensures
        times(final(s).elements.entries@, x) == times(old(s).elements.entries@, x),
        final(s).digest == old(s).digest,
{
    law_times(old(s).elements, x);
    law_times(final(s).elements, x);
}

/// Putting in numbers is to put in all but the last of them, and then the last.
pub proof fn law_insert_last<G: SemiGroup>(
    whole: &mut ParallelExpSet<G>,
    items: Vec<Natural>,
    front: &mut ParallelExpSet<G>,
    others: Vec<Natural>,
    back: &mut ParallelExpSet<G>,
    n: Natural,
)
    requires
        old(whole).wf(),
        items@ == others@.push(n),
        *old(front) == *old(whole),
        *old(back) == *final(front),
        call_ensures(ParallelExpSet::<G>::insert_all, (whole, items), ()),
        call_ensures(ParallelExpSet::<G>::insert_all, (front, others), ()),
        call_ensures(ParallelExpSet::<G>::insert, (back, n), ()),
    ensures
        final(whole).elements.list() == final(back).elements.list(),
        final(whole).digest is Some == final(back).digest is Some,
        final(whole).group == final(back).group,
        final(whole).bases == final(back).bases,
{
    assert(items@.drop_last() =~= others@);
    elements::law_list_unique(final(whole).elements.list(), final(back).elements.list());
}

/// Taking out says whether the number was there, makes it one less if it was, leaves the others as
/// often as they were, and forgets the digest if something was taken out.
pub proof fn law_remove<G: SemiGroup>(s: &mut ParallelExpSet<G>, n: Natural, r: bool, x: int)
    requires
        old(s).wf(),
        call_ensures(ParallelExpSet::<G>::remove, (s, &n), r),
    ensures
        final(s).wf(),
        r == (times(old(s).elements.entries@, n@ as int) > 0),
        times(final(s).elements.entries@, x) == times(old(s).elements.entries@, x) - if r && x
            == n@ {
            1int
        } else {
            0int
        },
        final(s).digest == if r {
            None
        } else {
            old(s).digest
        },
        final(s).group == old(s).group,
        final(s).bases == old(s).bases,
{
    law_times(old(s).elements, x);
    law_times(final(s).elements, x);
    law_times(old(s).elements, n@ as int);
}

/// Taking out what was just put in gives back the same entries.
pub proof fn law_insert_remove<G: SemiGroup>(
    s: &mut ParallelExpSet<G>,
    n: Natural,
    t: &mut ParallelExpSet<G>,
    m: Natural,
    r: bool,
)
    requires
        old(s).wf(),
        n@ == m@,
        call_ensures(ParallelExpSet::<G>::insert, (s, n), ()),
        *old(t) == *final(s),
        call_ensures(ParallelExpSet::<G>::remove, (t, &m), r),
    ensures
        r,
        final(t).elements.list() == old(s).elements.list(),
        final(t).digest is None,
{
    let x = n@ as int;
    law_times(old(s).elements, x);
    assert(old(s).elements@.contains_key(x) ==> old(s).elements@[x] > 0);
    elements::law_add_take(old(s).elements.list(), x);
    elements::law_list_unique(final(t).elements.list(), old(s).elements.list());
}

/// Putting in again what was taken out gives back the same entries.
pub proof fn law_remove_insert<G: SemiGroup>(
    s: &mut ParallelExpSet<G>,
    n: Natural,
    t: &mut ParallelExpSet<G>,
    m: Natural,
)
    requires
        old(s).wf(),
        n@ == m@,
        call_ensures(ParallelExpSet::<G>::remove, (s, &n), true),
        *old(t) == *final(s),
        call_ensures(ParallelExpSet::<G>::insert, (t, m), ()),
    ensures
        final(t).elements.list() == old(s).elements.list(),
{
    let x = n@ as int;
    law_times(old(s).elements, x);
    assert(final(t).elements@ =~= old(s).elements@);
    elements::law_list_unique(final(t).elements.list(), old(s).elements.list());
}

/// Forgetting the digest leaves the numbers, the group and the bases as they were.
pub proof fn law_clear_digest<G: SemiGroup>(s: &mut ParallelExpSet<G>, x: int)
    requires
        call_ensures(ParallelExpSet::<G>::clear_digest, (s,), ()),
    ensures
        final(s).digest is None,
        times(final(s).elements.entries@, x) == times(old(s).elements.entries@, x),
        final(s).elements.entries@ == old(s).elements.entries@,
        final(s).group == old(s).group,
        final(s).bases == old(s).bases,
{
}

/// Whether a number can be taken out is not changed by forgetting the digest.
pub proof fn law_clear_remove<G: SemiGroup>(
    s: &mut ParallelExpSet<G>,
    t: &mut ParallelExpSet<G>,
    u: &mut ParallelExpSet<G>,
    n: Natural,
    a: bool,
    b: bool,
)
    requires
        old(s).wf(),
        call_ensures(ParallelExpSet::<G>::clear_digest, (s,), ()),
        *old(t) == *final(s),
        call_ensures(ParallelExpSet::<G>::remove, (t, &n), a),
        *old(u) == *old(s),
        call_ensures(ParallelExpSet::<G>::remove, (u, &n), b),
    ensures
        a == b,
        final(t).elements.list() == final(u).elements.list(),
{
    elements::law_list_unique(final(t).elements.list(), final(u).elements.list());
}

/// A new set has no numbers and no digest, the given group, and tables of eight bases.
pub proof fn law_new<G: SemiGroup>(
    group: G,
    bases: PrecompBases,
    r: ParallelExpSet<G>,
    made: &mut PrecompBases,
    x: int,
)
    requires
        call_ensures(ParallelExpSet::<G>::new, (group, bases), r),
        *old(made) == bases,
        call_ensures(PrecompBases::make_tables, (made, 8usize), ()),
    ensures
        r.wf(),
        r.elements.entries@.len() == 0,
        times(r.elements.entries@, x) == 0,
        r.digest is None,
        r.group == group,
        r.bases.bs == final(made).bs,
        r.bases.m == final(made).m,
        r.bases.lms == final(made).lms,
        r.bases.bpe == final(made).bpe,
        r.bases.npt == final(made).npt,
        r.bases.table_values() == final(made).table_values(),
{
    let e = r.elements;
    if e.entries@.len() > 0 {
        let s = e.list();
        assert(elements::listed(s, s[0].0));
        assert(e@.contains_key(s[0].0));
    }
}

/// A new set of numbers has each of them as often as it is given, no digest, the given group, and
/// tables of eight bases.
pub proof fn law_new_with<G: SemiGroup>(
    group: G,
    bases: PrecompBases,
    items: Vec<Natural>,
    r: ParallelExpSet<G>,
    made: &mut PrecompBases,
    x: int,
)
    requires
        call_ensures(ParallelExpSet::<G>::new_with, (group, bases, items), r),
        *old(made) == bases,
        call_ensures(PrecompBases::make_tables, (made, 8usize), ()),
    ensures
        r.wf(),
        times(r.elements.entries@, x) == items@.map_values(
            |n: Natural| n@ as int,
        ).to_multiset().count(x),
        r.digest is None,
        r.group == group,
        r.bases.bs == final(made).bs,
        r.bases.m == final(made).m,
        r.bases.lms == final(made).lms,
        r.bases.bpe == final(made).bpe,
        r.bases.npt == final(made).npt,
        r.bases.table_values() == final(made).table_values(),
{
    law_times(r.elements, x);
    exp_set::law_added_count(Map::empty(), items@, x);
    exp_set::lemma_occurrences_multiset(items@, x);
    assert(exp_set::numbers(items@) =~= items@.map_values(|n: Natural| n@ as int));
}

/// Something that is done to a set.
pub enum Operation {
    /// A number is put in.
    Insert {
        /// The number.
        n: Natural,
    },
    /// Numbers are put in.
    InsertAll {
        /// The numbers.
        items: Vec<Natural>,
    },
    /// A number is taken out.
    Remove {
        /// The number.
        n: Natural,
        /// Whether it was there.
        found: bool,
    },
    /// The digest is forgotten.
    ClearDigest,
}

/// How many more of a number there are after some operations.
pub open spec fn net(ops: Seq<Operation>, x: int) -> int
    decreases ops.len(),
{
    if ops.len() == 0 {
        0
    } else {
        net(ops.drop_last(), x) + match ops.last() {
            Operation::Insert { n } => if n@ == x {
                1int
            } else {
                0int
            },
            Operation::InsertAll { items } => items@.map_values(
                |n: Natural| n@ as int,
            ).to_multiset().count(x) as int,
            Operation::Remove { n, found } => if found && n@ == x {
                -1int
            } else {
                0int
            },
            Operation::ClearDigest => 0int,
        }
    }
}

/// Whatever is done to a set, a number is in it as often as it was, plus how often it was put in,
/// minus how often it was taken out with success; the group and the bases stay, and a digest that
/// is not known does not become known.
pub proof fn law_history<G: SemiGroup>(
    states: Seq<ParallelExpSet<G>>,
    ops: Seq<Operation>,
    i: int,
    x: int,
)
    requires
        states.len() == ops.len() + 1,
        0 <= i <= ops.len(),
        states[0].wf(),
        forall|j: int|
            0 <= j < ops.len() ==> match #[trigger] ops[j] {
                Operation::Insert { n } => exists|s: &mut ParallelExpSet<G>|
                    *s == states[j] && *final(s) == states[j + 1] && #[trigger] call_ensures(
                        ParallelExpSet::<G>::insert,
                        (s, n),
                        (),
                    ),
                Operation::InsertAll { items } => exists|s: &mut ParallelExpSet<G>|
                    *s == states[j] && *final(s) == states[j + 1] && #[trigger] call_ensures(
                        ParallelExpSet::<G>::insert_all,
                        (s, items),
                        (),
                    ),
                Operation::Remove { n, found } => exists|s: &mut ParallelExpSet<G>|
                    *s == states[j] && *final(s) == states[j + 1] && #[trigger] call_ensures(
                        ParallelExpSet::<G>::remove,
                        (s, &n),
                        found,
                    ),
                Operation::ClearDigest => exists|s: &mut ParallelExpSet<G>|
                    *s == states[j] && *final(s) == states[j + 1] && #[trigger] call_ensures(
                        ParallelExpSet::<G>::clear_digest,
                        (s,),
                        (),
                    ),
            },
    ensures
        states[i].wf(),
        times(states[i].elements.entries@, x) == times(states[0].elements.entries@, x) + net(
            ops.take(i),
            x,
        ),
        states[i].group == states[0].group,
        states[i].bases == states[0].bases,
        states[0].digest is None ==> states[i].digest is None,
    decreases i,
{
    if i > 0 {
        let j = i - 1;
        law_history(states, ops, j, x);
        assert(ops.take(i).drop_last() =~= ops.take(j));
        assert(ops.take(i).last() == ops[j]);
        let (before, after) = (states[j], states[j + 1]);
        law_times(before.elements, x);
        match ops[j] {
            Operation::Insert { n } => {
                assert(before.inserted(n, after));
                law_times(after.elements, x);
            },
            Operation::InsertAll { items } => {
                assert(before.inserted_all(items@, after));
                law_times(after.elements, x);
                exp_set::law_added_count(before.elements@, items@, x);
                exp_set::lemma_occurrences_multiset(items@, x);
                assert(exp_set::numbers(items@) =~= items@.map_values(|n: Natural| n@ as int));
            },
            Operation::Remove { n, found } => {
                assert(before.removed(n, found, after));
                law_times(after.elements, x);
            },
            Operation::ClearDigest => {
                assert(before.cleared(after));
            },
        }
    }
}

/// The exponent is the product of the numbers, each to the power of how often it is in the set, of
/// which the lower 32 bits count.
pub proof fn law_exponent<G: SemiGroup>(s: ParallelExpSet<G>, r: Integer)
    requires
        call_ensures(ParallelExpSet::<G>::exponent, (&s,), r),
    ensures
        r@ == s.elements.entries@.map_values(
            |e: (Integer, usize)| pow(e.0@, e.1 as nat % 0x1_0000_0000),
        ).fold_left(1, |a: int, b: int| a * b),
{
    let powers = s.elements.entries@.map_values(
        |e: (Integer, usize)| pow(e.0@, e.1 as nat % 0x1_0000_0000),
    );
    let list = s.elements.list();
    assert(list.map_values(|e: (int, nat)| elements::factor(e)) =~= powers);
    product::law_product_fold(powers);
}

/// The exponent of a new set is the product of the given numbers, where none of them is given 2^32
/// times or more.
pub proof fn law_exponent_new<G: SemiGroup>(
    group: G,
    bases: PrecompBases,
    items: Vec<Natural>,
    s: ParallelExpSet<G>,
    r: Integer,
)
    requires
        call_ensures(ParallelExpSet::<G>::new_with, (group, bases, items), s),
        call_ensures(ParallelExpSet::<G>::exponent, (&s,), r),
        items@.len() > 0,
        forall|x: int| #[trigger] times(s.elements.entries@, x) < 0x1_0000_0000,
    ensures
        r@ == items@.map_values(|n: Natural| n@ as int).fold_left(1, |a: int, b: int| a * b),
{
    assert forall|x: int| #[trigger] exp_set::occurrences(items@, x) < 0x1_0000_0000 by {
        exp_set::law_added_count(Map::empty(), items@, x);
        law_times(s.elements, x);
        assert(times(s.elements.entries@, x) < 0x1_0000_0000);
    }
    let list = lemma_exponent_of(items@);
    elements::law_list_unique(list, s.elements.list());
    assert(exp_set::numbers(items@) =~= items@.map_values(|n: Natural| n@ as int));
    product::law_product_fold(exp_set::numbers(items@));
}

/// Numbers that are put in one by one are kept in a list whose exponent is their product.
proof fn lemma_exponent_of(items: Seq<Natural>) -> (list: Seq<(int, nat)>)
    requires
        forall|x: int| #[trigger] exp_set::occurrences(items, x) < 0x1_0000_0000,
    ensures
        elements::valid(list),
        elements::contents(list) == exp_set::added(Map::empty(), items),
        elements::exponent(list) == product::product(exp_set::numbers(items)),
    decreases items.len(),
{
    if items.len() == 0 {
        let list = Seq::<(int, nat)>::empty();
        assert(elements::contents(list) =~= Map::empty());
        assert(exp_set::numbers(items) =~= Seq::empty());
        assert(list.map_values(|e: (int, nat)| elements::factor(e)) =~= Seq::empty());
        list
    } else {
        let rest = items.drop_last();
        let x = items.last()@ as int;
        assert forall|y: int| #[trigger] exp_set::occurrences(rest, y) < 0x1_0000_0000 by {
            assert(exp_set::occurrences(items, y) < 0x1_0000_0000);
        }
        let before = lemma_exponent_of(rest);
        let list = elements::lemma_list_add(before, x);
        exp_set::law_added_count(Map::empty(), rest, x);
        assert(exp_set::occurrences(items, x) == exp_set::occurrences(rest, x) + 1);
        elements::law_exponent_add(before, list, x);
        assert(exp_set::numbers(items).drop_last() =~= exp_set::numbers(rest));
        list
    }
}

/// What the set gives out: its digest, whether there is one, and its group.
pub proof fn law_accessors<G: SemiGroup>(
    s: &mut ParallelExpSet<G>,
    digest: G::Elem,
    has_digest: bool,
    group: &G,
)
    requires
        old(s).digest is Some,
        call_ensures(ParallelExpSet::<G>::digest, (s,), digest),
        call_ensures(ParallelExpSet::<G>::has_digest, (&*final(s),), has_digest),
        call_ensures(ParallelExpSet::<G>::group, (&*final(s),), group),
    ensures
        cloned(old(s).digest->0, digest),
        *final(s) == *old(s),
        has_digest,
        *group == old(s).group,
{
}

/// Where no digest is known, the set says so.
pub proof fn law_has_digest<G: SemiGroup>(s: ParallelExpSet<G>, r: bool)
    requires
        call_ensures(ParallelExpSet::<G>::has_digest, (&s,), r),
    ensures
        r == (s.digest is Some),
{
}

/// Every number can be put in that is not there too often to be counted, and every number can be
/// asked to be taken out; a known digest can be asked for.
pub proof fn law_accepted<G: SemiGroup>(s: &mut ParallelExpSet<G>, n: Natural)
    requires
        old(s).wf(),
    ensures
        times(old(s).elements.entries@, n@ as int) < usize::MAX ==> call_requires(
            ParallelExpSet::<G>::insert,
            (s, n),
        ),
        call_requires(ParallelExpSet::<G>::remove, (s, &n)),
        call_requires(ParallelExpSet::<G>::clear_digest, (s,)),
        old(s).digest is Some ==> call_requires(ParallelExpSet::<G>::digest, (s,)),
{
    law_times(old(s).elements, n@ as int);
}

/// The empty multiset has no entries.
pub proof fn law_elements_new(r: Elements)
    requires
        call_ensures(Elements::new, (), r),
    ensures
        r.wf(),
        r.entries@.len() == 0,
{
    assert(r.list().len() == r.entries@.len());
}

/// Putting a number into a multiset once more, and taking it out once.
pub proof fn law_elements(
    a: &mut Elements,
    p: Integer,
    b: &mut Elements,
    q: Integer,
    r: bool,
    x: int,
)
    requires
        old(a).wf(),
        call_ensures(Elements::increment, (a, p), ()),
        old(b).wf(),
        call_ensures(Elements::decrement, (b, &q), r),
    ensures
        times(final(a).entries@, x) == times(old(a).entries@, x) + if x == p@ {
            1nat
        } else {
            0nat
        },
        r == (times(old(b).entries@, q@) > 0),
        times(final(b).entries@, x) == times(old(b).entries@, x) - if r && x == q@ {
            1int
        } else {
            0int
        },
{
    law_times(*old(a), x);
    law_times(*final(a), x);
    law_times(*old(b), x);
    law_times(*old(b), q@);
    law_times(*final(b), x);
}

} // verus!
