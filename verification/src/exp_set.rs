//! The multiset with a digest.

use crate::digits;
use crate::elements;
use crate::elements::Elements;
use crate::group;
use crate::group::SemiGroup;
use crate::integer::{from_biguint, Integer};
use crate::natural::Natural;
use crate::par::par_extend_map;
use crate::precomp::PrecompBases;
use crate::product;
use crate::product::parallel_product;
use std::rc::Rc;
use vstd::multiset::*;
use vstd::prelude::*;
use vstd::seq_lib::*;

verus! {

/// How many bases the tables of a set combine, where there are so many.
pub const N_PER_TABLE: usize = 8;

/// A multiset of natural numbers. It has a digest, a group element to which each number that is put
/// in is applied as an exponent, and tables of precomputed powers to rebuild the digest with.
#[derive(Clone, PartialEq, Eq, Debug)]
pub struct ParallelExpSet<G: SemiGroup> {
    /// The group of the digest.
    pub group: G,
    /// The numbers.
    pub elements: Elements,
    /// The digest, where it is known.
    pub digest: Option<G::Elem>,
    /// The tables.
    pub bases: Rc<PrecompBases>,
}

/// Whether a digest may come of another one to which numbers were applied one by one.
pub open spec fn applied<G: SemiGroup>(
    group: G,
    d: G::Elem,
    items: Seq<Natural>,
    r: G::Elem,
) -> bool
    decreases items.len(),
{
    if items.len() == 0 {
        r == d
    } else {
        exists|q: G::Elem|
            applied(group, d, items.drop_last(), q) && #[trigger] group::is_power(
                group,
                q,
                items.last(),
                r,
            )
    }
}

/// The multiset after numbers were put in one by one.
pub open spec fn added(m: Map<int, nat>, items: Seq<Natural>) -> Map<int, nat>
    decreases items.len(),
{
    if items.len() == 0 {
        m
    } else {
        elements::add_one(added(m, items.drop_last()), items.last()@ as int)
    }
}

/// How often a number is among others.
pub open spec fn occurrences(items: Seq<Natural>, x: int) -> nat
    decreases items.len(),
{
    if items.len() == 0 {
        0
    } else {
        occurrences(items.drop_last(), x) + if items.last()@ == x {
            1nat
        } else {
            0nat
        }
    }
}

/// Putting in numbers one by one adds how often each of them is among them.
pub proof fn law_added_count(m: Map<int, nat>, items: Seq<Natural>, x: int)
    ensures
        elements::count(added(m, items), x) == elements::count(m, x) + occurrences(items, x),
    decreases items.len(),
{
    if items.len() > 0 {
        law_added_count(m, items.drop_last(), x);
    }
}

/// The values of numbers.
pub open spec fn numbers(items: Seq<Natural>) -> Seq<int> {
    items.map_values(|n: Natural| n@ as int)
}

/// The order in which numbers are put in does not matter.
pub proof fn law_added_permutation(m: Map<int, nat>, xs: Seq<Natural>, ys: Seq<Natural>)
    requires
        numbers(xs).to_multiset() == numbers(ys).to_multiset(),
    ensures
        added(m, xs) == added(m, ys),
{
    let (a, b) = (added(m, xs), added(m, ys));
    assert forall|x: int| #[trigger] a.dom().contains(x) == b.dom().contains(x) by {
        lemma_same_occurrences(m, xs, ys, x);
    }
    assert forall|x: int| #[trigger] a.dom().contains(x) implies a[x] == b[x] by {
        lemma_same_occurrences(m, xs, ys, x);
    }
    assert(a.dom() =~= b.dom());
    assert(a =~= b);
}

proof fn lemma_same_occurrences(m: Map<int, nat>, xs: Seq<Natural>, ys: Seq<Natural>, x: int)
    requires
        numbers(xs).to_multiset() == numbers(ys).to_multiset(),
    ensures
        added(m, xs).contains_key(x) == added(m, ys).contains_key(x),
        elements::count(added(m, xs), x) == elements::count(added(m, ys), x),
{
    lemma_occurrences_multiset(xs, x);
    lemma_occurrences_multiset(ys, x);
    law_added_count(m, xs, x);
    law_added_count(m, ys, x);
    lemma_added_key(m, xs, x);
    lemma_added_key(m, ys, x);
}

/// How often a number is among others is how often it is in their multiset.
pub(crate) proof fn lemma_occurrences_multiset(items: Seq<Natural>, x: int)
    ensures
        occurrences(items, x) == numbers(items).to_multiset().count(x),
    decreases items.len(),
{
    broadcast use group_multiset_axioms;

    if items.len() == 0 {
        assert(numbers(items) =~= Seq::<int>::empty());
        to_multiset_len(numbers(items));
        to_multiset_contains(numbers(items), x);
    } else {
        let rest = items.drop_last();
        lemma_occurrences_multiset(rest, x);
        assert(numbers(items) =~= numbers(rest).push(items.last()@ as int));
        to_multiset_build(numbers(rest), items.last()@ as int);
    }
}

proof fn lemma_added_key(m: Map<int, nat>, items: Seq<Natural>, x: int)
    ensures
        added(m, items).contains_key(x) == (m.contains_key(x) || occurrences(items, x) > 0),
    decreases items.len(),
{
    if items.len() > 0 {
        lemma_added_key(m, items.drop_last(), x);
    }
}

proof fn lemma_occurrences_take(items: Seq<Natural>, k: int, x: int)
    requires
        0 <= k <= items.len(),
    ensures
        occurrences(items.take(k), x) <= occurrences(items, x),
        occurrences(items, x) <= items.len(),
    decreases items.len(),
{
    if items.len() > 0 {
        if k < items.len() {
            lemma_occurrences_take(items.drop_last(), k, x);
            assert(items.drop_last().take(k) =~= items.take(k));
        } else {
            lemma_occurrences_take(items.drop_last(), k - 1, x);
            assert(items.take(k) =~= items);
        }
    }
}

/// The product of numbers.
pub open spec fn product_of(items: Seq<Natural>) -> nat
    decreases items.len(),
{
    if items.len() == 0 {
        1
    } else {
        product_of(items.drop_last()) * items.last()@
    }
}

/// To apply numbers to a digest one by one is to apply their product.
pub proof fn law_applied_product<G: SemiGroup>(
    group: G,
    d: G::Elem,
    items: Seq<Natural>,
    r: G::Elem,
    power: spec_fn(G::Elem, nat) -> G::Elem,
)
    requires
        group::has_powers(group, power),
        group::powers_compose(power),
        items.len() > 0,
        applied(group, d, items, r),
    ensures
        r == power(d, product_of(items)),
    decreases items.len(),
{
    let rest = items.drop_last();
    let q = choose|q: G::Elem|
        applied(group, d, rest, q) && #[trigger] group::is_power(group, q, items.last(), r);
    assert(r == power(q, items.last()@));
    if rest.len() > 0 {
        law_applied_product(group, d, rest, q, power);
        assert(power(power(d, product_of(rest)), items.last()@) == power(
            d,
            product_of(rest) * items.last()@,
        ));
    } else {
        assert(product_of(rest) == 1);
        assert(1 * items.last()@ == items.last()@);
    }
}

/// Whatever operations are done on a set, one after the other, it stays valid and keeps its group
/// and its bases, and a digest that is not known does not become known.
pub proof fn law_history<G: SemiGroup>(states: Seq<ParallelExpSet<G>>, i: int)
    requires
        0 <= i < states.len(),
        states[0].wf(),
        forall|j: int| 0 < j < states.len() ==> states[j - 1].step(#[trigger] states[j]),
    ensures
        states[i].wf(),
        states[i].group == states[0].group,
        states[i].bases == states[0].bases,
        states[0].digest is None ==> states[i].digest is None,
    decreases i,
{
    if i > 0 {
        law_history(states, i - 1);
        assert(states[i - 1].step(states[i]));
    }
}

/// In no state that is reached from a new set is the digest known: no operation rebuilds it from
/// the numbers, so that it cannot be asked for.
pub proof fn law_no_digest<G: SemiGroup>(
    group: G,
    bases: PrecompBases,
    items: Seq<Natural>,
    states: Seq<ParallelExpSet<G>>,
    i: int,
)
    requires
        0 <= i < states.len(),
        states[0].made_of(group, bases, items),
        forall|j: int| 0 < j < states.len() ==> states[j - 1].step(#[trigger] states[j]),
    ensures
        states[i].digest is None,
        states[i].group == group,
        (*states[i].bases).has_tables_of(bases, N_PER_TABLE),
{
    law_history(states, i);
}

/// A new set has each number as often as it is among the given ones, and no digest.
pub proof fn law_new_count<G: SemiGroup>(
    group: G,
    bases: PrecompBases,
    items: Seq<Natural>,
    r: ParallelExpSet<G>,
    x: int,
)
    requires
        r.made_of(group, bases, items),
    ensures
        elements::count(r.elements@, x) == occurrences(items, x),
        r.elements@.contains_key(x) == (occurrences(items, x) > 0),
        r.digest is None,
{
    law_added_count(Map::empty(), items, x);
    lemma_added_key(Map::empty(), items, x);
}

/// A new set does not depend on the order of the numbers.
pub proof fn law_new_permutation<G: SemiGroup>(
    group: G,
    bases: PrecompBases,
    xs: Seq<Natural>,
    ys: Seq<Natural>,
    r: ParallelExpSet<G>,
    s: ParallelExpSet<G>,
)
    requires
        numbers(xs).to_multiset() == numbers(ys).to_multiset(),
        r.made_of(group, bases, xs),
        s.made_of(group, bases, ys),
    ensures
        r.same(s),
{
    law_added_permutation(Map::empty(), xs, ys);
    elements::law_list_unique(r.elements.list(), s.elements.list());
}

/// A new set of numbers is a new empty set into which they were put one by one.
pub proof fn law_new_with<G: SemiGroup>(
    group: G,
    bases: PrecompBases,
    items: Seq<Natural>,
    r: ParallelExpSet<G>,
    states: Seq<ParallelExpSet<G>>,
)
    requires
        r.made_of(group, bases, items),
        states.len() == items.len() + 1,
        states[0].made_of(group, bases, Seq::empty()),
        forall|i: int|
            0 <= i < items.len() ==> states[i].inserted(#[trigger] items[i], states[i + 1]),
    ensures
        states.last().same(r),
{
    lemma_inserted_each(items, states, items.len() as int);
    assert(items.take(items.len() as int) =~= items);
    elements::law_list_unique(states.last().elements.list(), r.elements.list());
}

proof fn lemma_inserted_each<G: SemiGroup>(
    items: Seq<Natural>,
    states: Seq<ParallelExpSet<G>>,
    k: int,
)
    requires
        0 <= k <= items.len(),
        states.len() == items.len() + 1,
        states[0].wf(),
        states[0].digest is None,
        forall|i: int|
            0 <= i < items.len() ==> states[i].inserted(#[trigger] items[i], states[i + 1]),
    ensures
        states[k].wf(),
        states[k].digest is None,
        states[k].elements@ == added(states[0].elements@, items.take(k)),
        states[k].group == states[0].group,
        states[k].bases == states[0].bases,
    decreases k,
{
    if k > 0 {
        lemma_inserted_each(items, states, k - 1);
        assert(states[k - 1].inserted(items[k - 1], states[k - 1 + 1]));
        assert(items.take(k).drop_last() =~= items.take(k - 1));
    }
}

/// Where the digest is that of the numbers in the set, it is so too after one is put in, as long as
/// that one is there less than 2^32 times.
pub proof fn law_insert_digest<G: SemiGroup>(
    before: ParallelExpSet<G>,
    after: ParallelExpSet<G>,
    n: Natural,
    power: spec_fn(G::Elem, nat) -> G::Elem,
    base: G::Elem,
)
    requires
        before.wf(),
        group::has_powers(before.group, power),
        group::powers_compose(power),
        before.inserted(n, after),
        elements::count(before.elements@, n@ as int) + 1 < 0x1_0000_0000,
        before.digest_matches(power, base),
    ensures
        after.digest_matches(power, base),
{
    elements::law_exponent_add(before.elements.list(), after.elements.list(), n@ as int);
    elements::law_exponent_natural(before.elements.list());
    let e = elements::exponent(before.elements.list()) as nat;
    assert(e * n@ == elements::exponent(after.elements.list()));
    if after.digest is Some {
        assert(power(power(base, e), n@) == power(base, e * n@));
    }
}

impl<G: SemiGroup> ParallelExpSet<G> {
    /// What holds of every set.
    pub open spec fn wf(self) -> bool {
        self.elements.wf() && self.bases.wf()
    }

    /// The digest, where it is known, is the given element raised to the exponent of the numbers.
    pub open spec fn digest_matches(
        self,
        power: spec_fn(G::Elem, nat) -> G::Elem,
        base: G::Elem,
    ) -> bool {
        self.digest matches Some(d) ==> d == power(
            base,
            elements::exponent(self.elements.list()) as nat,
        )
    }

    /// Whether a set differs from this one in that its digest is not known.
    pub open spec fn cleared(self, after: Self) -> bool {
        &&& after.digest is None
        &&& after.group == self.group
        &&& after.elements == self.elements
        &&& after.bases == self.bases
    }

    /// Whether a set is this one after a number was put in.
    pub open spec fn inserted(self, n: Natural, after: Self) -> bool {
        &&& after.wf()
        &&& after.elements@ == elements::add_one(self.elements@, n@ as int)
        &&& match self.digest {
            Some(d) => after.digest matches Some(r) && group::is_power(self.group, d, n, r),
            None => after.digest is None,
        }
        &&& after.group == self.group
        &&& after.bases == self.bases
    }

    /// Whether a set is this one after numbers were put in one by one.
    pub open spec fn inserted_all(self, items: Seq<Natural>, after: Self) -> bool {
        &&& after.wf()
        &&& after.elements@ == added(self.elements@, items)
        &&& match self.digest {
            Some(d) => after.digest matches Some(r) && applied(self.group, d, items, r),
            None => after.digest is None,
        }
        &&& after.group == self.group
        &&& after.bases == self.bases
    }

    /// Whether a set is this one after a number was taken out once, if it is there, and whether
    /// it was.
    pub open spec fn removed(self, n: Natural, r: bool, after: Self) -> bool {
        &&& after.wf()
        &&& r == self.elements@.contains_key(n@ as int)
        &&& r ==> after.elements@ == elements::take_one(self.elements@, n@ as int)
        &&& r ==> after.digest is None
        &&& !r ==> after.elements == self.elements
        &&& !r ==> after.digest == self.digest
        &&& after.group == self.group
        &&& after.bases == self.bases
    }

    /// Whether a set may come of this one by one operation.
    pub open spec fn step(self, after: Self) -> bool {
        ||| after == self
        ||| self.cleared(after)
        ||| exists|n: Natural| #[trigger] self.inserted(n, after)
        ||| exists|items: Seq<Natural>| #[trigger] self.inserted_all(items, after)
        ||| exists|n: Natural, r: bool| #[trigger] self.removed(n, r, after)
    }

    /// Whether this is a new set of the given numbers, with tables that are made from the given
    /// bases.
    pub open spec fn made_of(self, group: G, bases: PrecompBases, items: Seq<Natural>) -> bool {
        &&& self.wf()
        &&& self.group == group
        &&& self.elements@ == added(Map::<int, nat>::empty(), items)
        &&& self.digest is None
        &&& (*self.bases).has_tables_of(bases, N_PER_TABLE)
    }

    /// Whether two sets are the same: the same group and digest, and the same numbers throughout.
    pub open spec fn same(self, other: Self) -> bool {
        &&& self.group == other.group
        &&& self.elements.list() == other.elements.list()
        &&& self.digest == other.digest
        &&& (*self.bases).same(*other.bases)
    }

    /// Forgets the digest.
    pub fn clear_digest(&mut self)
        ensures
            old(self).cleared(*final(self)),
    {
        self.digest = None;
    }

    /// The empty set, with tables that are made from the given bases. Its digest is not known.
    pub fn new(group: G, bases: PrecompBases) -> (r: Self)
        requires
            bases.wf(),
            bases.tables_possible(N_PER_TABLE),
        ensures
            r.made_of(group, bases, Seq::empty()),
            r.elements@ == Map::<int, nat>::empty(),
    {
        let mut pc = bases;
        pc.make_tables(N_PER_TABLE);
        ParallelExpSet { digest: None, elements: Elements::new(), group, bases: Rc::new(pc) }
    }

    /// The set of the given numbers, with tables that are made from the given bases. Its digest is
    /// not known.
    pub fn new_with(group: G, bases: PrecompBases, items: Vec<Natural>) -> (r: Self)
        requires
            bases.wf(),
            bases.tables_possible(N_PER_TABLE),
        ensures
            r.made_of(group, bases, items@),
    {
        let mut this = Self::new(group, bases);
        proof {
            assert(items@.len() == items.len());
            assert forall|x: int|
                elements::count(this.elements@, x) + #[trigger] occurrences(items@, x)
                    <= usize::MAX by {
                lemma_occurrences_take(items@, 0, x);
            }
        }
        this.insert_all(items);
        this
    }

    /// Puts in a number. A known digest is raised to its power.
    pub fn insert(&mut self, n: Natural)
        requires
            old(self).wf(),
            elements::count(old(self).elements@, n@ as int) < usize::MAX,
        ensures
            old(self).inserted(n, *final(self)),
    {
        if let Some(d) = &self.digest {
            let raised = self.group.power(d, &n);
            self.digest = Some(raised);
        }
        self.elements.increment(from_biguint(&n));
    }

    /// Puts in numbers one by one.
    pub fn insert_all(&mut self, items: Vec<Natural>)
        requires
            old(self).wf(),
            forall|x: int|
                elements::count(old(self).elements@, x) + #[trigger] occurrences(items@, x)
                    <= usize::MAX,
        ensures
            old(self).inserted_all(items@, *final(self)),
    {
        let ghost given = items@;
        assert(given.take(0) =~= Seq::empty());
        for n in it: items
            invariant
                given == it.seq(),
                self.wf(),
                forall|x: int|
                    elements::count(old(self).elements@, x) + #[trigger] occurrences(given, x)
                        <= usize::MAX,
                self.elements@ == added(old(self).elements@, given.take(it.index() as int)),
                match old(self).digest {
                    Some(d) => self.digest matches Some(r) && applied(
                        old(self).group,
                        d,
                        given.take(it.index() as int),
                        r,
                    ),
                    None => self.digest is None,
                },
                self.group == old(self).group,
                self.bases == old(self).bases,
        {
            let ghost i = it.index() as int;
            let ghost before = given.take(i);
            let ghost after = given.take(i + 1);
            let ghost x = n@ as int;
            proof {
                assert(after.drop_last() =~= before);
                assert(after.last() == n);
                law_added_count(old(self).elements@, before, x);
                lemma_occurrences_take(given, i + 1, x);
                assert(occurrences(after, x) == occurrences(before, x) + 1);
            }
            self.insert(n);
        }
        assert(given.take(given.len() as int) =~= given);
    }

    /// Takes out a number once, if it is there, and says whether it was. The digest is then no
    /// longer known.
    pub fn remove(&mut self, n: &Natural) -> (r: bool)
        requires
            old(self).wf(),
        ensures
            old(self).removed(*n, r, *final(self)),
    {
        let int_n = from_biguint(n);
        if self.elements.decrement(&int_n) {
            self.digest = None;
            true
        } else {
            false
        }
    }

    /// The exponent that rebuilds the digest: the product of the numbers, each as often as it is in
    /// the set, of which the lower 32 bits count.
    pub fn exponent(&self) -> (r: Integer)
        requires
            self.wf(),
            self.elements.list().len() > 0,
            elements::exponent_size(self.elements.list()) <= digits::max_bits(),
        ensures
            r@ == elements::exponent(self.elements.list()),
    {
        let ghost s = self.elements.list();
        let ghost factors = s.map_values(|e: (int, nat)| elements::factor(e));
        let mut tmp: Vec<Integer> = Vec::new();
        let factor_of = |entry: &(Integer, usize)| -> (power: Integer)
            requires
                digits::size(digits::magnitude(entry.0@)) * (entry.1 as nat % 0x1_0000_0000)
                    <= digits::max_bits(),
            ensures
                power@ == elements::factor((entry.0@, entry.1 as nat)),
            {
                let ct = entry.1;
                let wide: u64 = ct as u64;
                assert(ct as u32 == wide as u32);
                assert(wide as u32 == wide % 0x1_0000_0000) by (bit_vector);
                entry.0.pow(ct as u32)
            };
        proof {
            elements::lemma_exponent_size(s);
            assert forall|i: int| 0 <= i < self.elements.entries@.len() implies call_requires(
                factor_of,
                (&#[trigger] self.elements.entries@[i],),
            ) by {
                assert(s[i] == (self.elements.entries@[i].0@, self.elements.entries@[i].1 as nat));
            }
        }
        par_extend_map(&mut tmp, self.elements.entries.as_slice(), factor_of);
        proof {
            assert forall|i: int| 0 <= i < s.len() implies #[trigger] product::values(tmp@)[i]
                == factors[i] by {
                assert(s[i] == (self.elements.entries@[i].0@, self.elements.entries@[i].1 as nat));
            }
            assert(product::values(tmp@) =~= factors);
        }
        parallel_product(&mut tmp);
        tmp.pop().unwrap()
    }

    /// Whether the digest is known.
    pub fn has_digest(&self) -> (r: bool)
        ensures
            r == (self.digest is Some),
    {
        self.digest.is_some()
    }

    /// The digest, which has to be known.
    pub fn digest(&mut self) -> (r: G::Elem)
        requires
            old(self).digest is Some,
        ensures
            cloned(old(self).digest->0, r),
            *final(self) == *old(self),
    {
        self.digest.clone().unwrap()
    }

    /// The group of the digest.
    pub fn group(&self) -> (r: &G)
        ensures
            *r == self.group,
    {
        &self.group
    }
}

} // verus!
