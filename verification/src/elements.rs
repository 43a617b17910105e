//! Natural numbers and how often each of them was put in, kept in the order of the numbers.

use crate::digits;
use crate::integer::Integer;
use crate::product;
use vstd::arithmetic::power::*;
use vstd::prelude::*;

verus! {

/// How often a number is in a multiset.
pub open spec fn count(m: Map<int, nat>, x: int) -> nat {
    if m.contains_key(x) {
        m[x]
    } else {
        0
    }
}

/// The multiset with one more of a number.
pub open spec fn add_one(m: Map<int, nat>, x: int) -> Map<int, nat> {
    m.insert(x, count(m, x) + 1)
}

/// The multiset with one less of a number that is in it.
pub open spec fn take_one(m: Map<int, nat>, x: int) -> Map<int, nat> {
    if m[x] == 1 {
        m.remove(x)
    } else {
        m.insert(x, (m[x] - 1) as nat)
    }
}

/// Whether the numbers ascend.
pub open spec fn ascending(s: Seq<(int, nat)>) -> bool {
    forall|i: int, j: int| 0 <= i < j < s.len() ==> (#[trigger] s[i]).0 < (#[trigger] s[j]).0
}

/// Whether a list is one that a multiset is kept in: natural numbers in ascending order, each with
/// how often it is in the multiset.
pub open spec fn valid(s: Seq<(int, nat)>) -> bool {
    &&& ascending(s)
    &&& forall|i: int| 0 <= i < s.len() ==> (#[trigger] s[i]).0 >= 0 && s[i].1 >= 1
}

/// Whether a number is in a list.
pub open spec fn listed(s: Seq<(int, nat)>, x: int) -> bool {
    exists|i: int| 0 <= i < s.len() && (#[trigger] s[i]).0 == x
}

/// Where a number is in a list.
pub open spec fn place(s: Seq<(int, nat)>, x: int) -> int {
    choose|i: int| 0 <= i < s.len() && (#[trigger] s[i]).0 == x
}

/// The multiset that a list keeps.
pub open spec fn contents(s: Seq<(int, nat)>) -> Map<int, nat> {
    Map::new(|x: int| listed(s, x), |x: int| s[place(s, x)].1)
}

/// What a number contributes to the exponent: its power by how often it was put in, of which the
/// lower 32 bits count.
pub open spec fn factor(e: (int, nat)) -> int {
    pow(e.0, e.1 % 0x1_0000_0000)
}

/// The product of what the numbers contribute.
pub open spec fn exponent(s: Seq<(int, nat)>) -> int {
    product::product(s.map_values(|e: (int, nat)| factor(e)))
}

/// What the numbers that are multiplied for the exponent take in all.
pub open spec fn exponent_size(s: Seq<(int, nat)>) -> nat
    decreases s.len(),
{
    if s.len() == 0 {
        0
    } else {
        exponent_size(s.drop_last()) + digits::size(digits::magnitude(s.last().0)) * (s.last().1
            % 0x1_0000_0000)
    }
}

/// The multiset keeps the number at each place of the list, and how often it is in there.
proof fn lemma_contents_at(s: Seq<(int, nat)>, i: int)
    requires
        ascending(s),
        0 <= i < s.len(),
    ensures
        contents(s).contains_key(s[i].0),
        contents(s)[s[i].0] == s[i].1,
{
    let p = place(s, s[i].0);
    assert(listed(s, s[i].0));
    assert(0 <= p < s.len() && s[p].0 == s[i].0);
    if p < i {
        assert(s[p].0 < s[i].0);
    }
    if i < p {
        assert(s[i].0 < s[p].0);
    }
}

/// Without its last number, a list keeps the multiset without that number.
proof fn lemma_contents_drop_last(s: Seq<(int, nat)>)
    requires
        ascending(s),
        s.len() > 0,
    ensures
        ascending(s.drop_last()),
        contents(s.drop_last()) == contents(s).remove(s.last().0),
{
    let t = s.drop_last();
    let k = s.last().0;
    assert(forall|i: int| 0 <= i < t.len() ==> #[trigger] t[i] == s[i]);
    assert forall|x: int| contents(t).contains_key(x) == contents(s).remove(k).contains_key(x) by {
        if listed(t, x) {
            let i = place(t, x);
            assert(s[i].0 == x);
            assert(s[i].0 < s[s.len() - 1].0);
            assert(listed(s, x));
        }
        if listed(s, x) && x != k {
            let i = place(s, x);
            assert(s[i].0 == x);
            assert(t[i].0 == x);
        }
    }
    assert forall|x: int| contents(t).contains_key(x) implies contents(t)[x] == contents(
        s,
    ).remove(k)[x] by {
        let i = place(t, x);
        assert(t[i].0 == x);
        lemma_contents_at(t, i);
        lemma_contents_at(s, i);
        assert(contents(s).remove(k).contains_key(x));
    }
    assert(contents(t) =~= contents(s).remove(k));
}

/// A multiset determines the list that it is kept in.
pub proof fn law_list_unique(a: Seq<(int, nat)>, b: Seq<(int, nat)>)
    requires
        valid(a),
        valid(b),
        contents(a) == contents(b),
    ensures
        a == b,
{
    lemma_ascending_unique(a, b);
}

proof fn lemma_ascending_unique(a: Seq<(int, nat)>, b: Seq<(int, nat)>)
    requires
        ascending(a),
        ascending(b),
        contents(a) == contents(b),
    ensures
        a == b,
    decreases a.len(),
{
    if a.len() == 0 {
        if b.len() > 0 {
            lemma_contents_at(b, 0);
            assert(listed(a, b[0].0));
        }
        assert(a =~= b);
    } else {
        lemma_contents_at(a, a.len() - 1);
        assert(contents(b).contains_key(a.last().0));
        assert(listed(b, a.last().0));
        let j = place(b, a.last().0);
        lemma_contents_at(b, b.len() - 1);
        assert(listed(a, b.last().0));
        let i = place(a, b.last().0);
        assert(a[i].0 == b.last().0 && b[j].0 == a.last().0);
        if i < a.len() - 1 {
            assert(a[i].0 < a[a.len() - 1].0);
        }
        if j < b.len() - 1 {
            assert(b[j].0 < b[b.len() - 1].0);
        }
        assert(a.last() == b.last());
        lemma_contents_drop_last(a);
        lemma_contents_drop_last(b);
        lemma_ascending_unique(a.drop_last(), b.drop_last());
        assert(a =~= a.drop_last().push(a.last()));
        assert(b =~= b.drop_last().push(b.last()));
    }
}

/// A number that is between two neighbours of a list is put between them.
proof fn lemma_contents_insert(s: Seq<(int, nat)>, i: int, x: int)
    requires
        valid(s),
        x >= 0,
        0 <= i <= s.len(),
        forall|j: int| 0 <= j < i ==> (#[trigger] s[j]).0 < x,
        forall|j: int| i <= j < s.len() ==> (#[trigger] s[j]).0 > x,
    ensures
        valid(s.insert(i, (x, 1))),
        contents(s.insert(i, (x, 1))) == add_one(contents(s), x),
{
    let t = s.insert(i, (x, 1));
    assert forall|j: int| 0 <= j < t.len() implies #[trigger] t[j] == if j < i {
        s[j]
    } else if j == i {
        (x, 1nat)
    } else {
        s[j - 1]
    } by {}
    assert(!listed(s, x));
    assert(ascending(t));
    let m = add_one(contents(s), x);
    assert forall|y: int| contents(t).contains_key(y) == m.contains_key(y) by {
        if listed(t, y) && y != x {
            let j = place(t, y);
            assert(t[j].0 == y);
            if j < i {
                assert(s[j].0 == y);
            } else {
                assert(s[j - 1].0 == y);
            }
        }
        if listed(s, y) {
            let j = place(s, y);
            assert(s[j].0 == y);
            if j < i {
                assert(t[j].0 == y);
            } else {
                assert(t[j + 1].0 == y);
            }
        }
        assert(t[i].0 == x);
    }
    assert forall|y: int| m.contains_key(y) implies contents(t)[y] == m[y] by {
        if y == x {
            lemma_contents_at(t, i);
        } else {
            let j = place(s, y);
            assert(listed(s, y));
            assert(s[j].0 == y);
            lemma_contents_at(s, j);
            if j < i {
                lemma_contents_at(t, j);
            } else {
                lemma_contents_at(t, j + 1);
            }
        }
    }
    assert(contents(t) =~= m);
}

/// A number that is in a list may be in the multiset more or less often.
proof fn lemma_contents_update(s: Seq<(int, nat)>, i: int, c: nat)
    requires
        valid(s),
        0 <= i < s.len(),
        c >= 1,
    ensures
        valid(s.update(i, (s[i].0, c))),
        contents(s.update(i, (s[i].0, c))) == contents(s).insert(s[i].0, c),
{
    let t = s.update(i, (s[i].0, c));
    let m = contents(s).insert(s[i].0, c);
    assert forall|j: int| 0 <= j < t.len() implies (#[trigger] t[j]).0 == s[j].0 by {}
    assert(ascending(t));
    assert forall|y: int| contents(t).contains_key(y) == m.contains_key(y) by {
        if listed(t, y) {
            let j = place(t, y);
            assert(t[j].0 == y);
            assert(s[j].0 == y);
        }
        if listed(s, y) {
            let j = place(s, y);
            assert(s[j].0 == y);
            assert(t[j].0 == y);
        }
        assert(t[i].0 == s[i].0);
    }
    assert forall|y: int| m.contains_key(y) implies contents(t)[y] == m[y] by {
        if y == s[i].0 {
            lemma_contents_at(t, i);
        } else {
            let j = place(s, y);
            assert(listed(s, y));
            assert(s[j].0 == y);
            lemma_contents_at(s, j);
            lemma_contents_at(t, j);
        }
    }
    assert(contents(t) =~= m);
}

/// A number that is taken out of a list is no longer in the multiset.
proof fn lemma_contents_remove(s: Seq<(int, nat)>, i: int)
    requires
        valid(s),
        0 <= i < s.len(),
    ensures
        valid(s.remove(i)),
        contents(s.remove(i)) == contents(s).remove(s[i].0),
{
    let t = s.remove(i);
    let m = contents(s).remove(s[i].0);
    assert forall|j: int| 0 <= j < t.len() implies #[trigger] t[j] == if j < i {
        s[j]
    } else {
        s[j + 1]
    } by {}
    assert(ascending(t));
    assert forall|y: int| contents(t).contains_key(y) == m.contains_key(y) by {
        if listed(t, y) {
            let j = place(t, y);
            assert(t[j].0 == y);
            if j < i {
                assert(s[j].0 == y);
                assert(s[j].0 < s[i].0);
            } else {
                assert(s[j + 1].0 == y);
                assert(s[i].0 < s[j + 1].0);
            }
        }
        if listed(s, y) && y != s[i].0 {
            let j = place(s, y);
            assert(s[j].0 == y);
            if j < i {
                assert(t[j].0 == y);
            } else {
                assert(t[j - 1].0 == y);
            }
        }
    }
    assert forall|y: int| m.contains_key(y) implies contents(t)[y] == m[y] by {
        let j = place(s, y);
        assert(listed(s, y));
        assert(s[j].0 == y);
        lemma_contents_at(s, j);
        if j < i {
            lemma_contents_at(t, j);
        } else {
            lemma_contents_at(t, j - 1);
        }
    }
    assert(contents(t) =~= m);
}

/// How many numbers of a list are less than a number.
spec fn rank(s: Seq<(int, nat)>, x: int) -> int
    decreases s.len(),
{
    if s.len() == 0 {
        0
    } else if s.last().0 < x {
        s.len() as int
    } else {
        rank(s.drop_last(), x)
    }
}

proof fn lemma_rank(s: Seq<(int, nat)>, x: int)
    requires
        ascending(s),
    ensures
        0 <= rank(s, x) <= s.len(),
        forall|j: int| 0 <= j < rank(s, x) ==> (#[trigger] s[j]).0 < x,
        forall|j: int| rank(s, x) <= j < s.len() ==> (#[trigger] s[j]).0 >= x,
    decreases s.len(),
{
    if s.len() > 0 {
        let t = s.drop_last();
        lemma_rank(t, x);
        let r = rank(s, x);
        assert forall|j: int| 0 <= j < r implies (#[trigger] s[j]).0 < x by {
            if s.last().0 < x {
                if j < s.len() - 1 {
                    assert(s[j].0 < s[s.len() - 1].0);
                }
            } else {
                assert(t[j] == s[j]);
            }
        }
        assert forall|j: int| r <= j < s.len() implies (#[trigger] s[j]).0 >= x by {
            if j < s.len() - 1 {
                assert(t[j] == s[j]);
            }
        }
    }
}

/// There is a list that keeps a multiset with one more of a number.
pub(crate) proof fn lemma_list_add(s: Seq<(int, nat)>, x: int) -> (t: Seq<(int, nat)>)
    requires
        valid(s),
        x >= 0,
    ensures
        valid(t),
        contents(t) == add_one(contents(s), x),
{
    lemma_rank(s, x);
    let i = rank(s, x);
    if i < s.len() && s[i].0 == x {
        lemma_contents_at(s, i);
        lemma_contents_update(s, i, s[i].1 + 1);
        s.update(i, (x, s[i].1 + 1))
    } else {
        assert forall|j: int| i <= j < s.len() implies (#[trigger] s[j]).0 > x by {
            if j > i {
                assert(s[i].0 < s[j].0);
            }
        }
        lemma_contents_insert(s, i, x);
        s.insert(i, (x, 1))
    }
}

spec fn factors(s: Seq<(int, nat)>) -> Seq<int> {
    s.map_values(|e: (int, nat)| factor(e))
}

/// Putting in a number multiplies the exponent by it, as long as it is there less than 2^32 times.
pub proof fn law_exponent_add(a: Seq<(int, nat)>, b: Seq<(int, nat)>, x: int)
    requires
        valid(a),
        valid(b),
        x >= 0,
        contents(b) == add_one(contents(a), x),
        count(contents(a), x) + 1 < 0x1_0000_0000,
    ensures
        exponent(b) == exponent(a) * x,
{
    lemma_rank(a, x);
    let i = rank(a, x);
    let f = factors(a);
    if i < a.len() && a[i].0 == x {
        let c = a[i].1;
        lemma_contents_at(a, i);
        lemma_contents_update(a, i, c + 1);
        law_list_unique(b, a.update(i, (x, c + 1)));
        let g = f.update(i, factor((x, c + 1)));
        assert(factors(b) =~= g);
        product::lemma_product_split(f, i);
        product::lemma_product_split(g, i);
        assert(g.take(i) =~= f.take(i));
        assert(g.skip(i + 1) =~= f.skip(i + 1));
        vstd::arithmetic::div_mod::lemma_small_mod(c, 0x1_0000_0000);
        vstd::arithmetic::div_mod::lemma_small_mod(c + 1, 0x1_0000_0000);
        reveal(pow);
        assert(g[i] == x * f[i]);
        let (l, m, r) = (product::product(f.take(i)), f[i], product::product(f.skip(i + 1)));
        assert(l * ((x * m) * r) == (l * (m * r)) * x) by (nonlinear_arith);
    } else {
        assert forall|j: int| i <= j < a.len() implies (#[trigger] a[j]).0 > x by {
            if j > i {
                assert(a[i].0 < a[j].0);
            }
        }
        lemma_contents_insert(a, i, x);
        law_list_unique(b, a.insert(i, (x, 1)));
        let g = f.insert(i, factor((x, 1)));
        assert(factors(b) =~= g);
        product::lemma_product_split(g, i);
        assert(g.take(i) =~= f.take(i));
        assert(g.skip(i + 1) =~= f.skip(i));
        assert(f =~= f.take(i) + f.skip(i));
        product::law_product_concat(f.take(i), f.skip(i));
        vstd::arithmetic::div_mod::lemma_small_mod(1, 0x1_0000_0000);
        lemma_pow1(x);
        let (l, r) = (product::product(f.take(i)), product::product(f.skip(i)));
        assert(l * (x * r) == (l * r) * x) by (nonlinear_arith);
    }
}

/// Taking out a number that is there less than 2^32 times divides the exponent by it.
pub proof fn law_exponent_take(a: Seq<(int, nat)>, b: Seq<(int, nat)>, x: int)
    requires
        valid(a),
        valid(b),
        contents(a).contains_key(x),
        contents(b) == take_one(contents(a), x),
        count(contents(a), x) < 0x1_0000_0000,
    ensures
        exponent(a) == exponent(b) * x,
{
    let i = place(a, x);
    assert(listed(a, x));
    assert(a[i].0 == x);
    lemma_contents_at(a, i);
    assert(add_one(contents(b), x) =~= contents(a));
    law_exponent_add(b, a, x);
}

/// Putting in a number and taking it out again gives the multiset back.
pub proof fn law_add_take(s: Seq<(int, nat)>, x: int)
    requires
        valid(s),
    ensures
        take_one(add_one(contents(s), x), x) == contents(s),
{
    let m = contents(s);
    if m.contains_key(x) {
        let i = place(s, x);
        assert(listed(s, x));
        assert(s[i].0 == x);
        lemma_contents_at(s, i);
    }
    assert(take_one(add_one(m, x), x) =~= m);
}

/// The order in which numbers are put in does not matter.
pub proof fn law_add_commutes(m: Map<int, nat>, x: int, y: int)
    ensures
        add_one(add_one(m, x), y) == add_one(add_one(m, y), x),
{
    assert(add_one(add_one(m, x), y) =~= add_one(add_one(m, y), x));
}

/// The exponent of a multiset is a natural number.
pub proof fn law_exponent_natural(s: Seq<(int, nat)>)
    requires
        valid(s),
    ensures
        exponent(s) >= 0,
    decreases s.len(),
{
    if s.len() > 0 {
        let t = s.drop_last();
        assert(forall|i: int| 0 <= i < t.len() ==> #[trigger] t[i] == s[i]);
        law_exponent_natural(t);
        assert(factors(s).drop_last() =~= factors(t));
        let e = s[s.len() - 1];
        digits::lemma_size_pow(e.0 as nat, e.1 % 0x1_0000_0000);
        assert(exponent(t) * factor(e) >= 0) by (nonlinear_arith)
            requires
                exponent(t) >= 0,
                factor(e) >= 0,
        ;
    }
}

/// What is multiplied for the exponent takes no more than it is said to.
pub(crate) proof fn lemma_exponent_size(s: Seq<(int, nat)>)
    requires
        valid(s),
    ensures
        product::total_size(s.map_values(|e: (int, nat)| factor(e))) <= exponent_size(s),
        forall|i: int|
            0 <= i < s.len() ==> digits::size(digits::magnitude((#[trigger] s[i]).0)) * (s[i].1
                % 0x1_0000_0000) <= exponent_size(s),
    decreases s.len(),
{
    if s.len() > 0 {
        let t = s.drop_last();
        assert(forall|i: int| 0 <= i < t.len() ==> #[trigger] t[i] == s[i]);
        lemma_exponent_size(t);
        assert(factors(s).drop_last() =~= factors(t));
        let e = s[s.len() - 1];
        digits::lemma_size_pow(e.0 as nat, e.1 % 0x1_0000_0000);
        let k = digits::size(digits::magnitude(e.0)) * (e.1 % 0x1_0000_0000);
        assert(exponent_size(s) == exponent_size(t) + k);
        assert forall|i: int| 0 <= i < s.len() implies digits::size(
            digits::magnitude((#[trigger] s[i]).0),
        ) * (s[i].1 % 0x1_0000_0000) <= exponent_size(s) by {
            if i < s.len() - 1 {
                assert(t[i] == s[i]);
            }
            assert(k >= 0) by (nonlinear_arith)
                requires
                    k == digits::size(digits::magnitude(e.0)) * (e.1 % 0x1_0000_0000),
            ;
        }
    }
}

/// A multiset of natural numbers.
#[derive(Clone, Debug, PartialEq, Eq)]
pub struct Elements {
    /// The numbers in ascending order, each with how often it is in the multiset.
    pub entries: Vec<(Integer, usize)>,
}

impl View for Elements {
    type V = Map<int, nat>;

    open spec fn view(&self) -> Map<int, nat> {
        contents(self.list())
    }
}

impl Elements {
    /// The entries as numbers.
    pub open spec fn list(self) -> Seq<(int, nat)> {
        self.entries@.map_values(|e: (Integer, usize)| (e.0@, e.1 as nat))
    }

    /// What holds of every multiset.
    pub open spec fn wf(self) -> bool {
        valid(self.list())
    }

    /// The empty multiset.
    pub fn new() -> (r: Self)
        ensures
            r.wf(),
            r.list() == Seq::<(int, nat)>::empty(),
            r@ == Map::<int, nat>::empty(),
    {
        let r = Elements { entries: Vec::new() };
        assert(r.list() =~= Seq::empty());
        assert(r@ =~= Map::empty());
        r
    }

    /// Where a number is, or else where it belongs.
    fn find(&self, x: &Integer) -> (r: Result<usize, usize>)
        requires
            self.wf(),
        ensures
            match r {
                Ok(i) => i < self.list().len() && self.list()[i as int].0 == x@,
                Err(i) => {
                    &&& i <= self.list().len()
                    &&& forall|j: int| 0 <= j < i ==> (#[trigger] self.list()[j]).0 < x@
                    &&& forall|j: int|
                        i <= j < self.list().len() ==> (#[trigger] self.list()[j]).0 > x@
                },
            },
    {
        let ghost s = self.list();
        let mut low: usize = 0;
        let mut high: usize = self.entries.len();
        while low < high
            invariant
                low <= high <= self.entries@.len(),
                s == self.list(),
                ascending(s),
                forall|j: int| 0 <= j < low ==> (#[trigger] s[j]).0 < x@,
                forall|j: int| high <= j < s.len() ==> (#[trigger] s[j]).0 > x@,
            decreases high - low,
        {
            let middle: usize = low + (high - low) / 2;
            assert(s[middle as int].0 == self.entries@[middle as int].0@);
            if self.entries[middle].0.less(x) {
                low = middle + 1;
            } else if x.less(&self.entries[middle].0) {
                high = middle;
            } else {
                return Ok(middle);
            }
        }
        Err(low)
    }

    /// Puts in a number once more.
    pub fn increment(&mut self, x: Integer)
        requires
            old(self).wf(),
            x@ >= 0,
            count(old(self)@, x@) < usize::MAX,
        ensures
            final(self).wf(),
            final(self)@ == add_one(old(self)@, x@),
    {
        let ghost s = self.list();
        match self.find(&x) {
            Ok(i) => {
                proof {
                    lemma_contents_at(s, i as int);
                    lemma_contents_update(s, i as int, s[i as int].1 + 1);
                }
                self.entries[i].1 += 1;
                assert(self.list() =~= s.update(i as int, (x@, s[i as int].1 + 1)));
            },
            Err(i) => {
                proof {
                    lemma_contents_insert(s, i as int, x@);
                }
                self.entries.insert(i, (x, 1));
                assert(self.list() =~= s.insert(i as int, (x@, 1)));
            },
        }
    }

    /// Takes out a number once, if it is there, and says whether it was.
    pub fn decrement(&mut self, x: &Integer) -> (r: bool)
        requires
            old(self).wf(),
        ensures
            final(self).wf(),
            r == old(self)@.contains_key(x@),
            final(self)@ == if r {
                take_one(old(self)@, x@)
            } else {
                old(self)@
            },
            !r ==> *final(self) == *old(self),
    {
        let ghost s = self.list();
        match self.find(x) {
            Ok(i) => {
                proof {
                    lemma_contents_at(s, i as int);
                }
                if self.entries[i].1 == 1 {
                    proof {
                        lemma_contents_remove(s, i as int);
                    }
                    let _ = self.entries.remove(i);
                    assert(self.list() =~= s.remove(i as int));
                } else {
                    proof {
                        lemma_contents_update(s, i as int, (s[i as int].1 - 1) as nat);
                    }
                    self.entries[i].1 -= 1;
                    assert(self.list() =~= s.update(i as int, (x@, (s[i as int].1 - 1) as nat)));
                }
                true
            },
            Err(_) => {
                assert(!listed(s, x@));
                false
            },
        }
    }
}

} // verus!
