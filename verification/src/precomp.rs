//! Precomputed powers of a base, and tables of their products.

use crate::digits;
use crate::integer::Integer;
use crate::lines;
use crate::lines::line_end;
use crate::log2;
use crate::log2::is_power_of_two;
use crate::numeral;
use crate::par;
use crate::par::par_extend_chunks;
use crate::product;
use crate::tables;
use crate::tables::make_table;
use vstd::arithmetic::div_mod::*;
use vstd::arithmetic::mul::*;
use vstd::arithmetic::power2::*;
use vstd::prelude::*;
use vstd::std_specs::iter::IteratorSpec;

verus! {

/// A comb of precomputed powers of a base, plus tables of their combinations.
#[derive(Clone, Debug, PartialEq, Eq)]
pub struct PrecompBases {
    /// The powers.
    pub bs: Vec<Integer>,
    /// The modulus.
    pub m: Integer,
    /// The logarithm of the greatest size of an accumulator.
    pub lms: usize,
    /// The logarithm of the number of bits of an element.
    pub bpe: usize,
    /// The tables.
    pub ts: Vec<Vec<Integer>>,
    /// The number of bases that a table was asked to combine.
    pub npt: usize,
}

/// Why the contents of a file of bases are refused.
#[derive(Clone, Copy, Debug, PartialEq, Eq)]
pub enum BasesError {
    /// The first line is missing, or stands for no number.
    Modulus,
    /// A later line stands for no number.
    Base {
        /// The index of the first such line.
        line: usize,
    },
    /// The number of bases is not a power of two.
    Count,
}

/// The number that a line of a file of bases stands for.
pub open spec fn line_value(contents: Seq<u8>, line: int) -> Option<int> {
    numeral::parsed(lines::lines(contents)[line], 16)
}

/// Whether a number of the lines of a file of bases all stand for numbers.
pub open spec fn numeric_lines(contents: Seq<u8>, count: int) -> bool {
    forall|i: int| 0 <= i < count ==> (#[trigger] line_value(contents, i)) is Some
}

impl PrecompBases {
    /// What holds of all bases: their number is a power of two.
    pub open spec fn wf(self) -> bool {
        log2::power_of_two(self.bs@.len())
    }

    /// The tables, as numbers.
    pub open spec fn table_values(self) -> Seq<Seq<int>> {
        self.ts@.map_values(|t: Vec<Integer>| product::values(t@))
    }

    /// Whether tables of `n` bases each can be made: `n` is a power of two, the entries of a table
    /// can be counted, and, where a table combines several bases, the modulus is not zero and
    /// every product can be held until it is reduced.
    pub open spec fn tables_possible(self, n: usize) -> bool {
        &&& log2::power_of_two(n as nat)
        &&& pow2(n as nat) <= usize::MAX || pow2(self.bs@.len()) <= usize::MAX
        &&& n > 1 && self.bs@.len() > 1 ==> self.m@ != 0
        &&& forall|i: int|
            0 <= i < self.bs@.len() ==> #[trigger] tables::fits_in_chunk(
                product::values(self.bs@),
                self.m@,
                n as nat,
                i,
            )
    }

    /// Whether these are the given bases with tables of `n` bases each, and with no others.
    pub open spec fn has_tables_of(self, before: Self, n: usize) -> bool {
        &&& self.bs == before.bs
        &&& self.m == before.m
        &&& self.lms == before.lms
        &&& self.bpe == before.bpe
        &&& self.npt == n
        &&& self.table_values() == tables::tables(
            product::values(before.bs@),
            before.m@,
            n as nat,
        )
    }

    /// Whether the numbers are the same throughout.
    pub open spec fn same(self, other: Self) -> bool {
        &&& product::values(self.bs@) == product::values(other.bs@)
        &&& self.m@ == other.m@
        &&& self.lms == other.lms
        &&& self.bpe == other.bpe
        &&& self.table_values() == other.table_values()
        &&& self.npt == other.npt
    }

    /// The product of the last entries of all tables.
    pub open spec fn combined(self) -> int {
        product::product(self.table_values().map_values(|t: Seq<int>| t.last()))
    }

    /// The number of bases that each table combines: as many as were asked for, if there are so
    /// many.
    pub open spec fn bases_per_table(self) -> nat {
        tables::per_table(self.bs@.len(), self.npt as nat)
    }

    /// Whether a file of bases is read to the given result: the bases where each line stands for a
    /// number and there are as many as a power of two, or else the first fault.
    pub open spec fn read_from(
        contents: Seq<u8>,
        log_max_size: usize,
        log_bits_per_elm: usize,
        r: Result<Self, BasesError>,
    ) -> bool {
        let count = lines::lines(contents).len();
        match r {
            Ok(b) => {
                &&& count > 0
                &&& numeric_lines(contents, count as int)
                &&& line_value(contents, 0) == Some(b.m@)
                &&& b.bs@.len() == count - 1
                &&& forall|i: int|
                    0 <= i < b.bs@.len() ==> line_value(contents, i + 1) == Some(
                        (#[trigger] b.bs@[i])@,
                    )
                &&& b.lms == log_max_size
                &&& b.bpe == log_bits_per_elm
                &&& b.ts@.len() == 0
                &&& b.npt == 0
                &&& b.wf()
            },
            Err(BasesError::Modulus) => count == 0 || line_value(contents, 0) is None,
            Err(BasesError::Base { line }) => {
                &&& 1 <= line < count
                &&& numeric_lines(contents, line as int)
                &&& line_value(contents, line as int) is None
            },
            Err(BasesError::Count) => {
                &&& count > 0
                &&& numeric_lines(contents, count as int)
                &&& !log2::power_of_two((count - 1) as nat)
            },
        }
    }

    /// Whether two results of reading are the same: the same numbers throughout, or the same fault.
    pub open spec fn same_result(
        a: Result<Self, BasesError>,
        b: Result<Self, BasesError>,
    ) -> bool {
        match (a, b) {
            (Ok(x), Ok(y)) => x.same(y),
            (Err(e), Err(f)) => e == f,
            _ => false,
        }
    }

    // ** initialization and precomputation ** //

    /// Reads the contents of a file with bases: the modulus on the first line, and a base on each
    /// line that follows, all in hexadecimal digits.
    pub fn from_file(contents: &[u8], log_max_size: usize, log_bits_per_elm: usize) -> (r: Result<
        Self,
        BasesError,
    >)
        requires
            forall|i: int|
                0 <= i < lines::lines(contents@).len() ==> 4 * (#[trigger] lines::lines(
                    contents@,
                )[i]).len() <= digits::max_bits(),
        ensures
            Self::read_from(contents@, log_max_size, log_bits_per_elm, r),
    {
        let mut numbers: Vec<Integer> = Vec::new();
        let mut start: usize = 0;
        let ghost all = lines::lines(contents@);
        assert(contents@.skip(0) =~= contents@);
        assert(all.skip(0) =~= all);
        while start < contents.len()
            invariant
                start <= contents@.len(),
                all == lines::lines(contents@),
                numbers@.len() <= all.len(),
                lines::lines(contents@.skip(start as int)) == all.skip(numbers@.len() as int),
                forall|i: int|
                    0 <= i < all.len() ==> 4 * (#[trigger] all[i]).len() <= digits::max_bits(),
                forall|i: int|
                    0 <= i < numbers@.len() ==> line_value(contents@, i) == Some(
                        (#[trigger] numbers@[i])@,
                    ),
            decreases contents@.len() - start,
        {
            let end: usize = line_end(contents, start);
            let ghost rest = contents@.skip(start as int);
            let ghost k = numbers@.len() as int;
            proof {
                assert(rest.len() > 0);
                assert(lines::lines(rest)[0] == rest.take(lines::line_len(rest) as int));
                assert(lines::lines(rest).len() > 0);
                assert(all.skip(k).len() > 0);
                assert(all.skip(k)[0] == all[k]);
                assert(contents@.subrange(start as int, end as int) =~= all[k]);
                assert(lines::lines(rest).skip(1) =~= lines::lines(lines::next_lines(rest)));
                assert(all.skip(k).skip(1) =~= all.skip(k + 1));
                lemma_size_16();
                numeral::lemma_parsed_size(all[k], 16);
            }
            let line = vstd::slice::slice_subrange(contents, start, end);
            match Integer::from_str_radix(line, 16) {
                Some(x) => {
                    numbers.push(x);
                },
                None => {
                    assert(line_value(contents@, k) is None);
                    assert forall|i: int| 0 <= i < k implies (#[trigger] line_value(
                        contents@,
                        i,
                    )) is Some by {
                        assert(line_value(contents@, i) == Some(numbers@[i]@));
                    }
                    return if numbers.len() == 0 {
                        Err(BasesError::Modulus)
                    } else {
                        Err(BasesError::Base { line: numbers.len() })
                    };
                },
            }
            if end < contents.len() {
                start = end + 1;
                assert(contents@.skip(start as int) =~= lines::next_lines(rest));
            } else {
                start = end;
                assert(contents@.skip(start as int) =~= lines::next_lines(rest));
            }
        }
        proof {
            assert(contents@.skip(start as int).len() == 0);
            assert(all.skip(numbers@.len() as int).len() == 0);
            assert forall|i: int| 0 <= i < all.len() implies (#[trigger] line_value(
                contents@,
                i,
            )) is Some by {
                assert(line_value(contents@, i) == Some(numbers@[i]@));
            }
        }
        if numbers.len() == 0 {
            return Err(BasesError::Modulus);
        }
        let ghost read = numbers@;
        let modulus = numbers.remove(0);
        assert(line_value(contents@, 0) == Some(read[0]@));
        assert forall|i: int| 0 <= i < numbers@.len() implies line_value(contents@, i + 1) == Some(
            (#[trigger] numbers@[i])@,
        ) by {
            assert(numbers@[i] == read[i + 1]);
        }
        let ret = PrecompBases {
            bs: numbers,
            m: modulus,
            lms: log_max_size,
            bpe: log_bits_per_elm,
            ts: Vec::new(),
            npt: 0,
        };
        if ret.check() {
            Ok(ret)
        } else {
            Err(BasesError::Count)
        }
    }

    /// Whether tables of `n_per_table` bases each can be made.
    pub fn can_make_tables(&self, n_per_table: usize) -> (r: bool)
        ensures
            r == self.tables_possible(n_per_table),
    {
        let bits: usize = usize::BITS as usize;
        proof {
            lemma_countable(n_per_table);
            lemma_countable(self.bs.len());
        }
        if !is_power_of_two(n_per_table) || (n_per_table >= bits && self.bs.len() >= bits) {
            return false;
        }
        if n_per_table > 1 && self.bs.len() > 1 && self.m.is_zero() {
            return false;
        }
        let limit: u64 = 32 * digits::digit_limit() as u64;
        let modulus_size: u64 = self.m.magnitude().size();
        let ghost all = product::values(self.bs@);
        let mut first_size: u64 = 0;
        let mut offset: usize = 0;
        let mut i: usize = 0;
        proof {
            let k = choose|k: nat| #[trigger] pow2(k) == n_per_table;
            lemma_pow2_pos(k);
            lemma_small_mod(0, n_per_table as nat);
        }
        while i < self.bs.len()
            invariant
                i <= self.bs@.len(),
                n_per_table > 0,
                all == product::values(self.bs@),
                limit == digits::max_bits(),
                modulus_size == digits::size(digits::magnitude(self.m@)),
                modulus_size <= limit,
                limit <= 0x20_0000_0000,
                offset == i % n_per_table,
                first_size <= limit,
                offset > 0 ==> first_size == digits::size(digits::magnitude(all[i - offset])),
                forall|j: int|
                    0 <= j < i ==> #[trigger] tables::fits_in_chunk(
                        all,
                        self.m@,
                        n_per_table as nat,
                        j,
                    ),
            decreases self.bs@.len() - i,
        {
            let size: u64 = self.bs[i].magnitude().size();
            assert(all[i as int] == self.bs@[i as int]@);
            if offset == 0 {
                first_size = size;
            } else if size + first_size > limit || (offset > 1 && size + modulus_size > limit) {
                assert(!tables::fits_in_chunk(all, self.m@, n_per_table as nat, i as int));
                return false;
            }
            assert(tables::fits_in_chunk(all, self.m@, n_per_table as nat, i as int));
            proof {
                lemma_next_offset(i as int, n_per_table as int);
            }
            i = i + 1;
            offset = offset + 1;
            if offset == n_per_table {
                offset = 0;
            }
        }
        true
    }

    /// Makes the tables anew from the bases, in parallel: one for each `n_per_table` of them, with
    /// the products of all their subsets.
    pub fn make_tables(&mut self, n_per_table: usize)
        requires
            old(self).wf(),
            old(self).tables_possible(n_per_table),
        ensures
            final(self).wf(),
            final(self).has_tables_of(*old(self), n_per_table),
            forall|t: int|
                0 <= t < final(self).ts@.len() ==> (#[trigger] final(self).ts@[t])@.len() == pow2(
                    final(self).bases_per_table(),
                ),
    {
        self.ts.clear();
        self.npt = n_per_table;
        let ghost n = n_per_table as nat;
        let ghost bases = self.bs@;
        let ghost count = tables::chunk_count(bases.len(), n);
        let modulus = &self.m;
        proof {
            let k = choose|k: nat| #[trigger] pow2(k) == n;
            lemma_pow2_pos(k);
        }
        let table_of = |piece: &[Integer]| -> (table: Vec<Integer>)
            requires
                piece@.len() > 0,
                pow2(piece@.len()) <= usize::MAX,
                piece@.len() > 1 ==> modulus@ != 0,
                forall|i: int|
                    0 <= i < piece@.len() ==> #[trigger] tables::fits(
                        product::values(piece@),
                        modulus@,
                        0,
                        i,
                    ),
            ensures
                product::values(table@) == tables::table(product::values(piece@), modulus@),
            { make_table(piece, modulus) };
        proof {
            assert forall|t: int| 0 <= t < count implies par::accepted_by(
                table_of,
                #[trigger] tables::chunk(bases, n, t),
            ) by {
                let items = tables::chunk(bases, n, t);
                tables::lemma_chunk(bases, n, t);
                if pow2(n) <= usize::MAX {
                    digits::lemma_pow2_monotone(items.len(), n);
                } else {
                    digits::lemma_pow2_monotone(items.len(), bases.len());
                }
                assert forall|i: int| 0 <= i < items.len() implies #[trigger] tables::fits(
                    product::values(items),
                    modulus@,
                    0,
                    i,
                ) by {
                    lemma_fundamental_div_mod_converse(t * n + i, n as int, t, i);
                    assert(tables::fits_in_chunk(
                        product::values(bases),
                        modulus@,
                        n,
                        t * n + i,
                    ));
                    assert(items[0] == bases[t * n + 0]);
                    assert(items[i] == bases[t * n + i]);
                }
            }
        }
        par_extend_chunks(&mut self.ts, self.bs.as_slice(), n_per_table, table_of);
        proof {
            let goal = tables::tables(product::values(bases), modulus@, n);
            assert forall|t: int| 0 <= t < count implies self.table_values()[t] == goal[t] by {
                let piece = tables::chunk(bases, n, t);
                tables::lemma_chunk(bases, n, t);
                tables::lemma_chunk(product::values(bases), n, t);
                assert(product::values(piece) =~= tables::chunk(product::values(bases), n, t));
            }
            assert(self.table_values() =~= goal);
            tables::law_tables_full(product::values(bases), modulus@, n);
            assert forall|t: int| 0 <= t < self.ts@.len() implies (#[trigger] self.ts@[t])@.len()
                == pow2(self.bases_per_table()) by {
                assert(self.table_values()[t].len() == self.ts@[t]@.len());
                assert(goal[t].len() == pow2(tables::per_table(bases.len(), n)));
            }
        }
    }

    // ** accessors and misc ** //

    /// The number of tables.
    #[allow(clippy::len_without_is_empty)]
    pub fn len(&self) -> (r: usize)
        ensures
            r == self.ts@.len(),
    {
        self.ts.len()
    }

    /// The number of bases that each table combines, which is the logarithm of its length.
    pub fn n_per_table(&self) -> (r: usize)
        ensures
            r == self.bases_per_table(),
    {
        if self.npt <= self.bs.len() {
            self.npt
        } else {
            self.bs.len()
        }
    }

    /// The logarithm of the greatest size of the accumulator that the tables are made for.
    pub fn log_max_size(&self) -> (r: usize)
        ensures
            r == self.lms,
    {
        self.lms
    }

    /// The logarithm of the number of bases.
    pub fn log_num_bases(&self) -> (r: usize)
        requires
            self.wf(),
        ensures
            r == log2::log(self.bs@.len()),
            pow2(r as nat) == self.bs@.len(),
    {
        log2::log2(self.bs.len())
    }

    /// The logarithm of the number of bits of an element of the accumulator.
    pub fn log_bits_per_elm(&self) -> (r: usize)
        ensures
            r == self.bpe,
    {
        self.bpe
    }

    /// The spacing between successive exponents.
    pub fn log_spacing(&self) -> (r: usize)
        requires
            self.wf(),
            log2::log(self.bs@.len()) <= self.lms,
            self.lms - log2::log(self.bs@.len()) + self.bpe <= usize::MAX,
        ensures
            r == self.lms - log2::log(self.bs@.len()) + self.bpe,
    {
        self.log_max_size() - self.log_num_bases() + self.log_bits_per_elm()
    }

    /// An iterator over the tables.
    pub fn iter(&self) -> (r: std::slice::Iter<'_, Vec<Integer>>)
        ensures
            IteratorSpec::remaining(&r) == self.ts@.as_ref(),
            IteratorSpec::decrease(&r) is Some,
            IteratorSpec::initial_value_relation(&r, &r),
    {
        self.ts.iter()
    }

    /// The bases.
    pub fn bases(&self) -> (r: &[Integer])
        ensures
            r@ == self.bs@,
    {
        self.bs.as_slice()
    }

    /// The modulus.
    pub fn modulus(&self) -> (r: &Integer)
        ensures
            *r == self.m,
    {
        &self.m
    }

    // ** internal ** //

    /// Checks what holds of all bases. To be called on any that were not made here.
    pub fn check(&self) -> (r: bool)
        ensures
            r == self.wf(),
    {
        is_power_of_two(self.bs.len())
    }
}

/// `pcb[idx]` is the table with that index.
impl std::ops::Index<usize> for PrecompBases {
    type Output = Vec<Integer>;

    fn index(&self, idx: usize) -> (r: &Vec<Integer>)
        ensures
            *r == self.ts@[idx as int],
    {
        &self.ts[idx]
    }
}

impl vstd::std_specs::core::IndexSpecImpl<usize> for PrecompBases {
    open spec fn index_req(&self, idx: &usize) -> bool {
        *idx < self.ts@.len()
    }
}

/// A file of bases is read to one result.
pub proof fn law_read_once(
    contents: Seq<u8>,
    log_max_size: usize,
    log_bits_per_elm: usize,
    a: Result<PrecompBases, BasesError>,
    b: Result<PrecompBases, BasesError>,
)
    requires
        PrecompBases::read_from(contents, log_max_size, log_bits_per_elm, a),
        PrecompBases::read_from(contents, log_max_size, log_bits_per_elm, b),
    ensures
        PrecompBases::same_result(a, b),
{
    lemma_same_lines(contents, contents, log_max_size, log_bits_per_elm, a, b);
}

/// To end the last line of a file of bases adds no base, and changes nothing else.
pub proof fn law_final_line_feed(
    contents: Seq<u8>,
    log_max_size: usize,
    log_bits_per_elm: usize,
    a: Result<PrecompBases, BasesError>,
    b: Result<PrecompBases, BasesError>,
)
    requires
        contents.len() > 0 ==> contents.last() != 0x0a,
        PrecompBases::read_from(contents, log_max_size, log_bits_per_elm, a),
        PrecompBases::read_from(contents.push(0x0a), log_max_size, log_bits_per_elm, b),
    ensures
        PrecompBases::same_result(a, b),
{
    let longer = contents.push(0x0a);
    if contents.len() > 0 {
        lines::law_final_line_feed(contents);
        lemma_same_lines(contents, longer, log_max_size, log_bits_per_elm, a, b);
    } else {
        // an empty line stands for no number, as does a missing one
        assert(lines::line_len(longer) == 0);
        assert(lines::lines(longer)[0] =~= Seq::<u8>::empty());
        assert(line_value(longer, 0) is None);
        assert(a == Err::<PrecompBases, BasesError>(BasesError::Modulus));
        assert(b == Err::<PrecompBases, BasesError>(BasesError::Modulus));
    }
}

/// What a file of bases is read to depends on its lines alone.
proof fn lemma_same_lines(
    x: Seq<u8>,
    y: Seq<u8>,
    log_max_size: usize,
    log_bits_per_elm: usize,
    a: Result<PrecompBases, BasesError>,
    b: Result<PrecompBases, BasesError>,
)
    requires
        lines::lines(x) == lines::lines(y),
        PrecompBases::read_from(x, log_max_size, log_bits_per_elm, a),
        PrecompBases::read_from(y, log_max_size, log_bits_per_elm, b),
    ensures
        PrecompBases::same_result(a, b),
{
    assert forall|i: int| #[trigger] line_value(x, i) == line_value(y, i) by {}
    match (a, b) {
        (Ok(p), Ok(q)) => {
            assert(line_value(x, 0) == line_value(y, 0));
            assert forall|i: int| 0 <= i < p.bs@.len() implies p.bs@[i]@ == q.bs@[i]@ by {
                assert(line_value(x, i + 1) == line_value(y, i + 1));
            }
            assert(product::values(p.bs@) =~= product::values(q.bs@));
            assert(p.table_values() =~= q.table_values());
        },
        (Err(BasesError::Base { line: i }), Err(BasesError::Base { line: j })) => {
            assert(line_value(x, i as int) == line_value(y, i as int));
            assert(line_value(x, j as int) == line_value(y, j as int));
        },
        (Err(BasesError::Base { line }), _) => {
            assert(line_value(x, line as int) == line_value(y, line as int));
        },
        (_, Err(BasesError::Base { line })) => {
            assert(line_value(x, line as int) == line_value(y, line as int));
        },
        _ => {
            assert(line_value(x, 0) == line_value(y, 0));
        },
    }
}

/// The grouping of the bases does not change what the tables combine to: the products of the last
/// entries of all tables, and the product of all bases, are congruent.
pub proof fn law_grouping(
    start: PrecompBases,
    a: usize,
    p: PrecompBases,
    b: usize,
    q: PrecompBases,
)
    requires
        start.m@ != 0,
        a > 0,
        b > 0,
        p.has_tables_of(start, a),
        q.has_tables_of(start, b),
    ensures
        (p.combined() - product::product(product::values(start.bs@))) % start.m@ == 0,
        (q.combined() - product::product(product::values(start.bs@))) % start.m@ == 0,
        (p.combined() - q.combined()) % start.m@ == 0,
{
    let bases = product::values(start.bs@);
    tables::law_tables_combine(bases, start.m@, a as nat);
    tables::law_tables_combine(bases, start.m@, b as nat);
    tables::law_tables_grouping(bases, start.m@, a as nat, b as nat);
}

/// Making tables anew replaces those that were there: what tables were made before does not matter,
/// not even for what tables can be made, and to make the same tables twice is to make them once.
pub proof fn law_tables_replaced(
    start: PrecompBases,
    a: usize,
    first: PrecompBases,
    b: usize,
    again: PrecompBases,
    direct: PrecompBases,
)
    requires
        first.has_tables_of(start, a),
        again.has_tables_of(first, b),
        direct.has_tables_of(start, b),
    ensures
        first.wf() == start.wf(),
        first.tables_possible(b) == start.tables_possible(b),
        again.same(direct),
        a == b ==> again.same(first),
{
}

/// The number of bases per table is the logarithm of the length of each table.
pub proof fn law_n_per_table(before: PrecompBases, n: usize, after: PrecompBases, t: int)
    requires
        before.wf(),
        log2::power_of_two(n as nat),
        after.has_tables_of(before, n),
        0 <= t < after.ts@.len(),
    ensures
        after.ts@[t]@.len() == pow2(after.bases_per_table()),
        log2::log(after.ts@[t]@.len()) == after.bases_per_table(),
{
    let bases = product::values(before.bs@);
    tables::law_tables_full(bases, before.m@, n as nat);
    assert(after.table_values()[t].len() == after.ts@[t]@.len());
    assert(tables::tables(bases, before.m@, n as nat)[t].len() == pow2(
        tables::per_table(bases.len(), n as nat),
    ));
    log2::law_log(after.bases_per_table());
}

/// The exponents of successive bases are so far apart that the bases together span the bits of an
/// accumulator of the greatest size.
pub proof fn law_spacing(b: PrecompBases)
    requires
        b.wf(),
        log2::log(b.bs@.len()) <= b.lms,
    ensures
        b.bs@.len() * pow2((b.lms - log2::log(b.bs@.len()) + b.bpe) as nat) == pow2(
            (b.lms + b.bpe) as nat,
        ),
{
    let k = log2::log(b.bs@.len());
    assert(pow2(k) == b.bs@.len());
    lemma_pow2_adds(k, (b.lms - k + b.bpe) as nat);
}

/// The offset in a piece of the item behind another.
proof fn lemma_next_offset(i: int, n: int)
    requires
        0 <= i,
        n > 0,
    ensures
        (i + 1) % n == if i % n + 1 == n {
            0
        } else {
            i % n + 1
        },
{
    let q = i / n;
    lemma_fundamental_div_mod(i, n);
    lemma_mod_bound(i, n);
    lemma_mul_is_commutative(n, q);
    if i % n + 1 == n {
        lemma_mul_is_distributive_add_other_way(n, q, 1);
        lemma_fundamental_div_mod_converse(i + 1, n, q + 1, 0);
    } else {
        lemma_fundamental_div_mod_converse(i + 1, n, q, i % n + 1);
    }
}

/// The subsets of fewer things than a machine word has bits can be counted.
pub(crate) proof fn lemma_countable(n: usize)
    ensures
        pow2(n as nat) <= usize::MAX <==> n < usize::BITS,
{
    lemma2_to64();
    lemma2_to64_rest();
    lemma_pow2_unfold(64);
    if n < usize::BITS {
        digits::lemma_pow2_monotone(n as nat, (usize::BITS - 1) as nat);
    } else {
        digits::lemma_pow2_monotone(usize::BITS as nat, n as nat);
    }
}

proof fn lemma_size_16()
    ensures
        digits::size(16) == 4,
{
    reveal_with_fuel(digits::size, 5);
}

} // verus!
