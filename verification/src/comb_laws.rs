//! What the operations on bases and their tables do, in terms of the numbers that go in and come
//! out.

use crate::digits;
use crate::integer::Integer;
use crate::lines;
use crate::log2;
use crate::numeral;
use crate::precomp;
use crate::precomp::{BasesError, PrecompBases};
use crate::product;
use crate::product::parallel_product;
use crate::tables;
use crate::tables::make_table;
use vstd::arithmetic::div_mod::*;
use vstd::arithmetic::power2::*;
use vstd::prelude::*;
use vstd::std_specs::iter::IteratorSpec;

verus! {

/// A table starts with one and the first base.
pub proof fn law_table_start(bases: &[Integer], modulus: Integer, r: Vec<Integer>)
    requires
        bases@.len() > 0,
        call_ensures(make_table, (bases, &modulus), r),
    ensures
        r@.len() == pow2(bases@.len()),
        r@.len() >= 2,
        r@[0]@ == 1,
        r@[1]@ == bases@[0]@,
{
    let all = product::values(bases@);
    tables::law_table_len(all, modulus@);
    tables::law_table_first(all, modulus@);
    assert(product::values(r@).len() == r@.len());
    assert(product::values(r@)[0] == r@[0]@ && product::values(r@)[1] == r@[1]@);
}

/// The entry that adds a base to a subset of the bases before it is that of the subset, multiplied
/// by the base, and reduced so that it keeps its sign.
pub proof fn law_table_step(
    bases: &[Integer],
    modulus: Integer,
    r: Vec<Integer>,
    j: nat,
    i: nat,
)
    requires
        1 <= j < bases@.len(),
        i < pow2(j),
        call_ensures(make_table, (bases, &modulus), r),
    ensures
        i + pow2(j) < r@.len(),
        ({
            let p = r@[i as int]@ * bases@[j as int]@;
            r@[(i + pow2(j)) as int]@ == if p < 0 {
                -((-p) % modulus@)
            } else {
                p % modulus@
            }
        }),
{
    let all = product::values(bases@);
    tables::law_table_len(all, modulus@);
    tables::law_table_step(all, modulus@, j, i);
    assert(product::values(r@).len() == r@.len());
    assert(product::values(r@)[i as int] == r@[i as int]@);
    assert(product::values(r@)[(i + pow2(j)) as int] == r@[(i + pow2(j)) as int]@);
}

/// Making tables cuts the bases into pieces of `n`, or takes them all where there are fewer. Each
/// piece has one table, with an entry for each of its subsets, and nothing else is changed.
pub proof fn law_tables_shape(b: &mut PrecompBases, n: usize, t: int)
    requires
        old(b).wf(),
        log2::power_of_two(n as nat),
        call_ensures(PrecompBases::make_tables, (b, n), ()),
    ensures
        ({
            let k = if n <= old(b).bs@.len() {
                n as nat
            } else {
                old(b).bs@.len()
            };
            &&& final(b).ts@.len() * k == old(b).bs@.len()
            &&& 0 <= t < final(b).ts@.len() ==> final(b).ts@[t]@.len() == pow2(k)
        }),
        final(b).bs == old(b).bs,
        final(b).m == old(b).m,
        final(b).lms == old(b).lms,
        final(b).bpe == old(b).bpe,
{
    let all = product::values(old(b).bs@);
    tables::law_tables_full(all, old(b).m@, n as nat);
    assert(final(b).table_values().len() == final(b).ts@.len());
    if 0 <= t < final(b).ts@.len() {
        let goal = tables::tables(all, old(b).m@, n as nat);
        assert(final(b).table_values()[t] == goal[t]);
        assert(final(b).table_values()[t].len() == final(b).ts@[t]@.len());
    }
}

/// Every table starts with one and the first base of its piece.
pub proof fn law_tables_start(b: &mut PrecompBases, n: usize, t: int)
    requires
        old(b).wf(),
        log2::power_of_two(n as nat),
        call_ensures(PrecompBases::make_tables, (b, n), ()),
        0 <= t < final(b).ts@.len(),
    ensures
        0 <= t * n < old(b).bs@.len(),
        final(b).ts@[t]@.len() >= 2,
        final(b).ts@[t]@[0]@ == 1,
        final(b).ts@[t]@[1]@ == old(b).bs@[t * n]@,
{
    let piece = lemma_piece(*old(b), n, *final(b), t);
    tables::law_table_len(piece, old(b).m@);
    tables::law_table_first(piece, old(b).m@);
    assert(piece[0] == old(b).bs@[t * n + 0]@);
}

/// In every table, the entry that adds a base to a subset of those before it in its piece is that
/// of the subset, multiplied by the base, and reduced so that it keeps its sign.
pub proof fn law_tables_step(b: &mut PrecompBases, n: usize, t: int, j: nat, i: nat)
    requires
        old(b).wf(),
        log2::power_of_two(n as nat),
        call_ensures(PrecompBases::make_tables, (b, n), ()),
        0 <= t < final(b).ts@.len(),
        1 <= j < n,
        t * n + j < old(b).bs@.len(),
        i < pow2(j),
    ensures
        i + pow2(j) < final(b).ts@[t]@.len(),
        ({
            let p = final(b).ts@[t]@[i as int]@ * old(b).bs@[t * n + j]@;
            final(b).ts@[t]@[(i + pow2(j)) as int]@ == if p < 0 {
                -((-p) % old(b).m@)
            } else {
                p % old(b).m@
            }
        }),
{
    let piece = lemma_piece(*old(b), n, *final(b), t);
    tables::law_table_len(piece, old(b).m@);
    tables::law_table_step(piece, old(b).m@, j, i);
    assert(piece[j as int] == old(b).bs@[t * n + j]@);
}

/// Every entry of every table is congruent to the product of the bases of its piece that the bits
/// of its index select, and is that product reduced where the modulus is greater than one and the
/// bases are reduced.
pub proof fn law_tables_products(b: &mut PrecompBases, n: usize, t: int, i: nat)
    requires
        old(b).wf(),
        log2::power_of_two(n as nat),
        old(b).m@ != 0,
        call_ensures(PrecompBases::make_tables, (b, n), ()),
        0 <= t < final(b).ts@.len(),
        i < final(b).ts@[t]@.len(),
    ensures
        ({
            let bases = old(b).bs@;
            let m = old(b).m@;
            let end = if t * n + n < bases.len() {
                t * n + n
            } else {
                bases.len() as int
            };
            let entry = final(b).ts@[t]@[i as int]@;
            &&& (entry - selected(bases, t * n, end, i)) % m == 0
            &&& m > 1 && (forall|j: int| 0 <= j < bases.len() ==> 0 <= (#[trigger] bases[j])@ < m)
                ==> entry == selected(bases, t * n, end, i) % m
        }),
{
    let bases = old(b).bs@;
    let m = old(b).m@;
    let piece = lemma_piece(*old(b), n, *final(b), t);
    tables::law_table_len(piece, m);
    tables::law_table_congruent(piece, m, i);
    let end = t * n + piece.len();
    lemma_selected(bases, t * n, end, piece, i);
    if m > 1 && (forall|j: int| 0 <= j < bases.len() ==> 0 <= (#[trigger] bases[j])@ < m) {
        assert forall|j: int| 0 <= j < piece.len() implies 0 <= #[trigger] piece[j] < m by {
            assert(piece[j] == bases[t * n + j]@);
        }
        tables::law_table_entry(piece, m, i);
    }
}

/// The product of those numbers from `start` to `end` that the bits of a number select, the lowest
/// bit the one at `start`.
pub open spec fn selected(bases: Seq<Integer>, start: int, end: int, i: nat) -> int
    decreases end - start,
{
    if end <= start {
        1
    } else {
        selected(bases, start, end - 1, i) * if (i / pow2((end - 1 - start) as nat)) % 2 == 1 {
            bases[end - 1]@
        } else {
            1
        }
    }
}

proof fn lemma_selected(bases: Seq<Integer>, start: int, end: int, piece: Seq<int>, i: nat)
    requires
        0 <= start <= end <= bases.len(),
        piece.len() == end - start,
        forall|j: int| 0 <= j < piece.len() ==> #[trigger] piece[j] == bases[start + j]@,
    ensures
        selected(bases, start, end, i) == tables::subset_product(piece, i),
    decreases end - start,
{
    if end > start {
        let rest = piece.drop_last();
        assert forall|j: int| 0 <= j < rest.len() implies #[trigger] rest[j] == bases[start
            + j]@ by {
            assert(rest[j] == piece[j]);
        }
        lemma_selected(bases, start, end - 1, rest, i);
        assert(piece[piece.len() - 1] == bases[start + (piece.len() - 1)]@);
    }
}

/// The piece that a table is made of.
proof fn lemma_piece(before: PrecompBases, n: usize, after: PrecompBases, t: int) -> (piece: Seq<
    int,
>)
    requires
        before.wf(),
        log2::power_of_two(n as nat),
        after.has_tables_of(before, n),
        0 <= t < after.ts@.len(),
    ensures
        piece.len() > 0,
        0 <= t * n,
        t * n + piece.len() <= before.bs@.len(),
        t * n + piece.len() == if t * n + n < before.bs@.len() {
            t * n + n
        } else {
            before.bs@.len() as int
        },
        forall|j: int| 0 <= j < piece.len() ==> #[trigger] piece[j] == before.bs@[t * n + j]@,
        after.ts@[t]@.len() == tables::table(piece, before.m@).len(),
        forall|i: int|
            0 <= i < after.ts@[t]@.len() ==> (#[trigger] after.ts@[t]@[i])@ == tables::table(
                piece,
                before.m@,
            )[i],
{
    let all = product::values(before.bs@);
    let piece = tables::chunk(all, n as nat, t);
    let k = choose|k: nat| #[trigger] pow2(k) == n;
    lemma_pow2_pos(k);
    assert(after.table_values().len() == after.ts@.len());
    tables::lemma_chunk(all, n as nat, t);
    let goal = tables::tables(all, before.m@, n as nat);
    assert(after.table_values()[t] == goal[t]);
    assert(after.table_values()[t] == product::values(after.ts@[t]@));
    assert forall|i: int| 0 <= i < after.ts@[t]@.len() implies (#[trigger] after.ts@[t]@[i])@
        == tables::table(piece, before.m@)[i] by {
        assert(product::values(after.ts@[t]@)[i] == after.ts@[t]@[i]@);
    }
    assert forall|j: int| 0 <= j < piece.len() implies #[trigger] piece[j] == before.bs@[t * n
        + j]@ by {
        assert(piece[j] == all[t * n + j]);
    }
    piece
}

/// The number of bases per table is the logarithm of the length of each table, and what was asked
/// for where there are so many bases.
pub proof fn law_n_per_table(b: &mut PrecompBases, n: usize, r: usize, t: int)
    requires
        old(b).wf(),
        log2::power_of_two(n as nat),
        call_ensures(PrecompBases::make_tables, (b, n), ()),
        call_ensures(PrecompBases::n_per_table, (&*final(b),), r),
    ensures
        n <= old(b).bs@.len() ==> r == n,
        n > old(b).bs@.len() ==> r == old(b).bs@.len(),
        0 <= t < final(b).ts@.len() ==> final(b).ts@[t]@.len() == pow2(r as nat),
{
    law_tables_shape(b, n, t);
}

/// Tables can be made where the number of bases per table is a power of two, the entries can be
/// counted, the modulus is not zero, and no number takes more than half of what can be held.
pub proof fn law_tables_can_be_made(b: PrecompBases, n: usize, k: nat, r: bool)
    requires
        n == pow2(k),
        n < usize::BITS || b.bs@.len() < usize::BITS,
        b.m@ != 0,
        2 * digits::size(digits::magnitude(b.m@)) <= digits::max_bits(),
        forall|i: int|
            0 <= i < b.bs@.len() ==> 2 * digits::size(digits::magnitude((#[trigger] b.bs@[i])@))
                <= digits::max_bits(),
        call_ensures(PrecompBases::can_make_tables, (&b, n), r),
    ensures
        r,
{
    let all = product::values(b.bs@);
    precomp::lemma_countable(n);
    precomp::lemma_countable(b.bs.len());
    lemma_pow2_pos(k);
    assert forall|i: int| 0 <= i < b.bs@.len() implies #[trigger] tables::fits_in_chunk(
        all,
        b.m@,
        n as nat,
        i,
    ) by {
        lemma_mod_bound(i, n as int);
        lemma_mod_decreases(i as nat, n as nat);
        let first = i - i % (n as int);
        assert(all[i] == b.bs@[i]@ && all[first] == b.bs@[first]@);
    }
}

/// Tables can be made if and only if the number of bases per table is a power of two, the entries
/// can be counted, the modulus is not zero where a table combines several bases, and each base can
/// be multiplied by the first of its piece, and from the third on by what is reduced.
pub proof fn law_can_make_tables(b: PrecompBases, n: usize, r: bool)
    requires
        call_ensures(PrecompBases::can_make_tables, (&b, n), r),
    ensures
        r <==> {
            &&& exists|k: nat| #[trigger] pow2(k) == n
            &&& n < usize::BITS || b.bs@.len() < usize::BITS
            &&& n > 1 && b.bs@.len() > 1 ==> b.m@ != 0
            &&& forall|i: int|
                0 <= i < b.bs@.len() && i % (n as int) >= 1 ==> digits::size(
                    digits::magnitude((#[trigger] b.bs@[i])@),
                ) + digits::size(digits::magnitude(b.bs@[i - i % (n as int)]@))
                    <= digits::max_bits()
            &&& forall|i: int|
                0 <= i < b.bs@.len() && i % (n as int) >= 2 ==> digits::size(
                    digits::magnitude((#[trigger] b.bs@[i])@),
                ) + digits::size(digits::magnitude(b.m@)) <= digits::max_bits()
        },
{
    let all = product::values(b.bs@);
    precomp::lemma_countable(n);
    precomp::lemma_countable(b.bs.len());
    if exists|k: nat| #[trigger] pow2(k) == n {
        let k = choose|k: nat| #[trigger] pow2(k) == n;
        lemma_pow2_pos(k);
        assert forall|i: int| 0 <= i < b.bs@.len() implies tables::fits_in_chunk(
            all,
            b.m@,
            n as nat,
            i,
        ) == ((i % (n as int) >= 1 ==> digits::size(digits::magnitude((#[trigger] b.bs@[i])@))
            + digits::size(digits::magnitude(b.bs@[i - i % (n as int)]@)) <= digits::max_bits())
            && (i % (n as int) >= 2 ==> digits::size(digits::magnitude(b.bs@[i]@)) + digits::size(
            digits::magnitude(b.m@),
        ) <= digits::max_bits())) by {
            lemma_mod_bound(i, n as int);
            lemma_mod_decreases(i as nat, n as nat);
            let first = i - i % (n as int);
            assert(all[i] == b.bs@[i]@ && all[first] == b.bs@[first]@);
        }
        if r {
            assert forall|i: int| 0 <= i < b.bs@.len() implies tables::fits_in_chunk(
                all,
                b.m@,
                n as nat,
                i,
            ) && #[trigger] b.bs@[i] == b.bs@[i] by {}
        }
    }
}

/// Tables are made of valid bases wherever it is said that they can be.
pub proof fn law_make_tables_accepted(b: &mut PrecompBases, n: usize)
    requires
        old(b).wf(),
        call_ensures(PrecompBases::can_make_tables, (&*old(b), n), true),
    ensures
        call_requires(PrecompBases::make_tables, (b, n)),
{
}

/// Every file is read whose lines are not too long for numbers to be held.
pub proof fn law_from_file_accepted(contents: &[u8], log_max_size: usize, log_bits_per_elm: usize)
    requires
        4 * contents@.len() <= digits::max_bits(),
    ensures
        call_requires(PrecompBases::from_file, (contents, log_max_size, log_bits_per_elm)),
{
    assert forall|i: int| 0 <= i < lines::lines(contents@).len() implies 4 * (
    #[trigger] lines::lines(contents@)[i]).len() <= digits::max_bits() by {
        lines::law_line_len(contents@, i);
    }
}

/// Tables cannot be made where the number of bases per table is not a power of two, or the entries
/// cannot be counted, or a table combines several bases and the modulus is zero.
pub proof fn law_tables_cannot_be_made(b: PrecompBases, n: usize, r: bool)
    requires
        call_ensures(PrecompBases::can_make_tables, (&b, n), r),
    ensures
        (forall|k: nat| n != #[trigger] pow2(k)) ==> !r,
        n >= usize::BITS && b.bs@.len() >= usize::BITS ==> !r,
        n > 1 && b.bs@.len() > 1 && b.m@ == 0 ==> !r,
{
    precomp::lemma_countable(n);
    precomp::lemma_countable(b.bs.len());
}

/// The texts, each ended by a line feed.
pub open spec fn joined(texts: Seq<Seq<u8>>) -> Seq<u8> {
    texts.map_values(|t: Seq<u8>| t.push(0x0a)).flatten()
}

/// Reading a file whose lines are given: the first is the modulus, and the others are the bases in
/// their order, however many there are. It fails at the first line that is no number, or where the
/// number of bases is not a power of two, and at nothing else.
pub proof fn law_from_file(
    texts: Seq<Seq<u8>>,
    contents: &[u8],
    log_max_size: usize,
    log_bits_per_elm: usize,
    r: Result<PrecompBases, BasesError>,
)
    requires
        contents@ == joined(texts),
        forall|i: int| 0 <= i < texts.len() ==> !(#[trigger] texts[i]).contains(0x0a),
        call_ensures(PrecompBases::from_file, (contents, log_max_size, log_bits_per_elm), r),
    ensures
        r is Ok <==> {
            &&& texts.len() > 0
            &&& forall|i: int|
                0 <= i < texts.len() ==> numeral::parsed(#[trigger] texts[i], 16) is Some
            &&& exists|k: nat| texts.len() - 1 == #[trigger] pow2(k)
        },
        match r {
            Ok(b) => {
                &&& numeral::parsed(texts[0], 16) == Some(b.m@)
                &&& b.bs@.len() == texts.len() - 1
                &&& forall|i: int|
                    0 <= i < b.bs@.len() ==> numeral::parsed(texts[i + 1], 16) == Some(
                        (#[trigger] b.bs@[i])@,
                    )
                &&& b.lms == log_max_size
                &&& b.bpe == log_bits_per_elm
                &&& b.ts@.len() == 0
                &&& b.npt == 0
            },
            Err(BasesError::Modulus) => texts.len() == 0 || numeral::parsed(texts[0], 16) is None,
            Err(BasesError::Base { line }) => {
                &&& 1 <= line < texts.len()
                &&& numeral::parsed(texts[line as int], 16) is None
                &&& forall|i: int|
                    0 <= i < line ==> numeral::parsed(#[trigger] texts[i], 16) is Some
            },
            Err(BasesError::Count) => {
                &&& texts.len() > 0
                &&& forall|i: int|
                    0 <= i < texts.len() ==> numeral::parsed(#[trigger] texts[i], 16) is Some
                &&& forall|k: nat| texts.len() - 1 != #[trigger] pow2(k)
            },
        },
{
    let c = contents@;
    lines::law_joined(texts);
    assert(lines::lines(c) == texts);
    assert forall|i: int| 0 <= i < texts.len() implies numeral::parsed(#[trigger] texts[i], 16)
        == precomp::line_value(c, i) by {}
    match r {
        Ok(b) => {
            assert forall|i: int| 0 <= i < texts.len() implies numeral::parsed(
                #[trigger] texts[i],
                16,
            ) is Some by {
                assert(precomp::line_value(c, i) is Some);
            }
            assert forall|i: int| 0 <= i < b.bs@.len() implies numeral::parsed(texts[i + 1], 16)
                == Some((#[trigger] b.bs@[i])@) by {
                assert(precomp::line_value(c, i + 1) == Some(b.bs@[i]@));
            }
            assert(precomp::line_value(c, 0) == Some(b.m@));
        },
        Err(BasesError::Modulus) => {
            assert(texts.len() > 0 ==> numeral::parsed(texts[0], 16) is None);
        },
        Err(BasesError::Base { line }) => {
            assert(precomp::line_value(c, line as int) is None);
            assert(numeral::parsed(texts[line as int], 16) is None);
            assert forall|i: int| 0 <= i < line implies numeral::parsed(
                #[trigger] texts[i],
                16,
            ) is Some by {
                assert(precomp::line_value(c, i) is Some);
            }
        },
        Err(BasesError::Count) => {
            assert forall|i: int| 0 <= i < texts.len() implies numeral::parsed(
                #[trigger] texts[i],
                16,
            ) is Some by {
                assert(precomp::line_value(c, i) is Some);
            }
        },
    }
}

/// How an integer is written in a file of bases.
pub open spec fn written(v: int) -> Seq<u8> {
    if v < 0 {
        seq![0x2du8] + numeral::numeral((-v) as nat, 16)
    } else {
        numeral::numeral(v as nat, 16)
    }
}

/// Reading back a modulus and bases that were written, each ended by a line feed, gives them in
/// their order, where their number is a power of two.
pub proof fn law_written_file(
    modulus: int,
    bases: Seq<int>,
    k: nat,
    contents: &[u8],
    log_max_size: usize,
    log_bits_per_elm: usize,
    r: Result<PrecompBases, BasesError>,
)
    requires
        bases.len() == pow2(k),
        contents@ == joined(seq![written(modulus)] + bases.map_values(|v: int| written(v))),
        call_ensures(PrecompBases::from_file, (contents, log_max_size, log_bits_per_elm), r),
    ensures
        r is Ok,
        r->Ok_0.m@ == modulus,
        r->Ok_0.bs@.map_values(|x: Integer| x@) == bases,
        r->Ok_0.lms == log_max_size,
        r->Ok_0.bpe == log_bits_per_elm,
{
    let texts = seq![written(modulus)] + bases.map_values(|v: int| written(v));
    let numbers = seq![modulus] + bases;
    assert forall|i: int| 0 <= i < texts.len() implies !(#[trigger] texts[i]).contains(0x0a)
        && numeral::parsed(texts[i], 16) == Some(numbers[i]) by {
        assert(texts[i] == written(numbers[i]));
        lemma_written(numbers[i]);
    }
    law_from_file(texts, contents, log_max_size, log_bits_per_elm, r);
    assert(texts.len() - 1 == pow2(k));
    let b = r->Ok_0;
    assert forall|i: int| 0 <= i < b.bs@.len() implies (#[trigger] b.bs@[i])@ == bases[i] by {
        assert(numeral::parsed(texts[i + 1], 16) == Some(b.bs@[i]@));
        assert(numbers[i + 1] == bases[i]);
    }
    assert(numbers[0] == modulus);
    assert(b.bs@.map_values(|x: Integer| x@) =~= bases);
}

proof fn lemma_written(v: int)
    ensures
        !written(v).contains(0x0a),
        numeral::parsed(written(v), 16) == Some(v),
{
    let n = digits::magnitude(v);
    numeral::law_parsed_numeral(n, 16);
    numeral::law_parsed_negative(n, 16);
    numeral::law_numeral_digits(n, 16);
    let s = numeral::numeral(n, 16);
    let w = written(v);
    assert forall|i: int| 0 <= i < w.len() implies w[i] != 0x0a by {
        if v < 0 {
            if i > 0 {
                assert(w[i] == s[i - 1]);
            }
        } else {
            assert(w[i] == s[i]);
        }
    }
}

/// To end the last line of a file changes nothing in what is read.
pub proof fn law_file_end(
    shorter: &[u8],
    longer: &[u8],
    log_max_size: usize,
    log_bits_per_elm: usize,
    r: Result<PrecompBases, BasesError>,
    s: Result<PrecompBases, BasesError>,
)
    requires
        shorter@.len() > 0 ==> shorter@.last() != 0x0a,
        longer@ == shorter@.push(0x0a),
        call_ensures(PrecompBases::from_file, (shorter, log_max_size, log_bits_per_elm), r),
        call_ensures(PrecompBases::from_file, (longer, log_max_size, log_bits_per_elm), s),
    ensures
        match (r, s) {
            (Ok(a), Ok(b)) => {
                &&& a.m@ == b.m@
                &&& a.bs@.len() == b.bs@.len()
                &&& forall|i: int|
                    0 <= i < a.bs@.len() ==> (#[trigger] a.bs@[i])@ == b.bs@[i]@
                &&& a.lms == b.lms
                &&& a.bpe == b.bpe
                &&& a.ts@.len() == b.ts@.len()
                &&& a.npt == b.npt
            },
            (Err(e), Err(f)) => e == f,
            _ => false,
        },
{
    precomp::law_final_line_feed(shorter@, log_max_size, log_bits_per_elm, r, s);
    if let (Ok(a), Ok(b)) = (r, s) {
        let (x, y) = (product::values(a.bs@), product::values(b.bs@));
        assert(x.len() == a.bs@.len() && y.len() == b.bs@.len());
        assert forall|i: int| 0 <= i < a.bs@.len() implies (#[trigger] a.bs@[i])@
            == b.bs@[i]@ by {
            assert(x[i] == y[i]);
        }
        assert(a.table_values().len() == b.table_values().len());
    }
}

/// Multiplying a list leaves the product of its numbers alone.
pub proof fn law_parallel_product(v: &mut Vec<Integer>)
    requires
        call_ensures(parallel_product, (v,), ()),
    ensures
        final(v)@.len() == 1,
        final(v)@[0]@ == old(v)@.map_values(|x: Integer| x@).fold_left(
            1,
            |a: int, b: int| a * b,
        ),
{
    product::law_product_fold(product::values(old(v)@));
    assert(product::values(old(v)@) =~= old(v)@.map_values(|x: Integer| x@));
}

/// What is given out of bases and tables.
pub proof fn law_accessors(
    b: PrecompBases,
    len: usize,
    log_max_size: usize,
    log_bits_per_elm: usize,
    bases: &[Integer],
    modulus: &Integer,
    n_per_table: usize,
    idx: usize,
    table: &Vec<Integer>,
)
    requires
        call_ensures(PrecompBases::n_per_table, (&b,), n_per_table),
        call_ensures(PrecompBases::len, (&b,), len),
        call_ensures(PrecompBases::log_max_size, (&b,), log_max_size),
        call_ensures(PrecompBases::log_bits_per_elm, (&b,), log_bits_per_elm),
        call_ensures(PrecompBases::bases, (&b,), bases),
        call_ensures(PrecompBases::modulus, (&b,), modulus),
        idx < b.ts@.len(),
        call_ensures(<PrecompBases as std::ops::Index<usize>>::index, (&b, idx), table),
    ensures
        len == b.ts@.len(),
        log_max_size == b.lms,
        log_bits_per_elm == b.bpe,
        bases@ == b.bs@,
        *modulus == b.m,
        b.npt <= b.bs@.len() ==> n_per_table == b.npt,
        b.npt > b.bs@.len() ==> n_per_table == b.bs@.len(),
        *table == b.ts@[idx as int],
{
}

/// Going through the tables gives all of them, in their order.
pub proof fn law_iter(b: PrecompBases, r: std::slice::Iter<'_, Vec<Integer>>, t: int)
    requires
        call_ensures(PrecompBases::iter, (&b,), r),
        0 <= t < b.ts@.len(),
    ensures
        IteratorSpec::remaining(&r).len() == b.ts@.len(),
        *IteratorSpec::remaining(&r)[t] == b.ts@[t],
{
}

/// The logarithm of the number of bases, and the spacing: so many bits that all bases span those of
/// an accumulator of the greatest size.
pub proof fn law_logarithms(b: PrecompBases, log: usize, spacing: usize)
    requires
        b.wf(),
        log2::log(b.bs@.len()) <= b.lms,
        call_ensures(PrecompBases::log_num_bases, (&b,), log),
        call_ensures(PrecompBases::log_spacing, (&b,), spacing),
    ensures
        pow2(log as nat) == b.bs@.len(),
        b.bs@.len() * pow2(spacing as nat) == pow2((b.lms + b.bpe) as nat),
        spacing == b.lms - log + b.bpe,
{
    precomp::law_spacing(b);
}

/// The check passes if and only if the number of bases is a power of two.
pub proof fn law_check(b: PrecompBases, r: bool)
    requires
        call_ensures(PrecompBases::check, (&b,), r),
    ensures
        r == b.wf(),
        r == exists|k: nat| #[trigger] pow2(k) == b.bs@.len(),
{
}

} // verus!
