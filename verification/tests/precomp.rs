use int_set_par::integer::Integer;
use int_set_par::natural::Natural;
use int_set_par::precomp::{BasesError, PrecompBases};
use int_set_par::tables::make_table;
use rug::integer::Order;
use rug::ops::Pow;
use rug::rand::RandState;
use std::ops::{MulAssign, RemAssign};

fn integer_of(x: &rug::Integer) -> Integer {
    Integer::from_magnitude(*x < 0, Natural::from_digits(x.to_digits(Order::Lsf)))
}

fn small(n: i64) -> Integer {
    integer_of(&rug::Integer::from(n))
}

/// The contents of a file with a 2048-bit modulus and repeated powers of a base.
fn contents(count: usize) -> String {
    let mut rnd = RandState::new();
    let mut modulus = rug::Integer::from(rug::Integer::random_bits(2048, &mut rnd));
    modulus.set_bit(2047, true);
    modulus.set_bit(0, true);
    let step = rug::Integer::from(2).pow(100);
    let mut base = rug::Integer::from(rug::Integer::random_bits(2000, &mut rnd));
    let mut text = modulus.to_string_radix(16);
    text.push('\n');
    for _ in 0..count {
        text.push_str(&base.to_string_radix(16));
        text.push('\n');
        base = base.pow_mod(&step, &modulus).unwrap();
    }
    text
}

fn rug_of(x: &Integer) -> rug::Integer {
    let r = rug::Integer::from_digits(x.magnitude().digits(), Order::Lsf);
    if x.is_negative() {
        -r
    } else {
        r
    }
}

fn bases(modulus: i64, bs: &[i64]) -> PrecompBases {
    PrecompBases {
        bs: bs.iter().map(|b| small(*b)).collect(),
        m: small(modulus),
        lms: 10,
        bpe: 11,
        ts: Vec::new(),
        npt: 0,
    }
}

fn values(table: &[Integer]) -> Vec<i64> {
    table.iter().map(|x| rug_of(x).to_i64().unwrap()).collect()
}

#[test]
fn precomp_table() {
    const NELMS: usize = 8;

    let mut pc = PrecompBases::from_file(contents(64).as_bytes(), 20, 11).unwrap();
    assert!(pc.can_make_tables(NELMS));
    pc.make_tables(NELMS);
    assert!(pc.len() > 0);

    let num_tables = pc.bases().len() / NELMS + if pc.bases().len() % NELMS == 1 { 1 } else { 0 };

    assert!(pc.len() == num_tables);
    assert!(pc[0].len() == (1 << NELMS));

    // check the first precomputed table for correctness
    let bases: Vec<rug::Integer> = pc.bases().iter().map(rug_of).collect();
    let modulus = rug_of(pc.modulus());
    for idx in 0..(1 << NELMS) {
        let mut accum = rug::Integer::from(1);
        for jdx in 0..NELMS {
            if idx & (1 << jdx) != 0 {
                accum.mul_assign(&bases[jdx]);
                accum.rem_assign(&modulus);
            }
        }
        assert_eq!(&integer_of(&accum), &pc[0][idx]);
    }
}

#[test]
fn every_table_combines_its_own_bases() {
    const NELMS: usize = 4;
    let mut pc = PrecompBases::from_file(contents(16).as_bytes(), 20, 11).unwrap();
    pc.make_tables(NELMS);
    assert_eq!(pc.len(), 4);
    assert_eq!(pc.iter().count(), 4);
    let modulus = rug_of(pc.modulus());
    for (t, table) in pc.iter().enumerate() {
        assert_eq!(table.len(), 1 << NELMS);
        let mut all = rug::Integer::from(1);
        for base in &pc.bases()[t * NELMS..(t + 1) * NELMS] {
            all = all * rug_of(base) % &modulus;
        }
        assert_eq!(table[(1 << NELMS) - 1], integer_of(&all));
    }
}

#[test]
fn tables_of_small_bases() {
    let mut pc = bases(35, &[2, 3, 5, 7]);
    pc.make_tables(2);
    assert_eq!(pc.n_per_table(), 2);
    assert_eq!(pc.len(), 2);
    assert_eq!(values(&pc[0]), vec![1, 2, 3, 6]);
    assert_eq!(values(&pc[1]), vec![1, 5, 7, 0]);
    // made anew
    pc.make_tables(4);
    assert_eq!(pc.len(), 1);
    assert_eq!(
        values(&pc[0]),
        vec![1, 2, 3, 6, 5, 10, 15, 30, 7, 14, 21, 7, 0, 0, 0, 0]
    );
    // one base per table: nothing is reduced
    pc.make_tables(1);
    assert_eq!(pc.len(), 4);
    assert_eq!(values(&pc[3]), vec![1, 7]);
    // more bases per table than there are
    pc.make_tables(8);
    assert_eq!(pc.len(), 1);
    assert_eq!(pc[0].len(), 16);
    assert_eq!(pc.n_per_table(), 4);
}

#[test]
fn bases_per_table_are_the_logarithm_of_the_length() {
    for count in [1usize, 2, 4, 8] {
        for k in 0..6 {
            let mut pc = bases(35, &vec![2; count]);
            pc.make_tables(1 << k);
            for table in pc.iter() {
                assert_eq!(table.len(), 1 << pc.n_per_table());
            }
            assert_eq!(pc.len() * pc.n_per_table(), count);
        }
    }
}

#[test]
fn tables_are_replaced() {
    let start = bases(35, &[2, 3, 5, 7]);
    for a in [1, 2, 4, 8] {
        let mut p = start.clone();
        p.make_tables(a);
        for b in [1, 2, 4, 8] {
            let mut again = p.clone();
            again.make_tables(b);
            let mut direct = start.clone();
            direct.make_tables(b);
            assert_eq!(again, direct);
            assert_eq!(again == p, a == b);
        }
    }
}

#[test]
fn tables_combine_to_the_same_whatever_the_grouping() {
    let bs = [23i64, 14, -9, 61, 3, 77, 8, 5];
    let product: i64 = bs.iter().product();
    for n in [1, 2, 4, 8, 16] {
        let mut pc = bases(1009, &bs);
        pc.make_tables(n);
        let combined: i64 = pc.iter().map(|t| *values(t).last().unwrap()).product();
        assert_eq!((combined - product) % 1009, 0);
    }
}

#[test]
fn the_first_base_is_not_reduced() {
    let mut pc = bases(10, &[23, 14]);
    pc.make_tables(2);
    assert_eq!(values(&pc[0]), vec![1, 23, 4, 2]);
    let mut pc = bases(-10, &[-23, 14]);
    pc.make_tables(2);
    assert_eq!(values(&pc[0]), vec![1, -23, 4, -2]);
}

#[test]
fn entries_are_congruent_to_subset_products() {
    let bs = [23i64, 14, -9, 61];
    let mut pc = bases(10, &bs);
    pc.make_tables(4);
    for (n, entry) in values(&pc[0]).iter().enumerate() {
        let product: i64 = (0..4).filter(|j| n & (1 << j) != 0).map(|j| bs[j]).product();
        assert_eq!((entry - product) % 10, 0);
    }
}

#[test]
fn what_tables_can_be_made() {
    assert!(bases(35, &[2, 3]).can_make_tables(1));
    assert!(bases(35, &[2, 3]).can_make_tables(2));
    assert!(bases(35, &[2, 3]).can_make_tables(1 << 20));
    assert!(!bases(35, &[2, 3]).can_make_tables(0));
    assert!(!bases(35, &[2, 3]).can_make_tables(3));
    assert!(!bases(0, &[2, 3]).can_make_tables(2));
    assert!(bases(0, &[2, 3]).can_make_tables(1));
    assert!(bases(0, &[2]).can_make_tables(2));
    let many = bases(35, &[2; 64]);
    assert!(many.can_make_tables(32));
    assert!(!many.can_make_tables(64));
}

#[test]
fn a_file_holds_the_modulus_and_the_bases() {
    let pc = PrecompBases::from_file(b"1f\n-A\r\n 0b \nc\nd", 9, 4).unwrap();
    assert_eq!(pc.modulus(), &small(31));
    assert_eq!(values(pc.bases()), vec![-10, 11, 12, 13]);
    assert_eq!(pc.log_max_size(), 9);
    assert_eq!(pc.log_bits_per_elm(), 4);
    assert_eq!(pc.len(), 0);
    assert_eq!(pc.n_per_table(), 0);
    assert!(pc.check());
    // the end of the last line does not matter
    assert_eq!(pc, PrecompBases::from_file(b"1f\n-A\r\n 0b \nc\nd\n", 9, 4).unwrap());
}

#[test]
fn files_that_are_refused() {
    let read = |text: &str| PrecompBases::from_file(text.as_bytes(), 9, 4).err();
    assert_eq!(read(""), Some(BasesError::Modulus));
    assert_eq!(read("\n1\n"), Some(BasesError::Modulus));
    assert_eq!(read("xyz\n1\n"), Some(BasesError::Modulus));
    assert_eq!(read("f\n1\nxyz\n\n"), Some(BasesError::Base { line: 2 }));
    assert_eq!(read("f\n1\n2\n\n"), Some(BasesError::Base { line: 3 }));
    assert_eq!(read("f"), Some(BasesError::Count));
    assert_eq!(read("f\n"), Some(BasesError::Count));
    assert_eq!(read("f\n1\n2\n3\n"), Some(BasesError::Count));
    assert_eq!(read("f\n1\n2\n"), None);
}

#[test]
fn spacing_of_the_exponents() {
    let pc = bases(35, &[2, 3, 5, 7, 11, 13, 17, 19]);
    assert_eq!(pc.log_num_bases(), 3);
    assert_eq!(pc.log_spacing(), 18);
    assert_eq!(1u64 << (pc.log_num_bases() + pc.log_spacing()), 1u64 << (10 + 11));
    assert_eq!(bases(35, &[2]).log_num_bases(), 0);
    assert!(!bases(35, &[2, 3, 5]).check());
    assert!(!bases(35, &[]).check());
}

#[test]
fn a_final_line_feed_changes_nothing() {
    for text in ["", "1f\n2\n3", "1f", "1f\n2\nx", "1f\n\n2", "1f\n2\n3\n4", "g"] {
        let longer = format!("{}\n", text);
        assert_eq!(
            PrecompBases::from_file(text.as_bytes(), 9, 4),
            PrecompBases::from_file(longer.as_bytes(), 9, 4)
        );
    }
}

#[test]
fn more_bases_extend_a_table() {
    let bs: Vec<Integer> = [23i64, 14, -9, 61].iter().map(|b| small(*b)).collect();
    let table = make_table(&bs, &small(10));
    for k in 1..=4 {
        assert_eq!(make_table(&bs[..k], &small(10)), table[..1 << k].to_vec());
    }
}
