use int_set_par::elements::Elements;
use int_set_par::exp_set::{ParallelExpSet, N_PER_TABLE};
use int_set_par::group::SemiGroup;
use int_set_par::integer::{from_biguint, Integer};
use int_set_par::natural::Natural;
use int_set_par::precomp::PrecompBases;

/// The numbers below a modulus, under multiplication.
#[derive(Clone, Debug, PartialEq, Eq)]
struct Residues {
    modulus: u64,
}

impl SemiGroup for Residues {
    type Elem = u64;

    fn power(&self, b: &u64, e: &Natural) -> u64 {
        let mut acc: u64 = 1;
        for digit in e.digits().iter().rev() {
            for k in (0..32).rev() {
                acc = acc * acc % self.modulus;
                if digit & (1 << k) != 0 {
                    acc = acc * b % self.modulus;
                }
            }
        }
        acc
    }
}

fn natural_of(n: u64) -> Natural {
    Natural::from_digits(vec![n as u32, (n >> 32) as u32])
}

fn integer_of(n: u64) -> Integer {
    from_biguint(&natural_of(n))
}

fn group() -> Residues {
    Residues { modulus: 1_000_003 }
}

fn bases() -> PrecompBases {
    PrecompBases::from_file(b"f4243\n2\n4\n10\n100\n", 10, 5).unwrap()
}

fn set(items: &[u64]) -> ParallelExpSet<Residues> {
    ParallelExpSet::new_with(group(), bases(), items.iter().map(|n| natural_of(*n)).collect())
}

fn entries(e: &Elements) -> Vec<(Integer, usize)> {
    e.entries.clone()
}

#[test]
fn a_new_set_is_empty_and_has_tables() {
    let s = ParallelExpSet::new(group(), bases());
    assert_eq!(entries(&s.elements), vec![]);
    assert!(!s.has_digest());
    assert_eq!(s.group(), &group());
    // there are fewer bases than a table is asked to combine
    assert_eq!(s.bases.npt, N_PER_TABLE);
    assert_eq!(s.bases.n_per_table(), 4);
    assert_eq!(s.bases.len(), 1);
    assert_eq!(s.bases[0].len(), 16);
    assert_eq!(s.bases[0][3], integer_of(8));
    assert_eq!(s.bases[0][15], integer_of(2 * 4 * 16 * 256));
}

#[test]
fn numbers_are_counted_and_kept_in_order() {
    let s = set(&[7, 3, 1 << 40, 7, 3, 7]);
    assert_eq!(
        entries(&s.elements),
        vec![(integer_of(3), 2), (integer_of(7), 3), (integer_of(1 << 40), 1)]
    );
    assert!(!s.has_digest());
}

#[test]
fn the_order_of_insertion_does_not_matter() {
    assert_eq!(set(&[2, 9, 2, 5]), set(&[5, 2, 2, 9]));
    assert!(set(&[2, 9, 2, 5]) != set(&[5, 2, 9]));
}

#[test]
fn removal_takes_out_one() {
    let mut s = set(&[7, 3, 7]);
    assert!(s.remove(&natural_of(7)));
    assert_eq!(s, set(&[7, 3]));
    assert!(s.remove(&natural_of(7)));
    assert_eq!(s, set(&[3]));
    assert!(!s.remove(&natural_of(7)));
    assert_eq!(s, set(&[3]));
}

#[test]
fn insertion_and_removal_cancel() {
    for n in [0, 3, 4, 7, 100] {
        let mut s = set(&[7, 3, 7]);
        s.insert(natural_of(n));
        assert!(s != set(&[7, 3, 7]));
        assert!(s.remove(&natural_of(n)));
        assert_eq!(s, set(&[7, 3, 7]));
    }
}

#[test]
fn a_known_digest_is_raised() {
    let mut s = set(&[]);
    s.digest = Some(2);
    s.insert(natural_of(10));
    assert_eq!(s.digest(), 1024);
    s.insert_all(vec![natural_of(2), natural_of(1)]);
    assert_eq!(s.digest(), 1024 * 1024 % 1_000_003);
    assert!(s.has_digest());
}

#[test]
fn the_digest_is_forgotten() {
    let mut s = set(&[5]);
    s.digest = Some(32);
    assert!(!s.remove(&natural_of(6)));
    assert_eq!(s.digest(), 32);
    assert!(s.remove(&natural_of(5)));
    assert!(!s.has_digest());
    s.digest = Some(2);
    s.clear_digest();
    assert!(!s.has_digest());
    assert_eq!(s, set(&[]));
}

#[test]
fn the_digest_is_that_of_the_exponent() {
    let mut s = set(&[]);
    s.digest = Some(2);
    for n in [12, 5, 12, 999_999_999_999, 3] {
        s.insert(natural_of(n));
        let e = s.exponent();
        assert_eq!(s.digest(), group().power(&2, e.magnitude()));
    }
}

#[test]
fn the_exponent_is_the_product() {
    assert_eq!(set(&[3]).exponent(), integer_of(3));
    assert_eq!(set(&[3, 5, 3, 7, 3]).exponent(), integer_of(27 * 5 * 7));
    assert_eq!(set(&[3, 0, 3]).exponent(), integer_of(0));
    let mut s = set(&[3, 5, 3]);
    s.insert(natural_of(11));
    assert_eq!(s.exponent(), integer_of(9 * 5 * 11));
    assert!(s.remove(&natural_of(3)));
    assert_eq!(s.exponent(), integer_of(3 * 5 * 11));
}

#[test]
fn the_lower_bits_of_a_count_matter() {
    let mut s = set(&[]);
    s.elements.entries = vec![(integer_of(2), (1usize << 32) + 3), (integer_of(5), 1usize << 32)];
    assert_eq!(s.exponent(), integer_of(8));
}

#[test]
fn the_order_of_the_numbers_does_not_matter() {
    let expected = set(&[7, 3, 1 << 40, 7, 3]);
    for items in [[3, 3, 7, 7, 1 << 40], [1 << 40, 7, 3, 7, 3], [7, 7, 1 << 40, 3, 3]] {
        assert_eq!(set(&items), expected);
    }
    // put in one by one
    let mut s = ParallelExpSet::new(group(), bases());
    for n in [3, 1 << 40, 7, 3, 7] {
        s.insert(natural_of(n));
    }
    assert_eq!(s, expected);
    assert!(s != set(&[7, 3, 1 << 40, 7]));
}

#[test]
fn no_operation_makes_a_digest_known() {
    let mut s = set(&[5, 8]);
    assert!(!s.has_digest());
    s.insert(natural_of(6));
    assert!(!s.has_digest());
    assert!(s.remove(&natural_of(5)));
    assert!(!s.remove(&natural_of(5)));
    assert!(!s.has_digest());
    s.clear_digest();
    s.insert_all(vec![natural_of(1), natural_of(2)]);
    assert!(!s.has_digest());
    assert_eq!(s.group(), &group());
    assert_eq!(s.bases, set(&[]).bases);
}
