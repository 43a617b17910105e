use int_set_par::integer::{from_biguint, Integer};
use int_set_par::log2::{is_power_of_two, log2};
use int_set_par::natural::Natural;

fn natural_of(n: u64) -> Natural {
    Natural::from_digits(vec![n as u32, (n >> 32) as u32])
}

fn integer_of(n: i64) -> Integer {
    Integer::from_magnitude(n < 0, natural_of(n.unsigned_abs()))
}

fn parse(text: &str, radix: u32) -> Option<Integer> {
    Integer::from_str_radix(text.as_bytes(), radix)
}

#[test]
fn from_digits_drops_leading_zeros() {
    assert_eq!(Natural::from_digits(vec![7, 0, 9, 0, 0]).digits(), &[7u32, 0, 9][..]);
    assert_eq!(Natural::from_digits(vec![0, 0]).digits(), &[] as &[u32]);
    assert!(Natural::from_digits(vec![0, 0]).is_zero());
    assert!(!Natural::from_digits(vec![0, 1]).is_zero());
    assert!(Natural::from_digits(vec![3, 0]) == Natural::from_digits(vec![3]));
    assert!(Natural::from_digits(vec![3, 1]) != Natural::from_digits(vec![3]));
    assert!(Natural::from_digits(vec![3, 1]) != Natural::from_digits(vec![3, 2]));
}

#[test]
fn from_biguint_keeps_the_value() {
    let all =
        [vec![], vec![1], vec![31], vec![32], vec![0, 1], vec![0xffff_ffff; 7], vec![7, 0, 9]];
    for digits in all {
        let n = Natural::from_digits(digits);
        let x = from_biguint(&n);
        assert_eq!(x.magnitude().digits(), n.digits());
        assert!(!x.is_negative());
    }
}

#[test]
fn numerals_are_lower_case_without_leading_zeros() {
    assert_eq!(natural_of(0).to_str_radix(32), b"0".to_vec());
    assert_eq!(natural_of(31).to_str_radix(32), b"v".to_vec());
    assert_eq!(natural_of(32).to_str_radix(32), b"10".to_vec());
    assert_eq!(natural_of(0xbeef).to_str_radix(16), b"beef".to_vec());
    assert_eq!(natural_of(35).to_str_radix(36), b"z".to_vec());
    assert_eq!(natural_of(5).to_str_radix(2), b"101".to_vec());
}

#[test]
fn texts_stand_for_numbers() {
    assert_eq!(parse("ff", 16), Some(integer_of(255)));
    assert_eq!(parse("-Ff", 16), Some(integer_of(-255)));
    assert_eq!(parse("+1223", 4), Some(integer_of(107)));
    assert_eq!(parse(" - 1 2\t3_4 \r\n", 10), Some(integer_of(-1234)));
    assert_eq!(parse("1__2_", 10), Some(integer_of(12)));
    assert_eq!(parse("-0", 10), Some(integer_of(0)));
    assert_eq!(parse("000a", 16), Some(integer_of(10)));
}

#[test]
fn other_texts_stand_for_no_number() {
    for text in ["", " ", "-", "+-1", "1-", "_1", "-_1", "fg", "1.0", "\u{e9}"] {
        assert!(parse(text, 16).is_none(), "{:?}", text);
    }
    assert!(parse("123", 3).is_none());
}

#[test]
fn arithmetic_is_exact() {
    assert!(
        integer_of(0xffff_ffff).mul(&integer_of(-0xffff_ffff))
            == Integer::from_magnitude(true, Natural::from_digits(vec![1, 0xffff_fffe]))
    );
    assert!(integer_of(-6).mul(&integer_of(-7)) == integer_of(42));
    assert!(integer_of(-6).mul(&integer_of(0)) == integer_of(0));
    assert!(integer_of(-7).pow(3) == integer_of(-343));
    assert!(integer_of(-7).pow(2) == integer_of(49));
    assert!(integer_of(0).pow(0) == integer_of(1));
    assert!(
        integer_of(2).pow(64)
            == Integer::from_magnitude(false, Natural::from_digits(vec![0, 0, 1]))
    );
    assert!(natural_of(10).pow(3) == natural_of(1000));
    assert!(natural_of(100).rem(&natural_of(7)) == natural_of(2));
}

#[test]
fn remainders_have_the_sign_of_the_dividend() {
    assert!(integer_of(17).rem(&integer_of(5)) == integer_of(2));
    assert!(integer_of(-17).rem(&integer_of(5)) == integer_of(-2));
    assert!(integer_of(17).rem(&integer_of(-5)) == integer_of(2));
    assert!(integer_of(-17).rem(&integer_of(-5)) == integer_of(-2));
    assert!(integer_of(-15).rem(&integer_of(5)) == integer_of(0));
}

#[test]
fn numbers_are_ordered_by_value() {
    let ascending = [
        integer_of(-1 << 40),
        integer_of(-3),
        integer_of(-2),
        integer_of(0),
        integer_of(1),
        integer_of(5),
        integer_of(1 << 33),
    ];
    for i in 0..ascending.len() {
        for j in 0..ascending.len() {
            assert_eq!(ascending[i].less(&ascending[j]), i < j);
            assert_eq!(ascending[i] == ascending[j], i == j);
        }
    }
}

#[test]
fn sizes_are_exponents_rounded_up() {
    let expected = [0, 0, 1, 2, 2, 3, 3, 3, 3, 4];
    for (n, size) in expected.iter().enumerate() {
        assert_eq!(natural_of(n as u64).size(), *size);
    }
    assert_eq!(natural_of(0xffff_ffff).size(), 32);
    assert_eq!(natural_of(1 << 32).size(), 32);
    assert_eq!(natural_of((1 << 32) + 1).size(), 33);
    assert_eq!(natural_of(1 << 63).size(), 63);
    assert_eq!(natural_of(u64::MAX).size(), 64);
    assert_eq!(Natural::from_digits(vec![0xffff_ffff; 1000]).size(), 32_000);
    assert_eq!(Natural::from_digits(vec![0, 0, 0, 0x8000_0000]).size(), 127);
    assert_eq!(Natural::from_digits(vec![0, 1, 0, 0x8000_0000]).size(), 128);
}

#[test]
fn powers_of_two_have_logarithms() {
    assert!(!is_power_of_two(0));
    for k in 0..usize::BITS as usize {
        assert!(is_power_of_two(1 << k));
        assert_eq!(log2(1 << k), k);
        if k > 1 {
            assert!(!is_power_of_two((1 << k) + 1));
            assert!(!is_power_of_two((1 << k) - 1));
        }
    }
}
