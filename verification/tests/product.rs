use int_set_par::integer::Integer;
use int_set_par::natural::Natural;
use int_set_par::product::parallel_product;
use rug::integer::Order;
use rug::rand::RandState;
use std::ops::MulAssign;

fn integer_of(x: &rug::Integer) -> Integer {
    Integer::from_magnitude(*x < 0, Natural::from_digits(x.to_digits(Order::Lsf)))
}

#[test]
fn pprod_test() {
    const NELMS: usize = 2222;

    let mut rnd = RandState::new();
    let mut v = Vec::with_capacity(NELMS);
    (0..NELMS).for_each(|_| v.push(rug::Integer::from(rug::Integer::random_bits(2048, &mut rnd))));

    // sequential
    let mut prod = rug::Integer::from(1);
    v.iter().for_each(|p| prod.mul_assign(p));

    // parallel
    let mut v: Vec<Integer> = v.iter().map(integer_of).collect();
    parallel_product(&mut v);

    assert!(integer_of(&prod) == v[0]);
}

#[test]
fn lists_of_every_length_are_folded() {
    for n in 1..40i64 {
        let numbers: Vec<rug::Integer> = (1..=n).map(|k| rug::Integer::from(2 * k - 11)).collect();
        let mut prod = rug::Integer::from(1);
        numbers.iter().for_each(|p| prod.mul_assign(p));
        let mut v: Vec<Integer> = numbers.iter().map(integer_of).collect();
        parallel_product(&mut v);
        assert_eq!(v.len(), 1);
        assert_eq!(v[0], integer_of(&prod));
    }
}

#[test]
fn a_zero_makes_the_product_zero() {
    let mut v: Vec<Integer> =
        [3, 0, 5].iter().map(|k| integer_of(&rug::Integer::from(*k))).collect();
    parallel_product(&mut v);
    assert_eq!(v, vec![integer_of(&rug::Integer::from(0))]);
}

#[test]
fn neither_order_nor_split_matters() {
    let list = |numbers: &[i64]| -> Vec<Integer> {
        numbers.iter().map(|k| integer_of(&rug::Integer::from(*k))).collect()
    };
    let mut x = list(&[3, -8, 1 << 40]);
    let mut y = list(&[7, 3]);
    parallel_product(&mut x);
    parallel_product(&mut y);
    let expected = integer_of(&(rug::Integer::from(-72i64 * 7) << 40));
    assert_eq!(x[0].mul(&y[0]), expected);
    for z in [[7, 3, -8, 3, 1 << 40], [3, 7, 1 << 40, 3, -8], [1 << 40, -8, 7, 3, 3]] {
        let mut z = list(&z);
        parallel_product(&mut z);
        assert_eq!(z, vec![integer_of(&(rug::Integer::from(-72i64 * 7) << 40))]);
    }
}
