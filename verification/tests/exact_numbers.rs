use football_game_theory::exact::decimal::{fixed, natural_text};
use football_game_theory::exact::natural::Natural;
use football_game_theory::exact::rational::Rational;
use football_game_theory::exact::vector::{duplicate_row, duplicate_rows, sum, unit};

fn q(n: i64, d: u64) -> Rational {
    Rational::from_ratio(n, d).unwrap()
}

#[test]
fn natural_round_trips_through_digits() {
    let n = Natural::from_u64(0x1_0000_0005);
    assert_eq!(n.to_digits(), vec![5, 1]);
    let m = Natural::from_digits(vec![7, 0, 0]);
    assert_eq!(m.to_digits(), vec![7]);
    assert!(Natural::zero().to_digits().is_empty());
}

#[test]
fn natural_sum_carries_into_a_new_digit() {
    let a = Natural::from_u64(u64::MAX);
    let b = Natural::from_u64(1);
    assert_eq!(a.add(&b).to_digits(), vec![0, 0, 1]);
}

#[test]
fn natural_difference_exists_only_downwards() {
    let a = Natural::from_digits(vec![0, 0, 1]);
    let b = Natural::from_u64(1);
    let d = a.checked_sub(&b).unwrap();
    assert_eq!(d.to_digits(), vec![u32::MAX, u32::MAX]);
    assert!(b.checked_sub(&a).is_none());
    assert!(a.checked_sub(&a).unwrap().is_zero());
}

#[test]
fn natural_product_of_two_digit_numbers() {
    // (2^32 + 2) * (2^32 + 3) = 2^64 + 5 * 2^32 + 6
    let a = Natural::from_u64(0x1_0000_0002);
    let b = Natural::from_u64(0x1_0000_0003);
    assert_eq!(a.mul(&b).to_digits(), vec![6, 5, 1]);
    assert!(a.mul(&Natural::zero()).is_zero());
}

#[test]
fn natural_order() {
    let small = Natural::from_u64(9);
    let large = Natural::from_digits(vec![0, 1]);
    assert!(small.lt(&large));
    assert!(!large.lt(&small));
    assert!(small.le(&small));
    assert!(!large.le(&small));
    assert!(small.eq(&Natural::from_digits(vec![9, 0])));
    assert!(!small.eq(&large));
}

#[test]
fn natural_division_with_remainder() {
    // 2^64 + 3 = 7 * 2635249153387078802 + 5
    let a = Natural::from_digits(vec![3, 0, 1]);
    let (quotient, rest) = a.div_rem(&Natural::from_u64(7));
    assert!(quotient.eq(&Natural::from_u64(2635249153387078802)));
    assert!(rest.eq(&Natural::from_u64(5)));
    let (zero, all) = Natural::from_u64(5).div_rem(&a);
    assert!(zero.is_zero());
    assert!(all.eq(&Natural::from_u64(5)));
}

#[test]
fn natural_greatest_common_divisor() {
    let a = Natural::from_u64(84);
    let b = Natural::from_u64(36);
    assert!(a.gcd(&b).eq(&Natural::from_u64(12)));
    assert!(a.gcd(&Natural::zero()).eq(&a));
    assert!(Natural::zero().gcd(&Natural::zero()).is_zero());
}

#[test]
fn rational_is_kept_in_lowest_terms() {
    let (negative, numer, denom) = q(-6, 8).to_parts();
    assert!(negative);
    assert_eq!(numer, vec![3]);
    assert_eq!(denom, vec![4]);
}

#[test]
fn rational_from_parts_needs_a_denominator() {
    assert!(Rational::from_parts(false, vec![1], vec![0, 0]).is_none());
    assert!(Rational::from_ratio(1, 0).is_none());
    let r = Rational::from_parts(true, vec![0, 1], vec![2]).unwrap();
    assert!(r.same(&Rational::from_int(-2147483648)));
}

#[test]
fn rational_arithmetic_is_exact() {
    assert!(q(1, 3).add(&q(1, 6)).same(&q(1, 2)));
    assert!(q(1, 3).sub(&q(1, 2)).same(&q(-1, 6)));
    assert!(q(-2, 3).mul(&q(3, 4)).same(&q(-1, 2)));
    assert!(q(1, 2).div(&q(-3, 4)).same(&q(-2, 3)));
    assert!(q(5, 7).neg().same(&q(-5, 7)));
    assert!(q(-5, 7).abs().same(&q(5, 7)));
    assert!(Rational::from_int(i64::MIN).add(&Rational::from_int(i64::MAX)).same(&q(-1, 1)));
    // One tenth and two tenths are three tenths, which floats cannot say.
    assert!(q(1, 10).add(&q(2, 10)).same(&q(3, 10)));
}

#[test]
fn rational_order_and_sign() {
    assert!(q(1, 3).lt(&q(1, 2)));
    assert!(q(-1, 2).lt(&q(-1, 3)));
    assert!(q(1, 2).gt(&q(-5, 1)));
    assert!(q(2, 4).le(&q(1, 2)));
    assert!(q(2, 4).ge(&q(1, 2)));
    assert!(!q(1, 2).same(&q(1, 3)));
    assert!(q(-1, 9).is_negative());
    assert!(!Rational::zero().is_negative());
    assert!(Rational::zero().neg().is_zero());
    assert!(Rational::one().is_positive());
    assert!(!q(-1, 9).is_positive());
}

#[test]
fn clone_is_the_same_number() {
    let r = q(22, 7);
    assert!(r.clone().same(&r));
    let n = Natural::from_digits(vec![1, 2, 3]);
    assert!(n.clone().eq(&n));
}

#[test]
fn vector_sum_and_copies() {
    let v = vec![q(1, 2), q(1, 3), q(1, 6)];
    assert!(sum(&v).same(&Rational::one()));
    assert!(sum(&[]).is_zero());
    let copy = duplicate_row(&v);
    assert_eq!(copy.len(), 3);
    assert!(copy[1].same(&q(1, 3)));
    let m = duplicate_rows(&[vec![q(1, 2)], vec![]]);
    assert_eq!(m.len(), 2);
    assert!(m[0][0].same(&q(1, 2)));
    assert!(m[1].is_empty());
}

#[test]
fn unit_vector_has_a_single_one() {
    let e = unit(3, 1);
    assert!(e[0].is_zero() && e[1].same(&Rational::one()) && e[2].is_zero());
    let none = unit(2, 5);
    assert!(none[0].is_zero() && none[1].is_zero());
}

#[test]
fn naturals_are_written_in_decimal() {
    assert_eq!(natural_text(&Natural::zero()), "0");
    assert_eq!(natural_text(&Natural::from_u64(907)), "907");
    assert_eq!(natural_text(&Natural::from_digits(vec![0, 0, 1])), "18446744073709551616");
}

#[test]
fn rationals_are_written_with_fixed_decimals() {
    assert_eq!(fixed(&q(1, 3), 3), "0.333");
    assert_eq!(fixed(&q(2, 3), 3), "0.667");
    assert_eq!(fixed(&q(58, 100), 1), "0.6");
    assert_eq!(fixed(&q(5, 100), 1), "0.1");
    assert_eq!(fixed(&q(4, 100), 1), "0.0");
    assert_eq!(fixed(&q(-4, 100), 1), "-0.0");
    assert_eq!(fixed(&q(-7, 2), 0), "-4");
    assert_eq!(fixed(&q(1234567, 1000), 2), "1234.57");
    assert_eq!(fixed(&q(999, 1000), 2), "1.00");
    assert_eq!(fixed(&Rational::zero(), 2), "0.00");
    assert_eq!(fixed(&q(3, 1), 0), "3");
}
