use calc_core::biguint::BigUint;
use calc_core::order::Comparison;

fn big(text: &str) -> BigUint {
    let mut acc = BigUint::zero();
    for c in text.chars() {
        acc = acc.mul_small_add(10, c.to_digit(10).unwrap());
    }
    acc
}

#[test]
fn decimal_notation_of_small_numbers() {
    assert_eq!(BigUint::zero().to_decimal(), "0");
    assert_eq!(BigUint::from_u64(7).to_decimal(), "7");
    assert_eq!(BigUint::from_u64(10).to_decimal(), "10");
    assert_eq!(BigUint::from_u64(4294967296).to_decimal(), "4294967296");
    assert_eq!(BigUint::from_u64(u64::MAX).to_decimal(), "18446744073709551615");
}

#[test]
fn decimal_notation_round_trip() {
    let text = "123456789012345678901234567890";
    assert_eq!(big(text).to_decimal(), text);
}

#[test]
fn conversion_to_u64() {
    assert_eq!(BigUint::zero().to_u64(), Some(0));
    assert_eq!(BigUint::from_u64(4294967295).to_u64(), Some(4294967295));
    assert_eq!(BigUint::from_u64(u64::MAX).to_u64(), Some(u64::MAX));
    assert_eq!(big("18446744073709551616").to_u64(), None);
}

#[test]
fn zero_and_one_are_told_apart() {
    assert!(BigUint::zero().is_zero());
    assert!(!BigUint::from_u64(1).is_zero());
    assert!(BigUint::from_u64(1).is_one());
    assert!(!BigUint::from_u64(4294967297).is_one());
    assert!(BigUint::from_u64(5).sub(&BigUint::from_u64(5)).is_zero());
}

#[test]
fn addition_carries_over_limbs() {
    let a = BigUint::from_u64(u64::MAX);
    assert_eq!(a.add(&BigUint::from_u64(1)).to_decimal(), "18446744073709551616");
    let sum = big("123456789012345678901234567890").add(&big("987654321098765432109876543210"));
    assert_eq!(sum.to_decimal(), "1111111110111111111011111111100");
}

#[test]
fn subtraction_borrows_over_limbs() {
    let a = big("18446744073709551616");
    assert_eq!(a.sub(&BigUint::from_u64(1)).to_decimal(), "18446744073709551615");
    let diff = big("987654321098765432109876543210").sub(&big("123456789012345678901234567890"));
    assert_eq!(diff.to_decimal(), "864197532086419753208641975320");
}

#[test]
fn multiplication_of_large_numbers() {
    let p = big("123456789012345678901234567890").mul(&big("987654321098765432109876543210"));
    assert_eq!(
        p.to_decimal(),
        "121932631137021795226185032733622923332237463801111263526900"
    );
    assert!(p.mul(&BigUint::zero()).is_zero());
    assert_eq!(BigUint::zero().mul(&p).to_decimal(), "0");
}

#[test]
fn multiplication_by_a_small_factor_with_addend() {
    assert_eq!(BigUint::from_u64(u64::MAX).mul_small_add(10, 7).to_decimal(), "184467440737095516157");
}

#[test]
fn division_with_remainder() {
    let a = big("123456789012345678901234567890");
    let b = big("987654321098765432109876543210");
    let (q, r) = b.divmod(&a);
    assert_eq!(q.to_decimal(), "8");
    assert_eq!(r.to_decimal(), "9000000000900000000090");
    let (q, r) = a.divmod(&b);
    assert_eq!(q.to_decimal(), "0");
    assert_eq!(r.to_decimal(), "123456789012345678901234567890");
    let p = a.mul(&b);
    assert_eq!(p.div(&a), b);
    assert!(p.rem(&b).is_zero());
}

#[test]
fn division_by_a_small_divisor() {
    let p = big("121932631137021795226185032733622923332237463801111263526900");
    let (q, r) = p.divmod_small(12345);
    assert_eq!(q.to_decimal(), "9877086361848667090010938253027373295442483904504760107");
    assert_eq!(r, 5985);
}

#[test]
fn comparison_of_numbers() {
    let a = big("123456789012345678901234567890");
    let b = big("123456789012345678901234567891");
    assert_eq!(a.compare(&b), Comparison::Less);
    assert_eq!(b.compare(&a), Comparison::Greater);
    assert_eq!(a.compare(&a.clone()), Comparison::Equal);
    assert!(a.less_than(&b));
    assert!(!b.less_than(&a));
    assert!(a.equals(&b.sub(&BigUint::from_u64(1))));
    assert!(BigUint::from_u64(u64::MAX).less_than(&a));
    assert_ne!(a, b);
}

#[test]
fn greatest_common_divisor() {
    let a = big("267181325549568");
    let b = big("131072000");
    assert_eq!(BigUint::gcd(&a, &b).to_decimal(), "1048576");
    assert_eq!(BigUint::gcd(&a, &BigUint::zero()), a);
    assert_eq!(BigUint::gcd(&BigUint::zero(), &b), b);
    assert!(BigUint::gcd(&BigUint::zero(), &BigUint::zero()).is_zero());
    assert!(BigUint::gcd(&BigUint::from_u64(35), &BigUint::from_u64(12)).is_one());
}

#[test]
fn least_common_multiple() {
    let a = big("267181325549568");
    let b = big("131072000");
    assert_eq!(BigUint::lcm(&a, &b).to_decimal(), "33397665693696000");
    assert_eq!(BigUint::lcm(&BigUint::from_u64(4), &BigUint::from_u64(6)).to_decimal(), "12");
    assert!(BigUint::lcm(&BigUint::zero(), &b).is_zero());
    assert!(BigUint::lcm(&a, &BigUint::zero()).is_zero());
}

#[test]
fn power_of_numbers() {
    let p = BigUint::pow(&BigUint::from_u64(2), &BigUint::from_u64(100)).unwrap();
    assert_eq!(p.to_decimal(), "1267650600228229401496703205376");
    let p = BigUint::pow(&BigUint::from_u64(3), &BigUint::from_u64(50)).unwrap();
    assert_eq!(p.to_decimal(), "717897987691852588770249");
    assert!(BigUint::pow(&BigUint::from_u64(9), &BigUint::zero()).unwrap().is_one());
    assert!(BigUint::pow(&BigUint::zero(), &BigUint::from_u64(9)).unwrap().is_zero());
    assert_eq!(BigUint::pow(&BigUint::from_u64(9), &BigUint::from_u64(1)).unwrap().to_decimal(), "9");
}

#[test]
fn power_failures() {
    assert_eq!(
        BigUint::pow(&BigUint::zero(), &BigUint::zero()),
        Err("Zero to the power of zero is undefined".to_string())
    );
    assert_eq!(
        BigUint::pow(&BigUint::from_u64(1), &big("18446744073709551616")),
        Err("Exponent too large".to_string())
    );
}
