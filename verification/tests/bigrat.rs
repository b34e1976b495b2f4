use calc_core::bigrat::BigRat;
use calc_core::biguint::BigUint;
use calc_core::order::Comparison;
use calc_core::sign::Sign;

fn ratio(n: i32, d: i32) -> BigRat {
    BigRat::from(n).div(BigRat::from(d)).unwrap()
}

fn parts(x: &BigRat) -> (Sign, String, String, bool) {
    (x.sign(), x.numerator().to_decimal(), x.denominator().to_decimal(), x.is_exact())
}

#[test]
fn test_bigrat_from() {
    BigRat::from(2);
    BigRat::from(0);
    BigRat::from(-5);
}

#[test]
fn test_addition() {
    println!("{:?}", "yay");
    assert_eq!(BigRat::from(2) + BigRat::from(2), BigRat::from(4));
}

#[test]
fn from_integers_holds_sign_and_magnitude() {
    assert_eq!(parts(&BigRat::from(2)), (Sign::Positive, "2".to_string(), "1".to_string(), true));
    assert_eq!(parts(&BigRat::from(0)), (Sign::Positive, "0".to_string(), "1".to_string(), true));
    assert_eq!(parts(&BigRat::from(-5)), (Sign::Negative, "5".to_string(), "1".to_string(), true));
    assert_eq!(
        parts(&BigRat::from(i32::MIN)),
        (Sign::Negative, "2147483648".to_string(), "1".to_string(), true)
    );
    assert_eq!(
        parts(&BigRat::from(u64::MAX)),
        (Sign::Positive, "18446744073709551615".to_string(), "1".to_string(), true)
    );
}

#[test]
fn addition_with_equal_denominators_keeps_the_denominator() {
    let sum = ratio(1, 4) + ratio(1, 4);
    assert_eq!(parts(&sum), (Sign::Positive, "2".to_string(), "4".to_string(), true));
    let diff = ratio(1, 4) + ratio(-3, 4);
    assert_eq!(parts(&diff), (Sign::Negative, "2".to_string(), "4".to_string(), true));
    let rest = ratio(3, 4) + ratio(-1, 4);
    assert_eq!(parts(&rest), (Sign::Positive, "2".to_string(), "4".to_string(), true));
}

#[test]
fn addition_with_different_denominators_uses_the_least_common_multiple() {
    let sum = ratio(1, 4) + ratio(1, 6);
    assert_eq!(parts(&sum), (Sign::Positive, "5".to_string(), "12".to_string(), true));
    let sum = ratio(22, 7) + ratio(-1, 3);
    assert_eq!(parts(&sum), (Sign::Positive, "59".to_string(), "21".to_string(), true));
}

#[test]
fn addition_that_goes_below_zero_over_different_denominators_is_negative() {
    let sum = ratio(1, 6) + ratio(-1, 4);
    assert_eq!(parts(&sum), (Sign::Negative, "1".to_string(), "12".to_string(), true));
    assert!(sum < BigRat::from(0));
    assert_eq!(sum, ratio(-1, 12));
}

#[test]
fn addition_with_a_negative_left_operand() {
    let sum = ratio(-1, 2) + ratio(1, 3);
    assert_eq!(parts(&sum), (Sign::Negative, "1".to_string(), "6".to_string(), true));
    let sum = ratio(-1, 2) + ratio(3, 2);
    assert_eq!(parts(&sum), (Sign::Positive, "2".to_string(), "2".to_string(), true));
    let sum = BigRat::from(-2) + BigRat::from(-3);
    assert_eq!(parts(&sum), (Sign::Negative, "5".to_string(), "1".to_string(), true));
}

#[test]
fn a_sum_of_zero_takes_the_sign_of_the_left_operand() {
    let sum = BigRat::from(2) + BigRat::from(-2);
    assert_eq!(parts(&sum), (Sign::Positive, "0".to_string(), "1".to_string(), true));
    let sum = BigRat::from(-2) + BigRat::from(2);
    assert_eq!(parts(&sum), (Sign::Negative, "0".to_string(), "1".to_string(), true));
    assert_eq!(sum, BigRat::from(0));
}

#[test]
fn addition_is_commutative_and_associative() {
    let a = || ratio(3, 4);
    let b = || ratio(-5, 6);
    let c = || ratio(7, 10);
    assert_eq!(a() + b(), b() + a());
    assert_eq!((a() + b()) + c(), a() + (b() + c()));
    assert_eq!((a() + b()) + c(), ratio(37, 60));
}

#[test]
fn a_value_plus_its_negation_is_zero() {
    assert_eq!(ratio(3, 7) + (-ratio(3, 7)), BigRat::from(0));
    assert_eq!(ratio(-3, 7) + (-ratio(-3, 7)), BigRat::from(0));
}

#[test]
fn subtraction_is_addition_of_the_negation() {
    let diff = ratio(5, 6) - ratio(1, 4);
    let sum = ratio(5, 6) + (-ratio(1, 4));
    assert_eq!(parts(&diff), parts(&sum));
    assert_eq!(parts(&diff), (Sign::Positive, "7".to_string(), "12".to_string(), true));
    let by_reference = &ratio(5, 6) - &ratio(1, 4);
    assert_eq!(parts(&by_reference), parts(&diff));
}

#[test]
fn negation_flips_the_sign_only() {
    let x = -ratio(1, 4);
    assert_eq!(parts(&x), (Sign::Negative, "1".to_string(), "4".to_string(), true));
    let y = -&x;
    assert_eq!(parts(&y), (Sign::Positive, "1".to_string(), "4".to_string(), true));
    let pi = -BigRat::approx_pi();
    assert_eq!(pi.sign(), Sign::Negative);
    assert!(!pi.is_exact());
}

#[test]
fn multiplication_multiplies_numerators_and_denominators() {
    let p = ratio(2, 4) * ratio(-3, 9);
    assert_eq!(parts(&p), (Sign::Negative, "6".to_string(), "36".to_string(), true));
}

#[test]
fn multiplication_laws() {
    let a = || ratio(-3, 8);
    let b = || ratio(5, 12);
    assert_eq!(a() * BigRat::from(1), a());
    assert_eq!(a() * BigRat::from(0), BigRat::from(0));
    assert_eq!((-a()) * (-b()), a() * b());
    assert_eq!(parts(&((-a()) * (-b()))), parts(&(a() * b())));
    assert_eq!((-a()) * b(), -(a() * b()));
    assert_eq!(parts(&((-a()) * b())), parts(&(-(a() * b()))));
}

#[test]
fn division_cross_multiplies() {
    let q = ratio(2, 3).div(ratio(-4, 5)).unwrap();
    assert_eq!(parts(&q), (Sign::Negative, "10".to_string(), "12".to_string(), true));
}

#[test]
fn division_by_zero_fails() {
    assert_eq!(
        BigRat::from(1).div(BigRat::from(0)),
        Err("Attempt to divide by zero".to_string())
    );
    let zero_over_five = ratio(0, 5);
    assert_eq!(
        ratio(3, 4).div(zero_over_five),
        Err("Attempt to divide by zero".to_string())
    );
    assert!(BigRat::from(0).div(BigRat::from(3)).is_ok());
}

#[test]
fn division_undoes_multiplication() {
    let a = || ratio(7, 9);
    let b = || ratio(-5, 3);
    assert_eq!(a().div(b()).unwrap() * b(), a());
}

#[test]
fn exactness_is_the_conjunction_of_the_operands() {
    assert!(!(BigRat::approx_pi() + BigRat::from(1)).is_exact());
    assert!(!(BigRat::from(1) * BigRat::approx_pi()).is_exact());
    assert!(!(BigRat::from(1).div(BigRat::approx_pi()).unwrap()).is_exact());
    assert!(!(BigRat::approx_pi().pow(BigRat::from(2)).unwrap()).is_exact());
    assert!((BigRat::from(1) + BigRat::from(1)).is_exact());
}

#[test]
fn simplify_reduces_to_lowest_terms() {
    let x = ratio(-6, 8).simplify();
    assert_eq!(parts(&x), (Sign::Negative, "3".to_string(), "4".to_string(), true));
    let y = BigRat::from(6).simplify();
    assert_eq!(parts(&y), (Sign::Positive, "6".to_string(), "1".to_string(), true));
    let z = ratio(0, 8).simplify();
    assert_eq!(parts(&z), (Sign::Positive, "0".to_string(), "1".to_string(), true));
}

#[test]
fn power_with_a_positive_exponent_is_repeated_multiplication() {
    let a = || ratio(6, 4);
    let p = a().pow(BigRat::from(3)).unwrap();
    assert_eq!(parts(&p), (Sign::Positive, "27".to_string(), "8".to_string(), true));
    assert_eq!(p, a() * a() * a());
    let one = a().pow(BigRat::from(1)).unwrap();
    assert_eq!(one, a());
}

#[test]
fn power_of_a_negative_value_follows_the_parity_of_the_exponent() {
    let p = BigRat::from(-2).pow(BigRat::from(3)).unwrap();
    assert_eq!(parts(&p), (Sign::Negative, "8".to_string(), "1".to_string(), true));
    assert_eq!(p, BigRat::from(-2) * BigRat::from(-2) * BigRat::from(-2));
    let q = BigRat::from(-2).pow(BigRat::from(2)).unwrap();
    assert_eq!(parts(&q), (Sign::Positive, "4".to_string(), "1".to_string(), true));
    assert_eq!(q, BigRat::from(-2) * BigRat::from(-2));
    let r = ratio(-2, 3).pow(BigRat::from(-3)).unwrap();
    assert_eq!(parts(&r), (Sign::Negative, "27".to_string(), "8".to_string(), true));
}

#[test]
fn power_with_a_negative_exponent_is_the_inverse() {
    let a = || ratio(2, 3);
    let p = a().pow(BigRat::from(-2)).unwrap();
    assert_eq!(parts(&p), (Sign::Positive, "9".to_string(), "4".to_string(), true));
    let q = BigRat::from(1).div(a().pow(BigRat::from(2)).unwrap()).unwrap();
    assert_eq!(parts(&p), parts(&q));
}

#[test]
fn power_with_exponent_zero_is_one() {
    let p = ratio(5, 7).pow(BigRat::from(0)).unwrap();
    assert_eq!(parts(&p), (Sign::Positive, "1".to_string(), "1".to_string(), true));
}

#[test]
fn power_takes_the_exponent_in_lowest_terms() {
    let p = BigRat::from(3).pow(ratio(4, 2)).unwrap();
    assert_eq!(parts(&p), (Sign::Positive, "9".to_string(), "1".to_string(), true));
}

#[test]
fn power_with_a_fractional_exponent_fails() {
    assert_eq!(
        BigRat::from(4).pow(ratio(1, 2)),
        Err("Non-integer exponents not currently supported".to_string())
    );
    assert_eq!(
        BigRat::from(0).pow(ratio(-3, 2)),
        Err("Non-integer exponents not currently supported".to_string())
    );
}

#[test]
fn zero_to_the_power_zero_fails() {
    assert_eq!(
        BigRat::from(0).pow(BigRat::from(0)),
        Err("Zero to the power of zero is undefined".to_string())
    );
}

#[test]
fn power_with_an_exponent_too_large_fails() {
    let huge = BigRat::from(2).pow(BigRat::from(64)).unwrap();
    assert_eq!(huge.numerator().to_decimal(), "18446744073709551616");
    assert_eq!(BigRat::from(1).pow(huge), Err("Exponent too large".to_string()));
}

#[test]
fn zero_to_a_negative_power_fails_as_a_division_by_zero() {
    assert_eq!(
        BigRat::from(0).pow(BigRat::from(-1)),
        Err("Attempt to divide by zero".to_string())
    );
}

#[test]
fn ordering_follows_the_numbers() {
    assert!(BigRat::from(2) < BigRat::from(3));
    assert!(BigRat::from(-5) < BigRat::from(0));
    assert!(ratio(1, 3) < ratio(1, 2));
    assert!(ratio(-1, 2) < ratio(-1, 3));
    assert!(ratio(1, 2) > ratio(1, 3));
    assert!(ratio(2, 4) <= ratio(1, 2));
    assert!(ratio(2, 4) >= ratio(1, 2));
    assert_eq!(ratio(2, 4).compare(&ratio(1, 2)), Comparison::Equal);
    assert_eq!(ratio(1, 3).compare(&ratio(1, 2)), Comparison::Less);
    assert_eq!(ratio(1, 2).compare(&ratio(-1, 2)), Comparison::Greater);
    assert_eq!(
        BigRat::from(2).partial_cmp(&BigRat::from(3)),
        Some(std::cmp::Ordering::Less)
    );
}

#[test]
fn ordering_is_transitive_on_an_example() {
    let a = ratio(-7, 3);
    let b = ratio(1, 9);
    let c = ratio(5, 4);
    assert!(a < b);
    assert!(b < c);
    assert!(a < c);
}

#[test]
fn equality_ignores_form_and_exactness() {
    assert_eq!(ratio(2, 4), ratio(1, 2));
    assert_ne!(ratio(2, 4), ratio(1, 3));
    assert_eq!(ratio(0, 4), -ratio(0, 7));
    let mut approx_three = BigRat::approx_pi();
    approx_three = approx_three * BigRat::from(0) + BigRat::from(3);
    assert!(!approx_three.is_exact());
    assert_eq!(approx_three, BigRat::from(3));
}

#[test]
fn rendering_of_an_integer_ratio() {
    assert_eq!(ratio(4, 2).to_string(), "2");
    assert_eq!(BigRat::from(0).to_string(), "0");
    assert_eq!(BigRat::from(-12).to_string(), "-12");
}

#[test]
fn rendering_of_a_terminating_fraction() {
    assert_eq!(ratio(1, 4).to_string(), "0.25");
    assert_eq!(ratio(1, 8).to_string(), "0.125");
    assert_eq!(ratio(25, 2).to_string(), "12.5");
    assert_eq!(ratio(1, 1024).to_string(), "0.0009765625");
}

#[test]
fn rendering_of_a_terminating_fraction_is_not_cut_at_ten_digits() {
    let x = BigRat::from(1).div(BigRat::from(2).pow(BigRat::from(20)).unwrap()).unwrap();
    assert_eq!(x.to_string(), "0.00000095367431640625");
}

#[test]
fn rendering_of_an_exact_fraction_that_does_not_terminate() {
    assert_eq!(ratio(1, 3).to_string(), "1/3, approx. 0.3333333333");
    assert_eq!(ratio(2, 6).to_string(), "1/3, approx. 0.3333333333");
    assert_eq!(ratio(22, 7).to_string(), "22/7, approx. 3.1428571428");
}

#[test]
fn rendering_of_negative_values() {
    assert_eq!((-ratio(1, 4)).to_string(), "-0.25");
    assert_eq!(ratio(-1, 3).to_string(), "-1/3, approx. -0.3333333333");
}

#[test]
fn rendering_of_the_approximation_of_pi() {
    assert_eq!(BigRat::approx_pi().to_string(), "approx. 3.1415926535");
    assert_eq!((-BigRat::approx_pi()).to_string(), "approx. -3.1415926535");
}

#[test]
fn rendering_of_an_inexact_integer_and_terminating_fraction() {
    let zero = BigRat::approx_pi() * BigRat::from(0);
    assert_eq!(zero.to_string(), "approx. 0");
    let quarter = zero + ratio(1, 4);
    assert_eq!(quarter.to_string(), "approx. 0.25");
}

#[test]
fn approximation_of_pi_holds_its_fraction() {
    let pi = BigRat::approx_pi();
    assert_eq!(
        parts(&pi),
        (Sign::Positive, "1068966896".to_string(), "340262731".to_string(), false)
    );
}

#[test]
fn termination_in_base_ten() {
    assert!(ratio(1, 4).terminates_in_base(BigUint::from_u64(10)));
    assert!(ratio(1, 8).terminates_in_base(BigUint::from_u64(10)));
    assert!(!ratio(1, 3).terminates_in_base(BigUint::from_u64(10)));
    assert!(!ratio(1, 6).terminates_in_base(BigUint::from_u64(10)));
    assert!(ratio(3, 6).terminates_in_base(BigUint::from_u64(10)));
    assert!(BigRat::from(7).terminates_in_base(BigUint::from_u64(10)));
}

#[test]
fn termination_in_other_bases() {
    assert!(ratio(1, 3).terminates_in_base(BigUint::from_u64(3)));
    assert!(ratio(1, 9).terminates_in_base(BigUint::from_u64(6)));
    assert!(!ratio(1, 5).terminates_in_base(BigUint::from_u64(2)));
    assert!(!ratio(1, 2).terminates_in_base(BigUint::from_u64(1)));
    assert!(ratio(4, 2).terminates_in_base(BigUint::from_u64(1)));
    assert!(ratio(1, 7).terminates_in_base(BigUint::from_u64(0)));
}

#[test]
fn digit_accumulation_from_zero() {
    let mut x = BigRat::from(0);
    x.add_decimal_digit(3);
    x.add_decimal_digit(1);
    x.add_decimal_digit(4);
    assert_eq!(parts(&x), (Sign::Positive, "314".to_string(), "1000".to_string(), true));
}

#[test]
fn digit_accumulation_after_an_integer_part() {
    let mut x = BigRat::from(3);
    x.add_decimal_digit(1);
    x.add_decimal_digit(4);
    assert_eq!(parts(&x), (Sign::Positive, "314".to_string(), "100".to_string(), true));
    assert_eq!(x, ratio(314, 100));
    assert_eq!(x.to_string(), "3.14");
}

#[test]
fn clone_keeps_the_value() {
    let x = ratio(-6, 8);
    let y = x.clone();
    assert_eq!(parts(&x), parts(&y));
}
