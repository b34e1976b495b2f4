use calc_core::decimal::digit_str;
use calc_core::limb_arith::{
    add_limbs, compare_limbs, divmod_small, limb_or_zero, mul_small_add, shift_limb, sub_limbs,
    trim,
};
use calc_core::order::Comparison;

#[test]
fn trim_drops_zero_limbs_at_the_top_only() {
    assert_eq!(trim(vec![0, 7, 0, 0]), vec![0, 7]);
    assert_eq!(trim(vec![0, 0]), Vec::<u32>::new());
    assert_eq!(trim(vec![1]), vec![1]);
    assert_eq!(trim(vec![]), Vec::<u32>::new());
}

#[test]
fn limbs_past_the_end_are_zero() {
    let v = vec![5, 6];
    assert_eq!(limb_or_zero(&v, 0), 5);
    assert_eq!(limb_or_zero(&v, 1), 6);
    assert_eq!(limb_or_zero(&v, 2), 0);
}

#[test]
fn limb_addition_carries() {
    let sum = trim(add_limbs(&vec![u32::MAX, u32::MAX], &vec![1]));
    assert_eq!(sum, vec![0, 0, 1]);
    let sum = trim(add_limbs(&vec![1], &vec![u32::MAX, u32::MAX]));
    assert_eq!(sum, vec![0, 0, 1]);
    assert_eq!(trim(add_limbs(&vec![], &vec![])), Vec::<u32>::new());
}

#[test]
fn limb_subtraction_borrows() {
    let diff = trim(sub_limbs(&vec![0, 0, 1], &vec![1]));
    assert_eq!(diff, vec![u32::MAX, u32::MAX]);
    assert_eq!(trim(sub_limbs(&vec![3, 4], &vec![3, 4])), Vec::<u32>::new());
}

#[test]
fn limb_multiplication_by_a_small_factor() {
    let p = trim(mul_small_add(&vec![u32::MAX, u32::MAX], u32::MAX, u32::MAX));
    // (2^64 - 1) * (2^32 - 1) + (2^32 - 1) = 2^96 - 2^64
    assert_eq!(p, vec![0, 0, u32::MAX]);
    assert_eq!(trim(mul_small_add(&vec![], 9, 5)), vec![5]);
}

#[test]
fn limb_shift_multiplies_by_the_radix() {
    assert_eq!(shift_limb(&vec![1, 2]), vec![0, 1, 2]);
}

#[test]
fn limb_comparison() {
    assert_eq!(compare_limbs(&vec![9], &vec![0, 1]), Comparison::Less);
    assert_eq!(compare_limbs(&vec![0, 2], &vec![u32::MAX, 1]), Comparison::Greater);
    assert_eq!(compare_limbs(&vec![1, 2, 3], &vec![1, 2, 3]), Comparison::Equal);
    assert_eq!(compare_limbs(&vec![], &vec![]), Comparison::Equal);
}

#[test]
fn limb_division_by_a_small_divisor() {
    // 2^64 = 3 * 6148914691236517205 + 1
    let (q, r) = divmod_small(&vec![0, 0, 1], 3);
    assert_eq!(trim(q), vec![0x5555_5555, 0x5555_5555]);
    assert_eq!(r, 1);
    let (q, r) = divmod_small(&vec![], 7);
    assert_eq!(trim(q), Vec::<u32>::new());
    assert_eq!(r, 0);
}

#[test]
fn texts_of_the_digits() {
    let all: Vec<&str> = (0..10).map(digit_str).collect();
    assert_eq!(all, vec!["0", "1", "2", "3", "4", "5", "6", "7", "8", "9"]);
}
