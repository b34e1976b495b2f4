use calc_core::sign::Sign;

#[test]
fn flip_toggles_the_sign() {
    assert_eq!(Sign::Positive.flip(), Sign::Negative);
    assert_eq!(Sign::Negative.flip(), Sign::Positive);
    assert_eq!(Sign::Negative.flip().flip(), Sign::Negative);
}

#[test]
fn sign_of_product_table() {
    assert_eq!(Sign::sign_of_product(Sign::Positive, Sign::Positive), Sign::Positive);
    assert_eq!(Sign::sign_of_product(Sign::Positive, Sign::Negative), Sign::Negative);
    assert_eq!(Sign::sign_of_product(Sign::Negative, Sign::Positive), Sign::Negative);
    assert_eq!(Sign::sign_of_product(Sign::Negative, Sign::Negative), Sign::Positive);
}
