use calc_core::color::{str_equals, Base};

#[test]
fn names_of_the_eight_colors() {
    assert_eq!(Base::from_name("black"), Base::Black);
    assert_eq!(Base::from_name("red"), Base::Red);
    assert_eq!(Base::from_name("green"), Base::Green);
    assert_eq!(Base::from_name("yellow"), Base::Yellow);
    assert_eq!(Base::from_name("blue"), Base::Blue);
    assert_eq!(Base::from_name("magenta"), Base::Magenta);
    assert_eq!(Base::from_name("cyan"), Base::Cyan);
    assert_eq!(Base::from_name("white"), Base::White);
}

#[test]
fn purple_is_magenta() {
    assert_eq!(Base::from_name("purple"), Base::Magenta);
}

#[test]
fn colors_of_the_palette() {
    assert_eq!(Base::from_name("256:42"), Base::Color256(42));
    assert_eq!(Base::from_name("256:0"), Base::Color256(0));
    assert_eq!(Base::from_name("256:255"), Base::Color256(255));
    assert_eq!(Base::from_name("256:+7"), Base::Color256(7));
    assert_eq!(Base::from_name("256:007"), Base::Color256(7));
    assert_eq!(Base::from_name("256:0000000000000000000255"), Base::Color256(255));
}

#[test]
fn palette_numbers_that_do_not_read_are_unknown_names() {
    for name in ["256:256", "256:", "256:+", "256:-1", "256:4 2", "256:4a", "256: 42", "256:99999999999999999999"] {
        assert_eq!(Base::from_name(name), Base::Unknown(name.to_string()));
    }
}

#[test]
fn other_names_are_unknown() {
    for name in ["", "Black", "black ", "orange", "25", "255:1", "ΩΩΩΩΩ"] {
        assert_eq!(Base::from_name(name), Base::Unknown(name.to_string()));
    }
}

#[test]
fn unknown_name_is_handed_out() {
    assert_eq!(Base::from_name("orange").unknown_name(), Some(&"orange".to_string()));
    assert_eq!(Base::from_name("red").unknown_name(), None);
    assert_eq!(Base::from_name("256:1").unknown_name(), None);
}

#[test]
fn texts_are_compared_by_their_characters() {
    assert!(str_equals("", ""));
    assert!(str_equals("cyan", "cyan"));
    assert!(!str_equals("cyan", "cyaN"));
    assert!(!str_equals("cyan", "cya"));
    assert!(str_equals("grün", "grün"));
    assert!(!str_equals("grün", "grun"));
}

#[test]
fn clone_of_a_color() {
    assert_eq!(Base::from_name("orange").clone(), Base::Unknown("orange".to_string()));
    assert_eq!(Base::Color256(3).clone(), Base::Color256(3));
}
