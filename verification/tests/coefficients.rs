use gristmill_rewrites::order::compare_coefficients;
use gristmill_rewrites::Coefficient;

fn ratio(numer: i64, denom: i64) -> Coefficient {
    Coefficient::new(numer, denom)
}

#[test]
fn fractions_are_kept_in_lowest_terms() {
    assert_eq!(ratio(2, 4), ratio(1, 2));
    assert_eq!(ratio(2, 4).to_text(), "1/2");
    assert_eq!(ratio(1, -2).to_text(), "-1/2");
    assert_eq!(ratio(6, 3), Coefficient::from_integer(2));
    assert_eq!(Coefficient::from_integer(-3).to_text(), "-3");
}

#[test]
fn arithmetic_is_exact() {
    assert_eq!(ratio(1, 2).add(&ratio(1, 3)), ratio(5, 6));
    assert_eq!(ratio(2, 3).mul(&ratio(3, 4)), ratio(1, 2));
    assert_eq!(ratio(1, 2).div(&ratio(1, 4)), Coefficient::from_integer(2));
    assert_eq!(ratio(3, 2).neg(), ratio(-3, 2));
    assert_eq!(ratio(1, 2).add(&ratio(-1, 2)), Coefficient::from_integer(0));
}

#[test]
fn zero_and_order_are_numeric() {
    assert!(Coefficient::from_integer(0).is_zero());
    assert!(ratio(0, 7).is_zero());
    assert!(!ratio(1, 3).is_zero());
    assert!(ratio(1, 3).less_than(&ratio(1, 2)));
    assert!(!ratio(1, 2).less_than(&ratio(1, 3)));
    assert!(ratio(-1, 2).less_than(&ratio(1, 3)));
    assert_eq!(compare_coefficients(&ratio(1, 3), &ratio(1, 2)), -1);
    assert_eq!(compare_coefficients(&ratio(1, 2), &ratio(1, 3)), 1);
    assert_eq!(compare_coefficients(&ratio(2, 4), &ratio(1, 2)), 0);
}

#[test]
fn parses_exact_text() {
    assert_eq!(Coefficient::parse("-3/2"), Some(ratio(-3, 2)));
    assert_eq!(Coefficient::parse("4/6"), Some(ratio(2, 3)));
    assert_eq!(Coefficient::parse("7"), Some(Coefficient::from_integer(7)));
    assert_eq!(Coefficient::parse("3/0"), None);
    assert_eq!(Coefficient::parse("three"), None);
    let text = ratio(-5, 3).to_text();
    assert_eq!(Coefficient::parse(&text), Some(ratio(-5, 3)));
}

#[test]
fn equality_compares_representations() {
    assert!(ratio(2, 4).equals(&ratio(1, 2)));
    assert!(!ratio(1, 2).equals(&ratio(1, 3)));
    assert!(ratio(1, 2).clone().equals(&ratio(1, 2)));
}

#[test]
fn equal_values_have_equal_bytes() {
    assert!(Coefficient::from_integer(1).equals(&ratio(2, 2)));
    assert!(ratio(2, 1).add(&ratio(3, 1)).equals(&Coefficient::from_integer(5)));
    assert!(ratio(-256, 2).equals(&Coefficient::from_integer(-128)));
    assert!(ratio(129, -1).equals(&Coefficient::from_integer(-129)));
    assert!(ratio(255, 1).mul(&ratio(256, 255)).equals(&Coefficient::from_integer(256)));
    assert!(!ratio(1, 3).equals(&ratio(2, 3)));
}
