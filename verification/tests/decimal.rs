use lib::decimal::Decimal;
use lib::order::Order;

fn text_of(d: &Decimal, debug: bool) -> String {
    let mut s = String::new();
    d.write_to(&mut s, debug);
    s
}

#[test]
fn decimal_text_is_an_optional_sign_digits_and_a_fraction() {
    for good in ["0", "007", "-0.50", "12.5", "-12.5", "100000000000000000000000.000001"] {
        assert!(Decimal::from_text(good).is_some(), "{good}");
    }
    for bad in ["", "-", "+1", "1.", ".5", "-.5", "1.2.3", "1e5", "1,5", " 1", "--1"] {
        assert!(Decimal::from_text(bad).is_none(), "{bad}");
    }
}

#[test]
fn decimals_are_written_in_their_shortest_form() {
    let d = |t: &str| Decimal::from_text(t).expect("a decimal");
    assert_eq!(text_of(&d("007.500"), false), "7.5");
    assert_eq!(text_of(&d("007.500"), true), "7.5");
    assert_eq!(text_of(&d("3.000"), false), "3");
    assert_eq!(text_of(&d("3.000"), true), "3.0");
    assert_eq!(text_of(&d("-0.0"), false), "-0");
    assert_eq!(text_of(&d("0.05"), false), "0.05");
    assert_eq!(text_of(&Decimal::from_integer(-42), true), "-42.0");
    assert_eq!(text_of(&Decimal::from_integer(i64::MIN), false), "-9223372036854775808");
}

#[test]
fn decimals_compare_by_their_values() {
    let d = |t: &str| Decimal::from_text(t).expect("a decimal");
    assert_eq!(d("1.50").compare(&d("1.5")), Order::Equal);
    assert_eq!(d("1.05").compare(&d("1.5")), Order::Less);
    assert_eq!(d("-1.05").compare(&d("-1.5")), Order::Greater);
    assert_eq!(d("-0.00").compare(&d("0")), Order::Less);
    assert_eq!(d("-0.00").compare(&d("-0")), Order::Equal);
    assert_eq!(d("0.0").compare(&d("-0.000")), Order::Greater);
    assert_eq!(d("-0.01").compare(&d("0")), Order::Less);
    assert_eq!(d("99.9").compare(&d("100")), Order::Less);
    assert_eq!(d("0100").compare(&d("99.99")), Order::Greater);
    assert_eq!(
        Decimal::from_integer(25).compare(&d("25.0000000000000000000000001")),
        Order::Less
    );
}

#[test]
fn large_and_small_decimals_are_written_with_an_exponent_as_tokens() {
    let d = |t: &str| Decimal::from_text(t).expect("a decimal");
    assert_eq!(text_of(&d("10000000000000000.0"), true), "1e16");
    assert_eq!(text_of(&d("9999999999999999.0"), true), "9999999999999999.0");
    assert_eq!(text_of(&d("-123456789000000000.0"), true), "-1.23456789e17");
    assert_eq!(text_of(&d("0.0001"), true), "0.0001");
    assert_eq!(text_of(&d("0.000015"), true), "1.5e-5");
    assert_eq!(text_of(&d("-0.0"), true), "-0.0");
    assert_eq!(text_of(&d("10000000000000000.0"), false), "10000000000000000");
    assert_eq!(text_of(&d("0.000015"), false), "0.000015");
}

#[test]
fn decimals_are_equal_when_their_values_are() {
    let d = |t: &str| Decimal::from_text(t).expect("a decimal");
    assert_eq!(d("1.0"), d("1.00"));
    assert_eq!(d("007.50"), d("7.5"));
    assert_eq!(d("-0.0"), d("0.0"));
    assert_ne!(d("1.5"), d("1.05"));
    assert_ne!(d("-1.5"), d("1.5"));
    assert_eq!(Decimal::from_integer(3), d("3.000"));
}
