use slippy::decimal::{Comparison, Decimal};

fn dec(text: &str) -> Decimal {
    Decimal::parse(text).expect("a decimal")
}

#[test]
fn decimal_needs_digits_and_a_point() {
    assert!(Decimal::parse("1.5").is_some());
    assert!(Decimal::parse("1.").is_some());
    assert!(Decimal::parse("15").is_none());
    assert!(Decimal::parse(".5").is_none());
    assert!(Decimal::parse("").is_none());
    assert!(Decimal::parse("1.5.2").is_none());
    assert!(Decimal::parse("1.5a").is_none());
    assert!(Decimal::parse("-1.5").is_none());
    assert!(Decimal::from_chars(&['4', '.', '2']).is_some());
    assert!(Decimal::from_chars(&['4', '2']).is_none());
}

#[test]
fn decimal_drops_needless_zeros() {
    assert_eq!(dec("001.500"), dec("1.5"));
    assert_eq!(dec("0.0"), dec("000.000"));
    assert_eq!(dec("1.500").to_string(), "1.5");
    assert_eq!(dec("0.50").to_string(), "0.5");
    assert_eq!(dec("000.0").to_string(), "0.0");
    assert!(dec("1.5") != dec("1.05"));
    assert!(dec("10.5") != dec("1.5"));
}

#[test]
fn decimal_truncates_to_its_whole_part() {
    assert_eq!(dec("0.99").trunc(), 0);
    assert_eq!(dec("12.99").trunc(), 12);
    assert_eq!(dec("2147483647.5").trunc(), i32::MAX);
    assert_eq!(dec("2147483648.5").trunc(), i32::MAX);
    assert_eq!(dec("99999999999999999999.0").trunc(), i32::MAX);
}

#[test]
fn decimal_orders_by_value() {
    assert_eq!(dec("1.5").compare(&dec("1.5")), Comparison::Equal);
    assert_eq!(dec("1.5").compare(&dec("1.50")), Comparison::Equal);
    assert_eq!(dec("1.5").compare(&dec("2.5")), Comparison::Less);
    assert_eq!(dec("9.9").compare(&dec("10.0")), Comparison::Less);
    assert_eq!(dec("10.0").compare(&dec("9.9")), Comparison::Greater);
    assert_eq!(dec("1.25").compare(&dec("1.3")), Comparison::Less);
    assert_eq!(dec("1.3").compare(&dec("1.25")), Comparison::Greater);
    assert_eq!(dec("1.2").compare(&dec("1.25")), Comparison::Less);
    assert_eq!(dec("0.5").compare(&dec("0.0")), Comparison::Greater);
}

#[test]
fn decimal_clone_is_equal() {
    let d = dec("3.14");
    assert_eq!(d.clone(), d);
}
