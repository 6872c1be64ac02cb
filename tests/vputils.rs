use vpcalc::vputils::{decimal_filter, s_to_int, s_to_int_validation};

#[test]
fn t_s_to_int() {
    assert_eq!(s_to_int(""), None);
    assert_eq!(s_to_int("abc"), None);
    assert_eq!(s_to_int("abc-efg"), None);
    assert_eq!(s_to_int("abc-efg,."), None);
    assert_eq!(s_to_int("0"), Some(0));
    assert_eq!(s_to_int("5"), Some(5));
    assert_eq!(s_to_int("-5"), Some(-5));
    assert_eq!(s_to_int("-5,0"), Some(-50));
    assert_eq!(s_to_int("-5.0"), Some(-50));
    assert_eq!(s_to_int("-.5"), Some(-5));
    assert_eq!(s_to_int("-,5"), Some(-5));
    assert_eq!(s_to_int("abc-5"), Some(-5));
    assert_eq!(s_to_int("你es-5"), Some(-5));
    assert_eq!(s_to_int("abc-efg0123"), Some(-123));

    let mut is_valid = s_to_int_validation("-5").1;
    assert_eq!(is_valid, true);
    is_valid = s_to_int_validation("你es-5").1;
    assert_eq!(is_valid, false);
}

#[test]
fn s_to_int_limits() {
    assert_eq!(s_to_int("9223372036854775807"), Some(isize::MAX));
    assert_eq!(s_to_int("-9223372036854775808"), Some(isize::MIN));
    assert_eq!(s_to_int("9223372036854775808"), None);
    assert_eq!(s_to_int("-99999999999999999999999"), None);
    assert_eq!(s_to_int_validation("12-3"), (Some(123), false));
    assert_eq!(s_to_int_validation("-"), (None, false));
    assert_eq!(s_to_int_validation(""), (None, false));
}

#[test]
fn decimal_text_is_filtered() {
    assert_eq!(decimal_filter("-5,0"), ("-5.0".to_string(), true));
    assert_eq!(decimal_filter("abc-efg0123"), ("-0123".to_string(), false));
    assert_eq!(decimal_filter("1-2"), ("12".to_string(), false));
}
