use nudl::text::{decimal_string, parse_signed, parse_unsigned, signed_decimal_string, str_eq, zero_padded_string};

#[test]
fn decimal_text() {
    assert_eq!(decimal_string(0), "0");
    assert_eq!(decimal_string(1234567890), "1234567890");
    assert_eq!(decimal_string(u64::MAX), "18446744073709551615");
    assert_eq!(signed_decimal_string(-123), "-123");
    assert_eq!(signed_decimal_string(i64::MIN), "-9223372036854775808");
    assert_eq!(zero_padded_string(7, 3), "007");
    assert_eq!(zero_padded_string(1234, 3), "1234");
}

#[test]
fn parsing_like_str_parse() {
    assert_eq!(parse_unsigned("42", 255), Some(42));
    assert_eq!(parse_unsigned("+42", 255), Some(42));
    assert_eq!(parse_unsigned("256", 255), None);
    assert_eq!(parse_unsigned("", 255), None);
    assert_eq!(parse_unsigned("+", 255), None);
    assert_eq!(parse_unsigned("-1", 255), None);
    assert_eq!(parse_unsigned(" 1", 255), None);
    assert_eq!(parse_unsigned("18446744073709551615", u64::MAX), Some(u64::MAX));
    assert_eq!(parse_unsigned("18446744073709551616", u64::MAX), None);
    assert_eq!(parse_signed("-2147483648", i32::MIN as i64, i32::MAX as i64), Some(i32::MIN as i64));
    assert_eq!(parse_signed("-2147483649", i32::MIN as i64, i32::MAX as i64), None);
    assert_eq!(parse_signed("-", i64::MIN, i64::MAX), None);
    assert_eq!(parse_signed("-9223372036854775808", i64::MIN, i64::MAX), Some(i64::MIN));
    assert_eq!(parse_signed("+5", -10, 10), Some(5));
    assert!(str_eq("abc", "abc"));
    assert!(!str_eq("abc", "abd"));
}
