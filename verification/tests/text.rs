use nsa::text::{i64_to_decimal, join_strings, parse_u64, str_eq, u64_to_decimal};

#[test]
fn decimal_formatting() {
    assert_eq!(u64_to_decimal(0), "0");
    assert_eq!(u64_to_decimal(1234567890), "1234567890");
    assert_eq!(u64_to_decimal(u64::MAX), u64::MAX.to_string());
    assert_eq!(i64_to_decimal(-42), "-42");
    assert_eq!(i64_to_decimal(i64::MIN), i64::MIN.to_string());
}

#[test]
fn parse_u64_matches_std() {
    for s in ["", "+", "-1", "0", "+7", "12a", "18446744073709551615", "18446744073709551616", " 1", "007"] {
        assert_eq!(parse_u64(s), s.parse::<u64>().ok(), "{:?}", s);
    }
}

#[test]
fn join_and_eq() {
    let parts = vec!["a".to_string(), "bc".to_string()];
    assert_eq!(join_strings(&parts, "\n"), "a\nbc");
    assert_eq!(join_strings(&vec![], "\n"), "");
    assert!(str_eq("ü", "ü"));
    assert!(!str_eq("u", "ü"));
}
