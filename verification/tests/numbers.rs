use respkv::command::parse_timeout_ms;
use respkv::num::{parse_i64, parse_u64};

#[test]
fn parse_u64_accepts_digits_and_one_plus() {
    assert_eq!(parse_u64(b"0"), Some(0));
    assert_eq!(parse_u64(b"123"), Some(123));
    assert_eq!(parse_u64(b"+123"), Some(123));
    assert_eq!(parse_u64(b"007"), Some(7));
    assert_eq!(parse_u64(b"18446744073709551615"), Some(u64::MAX));
}

#[test]
fn parse_u64_rejects_the_rest() {
    assert_eq!(parse_u64(b""), None);
    assert_eq!(parse_u64(b"+"), None);
    assert_eq!(parse_u64(b"-1"), None);
    assert_eq!(parse_u64(b"12a"), None);
    assert_eq!(parse_u64(b" 1"), None);
    assert_eq!(parse_u64(b"18446744073709551616"), None);
    assert_eq!(parse_u64(b"++1"), None);
}

#[test]
fn parse_i64_handles_signs_and_bounds() {
    assert_eq!(parse_i64(b"0"), Some(0));
    assert_eq!(parse_i64(b"-1"), Some(-1));
    assert_eq!(parse_i64(b"+25"), Some(25));
    assert_eq!(parse_i64(b"9223372036854775807"), Some(i64::MAX));
    assert_eq!(parse_i64(b"-9223372036854775808"), Some(i64::MIN));
    assert_eq!(parse_i64(b"9223372036854775808"), None);
    assert_eq!(parse_i64(b"-9223372036854775809"), None);
    assert_eq!(parse_i64(b""), None);
    assert_eq!(parse_i64(b"-"), None);
    assert_eq!(parse_i64(b"1.5"), None);
}

#[test]
fn timeouts_read_in_decimal_seconds() {
    assert_eq!(parse_timeout_ms(b"0"), Some(0));
    assert_eq!(parse_timeout_ms(b"1"), Some(1000));
    assert_eq!(parse_timeout_ms(b"1.5"), Some(1500));
    assert_eq!(parse_timeout_ms(b"0.25"), Some(250));
    assert_eq!(parse_timeout_ms(b".5"), Some(500));
    assert_eq!(parse_timeout_ms(b"2."), Some(2000));
    assert_eq!(parse_timeout_ms(b"+1.5"), Some(1500));
    // Digits beyond the millisecond are cut off.
    assert_eq!(parse_timeout_ms(b"0.1239"), Some(123));
    assert_eq!(parse_timeout_ms(b"0.999999"), Some(999));
}

#[test]
fn malformed_timeouts_are_rejected() {
    assert_eq!(parse_timeout_ms(b""), None);
    assert_eq!(parse_timeout_ms(b"."), None);
    assert_eq!(parse_timeout_ms(b"-1"), None);
    assert_eq!(parse_timeout_ms(b"1.5.2"), None);
    assert_eq!(parse_timeout_ms(b"abc"), None);
    assert_eq!(parse_timeout_ms(b"1e3"), None);
}
