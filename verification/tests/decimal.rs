use rsstable::sst::decimal::{decimal_digits, decimal_string, parse_u64, signed_string};

#[test]
fn numbers_are_spelled_in_decimal() {
    assert_eq!(decimal_string(0), "0");
    assert_eq!(decimal_string(7), "7");
    assert_eq!(decimal_string(10), "10");
    assert_eq!(decimal_string(464), "464");
    assert_eq!(decimal_string(u64::MAX), "18446744073709551615");
    assert_eq!(decimal_digits(944), b"944".to_vec());
}

#[test]
fn decimal_numbers_are_read() {
    assert_eq!(parse_u64(b"0"), Some(0));
    assert_eq!(parse_u64(b"464"), Some(464));
    assert_eq!(parse_u64(b"007"), Some(7));
    assert_eq!(parse_u64(b"18446744073709551615"), Some(u64::MAX));
}

#[test]
fn what_is_no_number_is_not_read() {
    assert_eq!(parse_u64(b""), None);
    assert_eq!(parse_u64(b"12a"), None);
    assert_eq!(parse_u64(b"+12"), None);
    assert_eq!(parse_u64(b"-1"), None);
    assert_eq!(parse_u64(b" 1"), None);
    assert_eq!(parse_u64(b"1\t2"), None);
    assert_eq!(parse_u64("\u{663}".as_bytes()), None);
}

#[test]
fn numbers_beyond_the_range_are_not_read() {
    assert_eq!(parse_u64(b"18446744073709551616"), None);
    assert_eq!(parse_u64(b"99999999999999999999"), None);
    assert_eq!(parse_u64(b"184467440737095516150"), None);
}

#[test]
fn spelled_numbers_read_back() {
    for n in [0u64, 1, 9, 10, 99, 100, 12_345, 1 << 32, u64::MAX - 1, u64::MAX] {
        assert_eq!(parse_u64(&decimal_digits(n)), Some(n));
        assert_eq!(parse_u64(decimal_string(n).as_bytes()), Some(n));
    }
}

#[test]
fn negative_numbers_are_spelled_with_a_sign() {
    assert_eq!(signed_string(0), "0");
    assert_eq!(signed_string(12), "12");
    assert_eq!(signed_string(-1), "-1");
    assert_eq!(signed_string(-120), "-120");
    assert_eq!(signed_string(i64::MAX), "9223372036854775807");
    assert_eq!(signed_string(i64::MIN), "-9223372036854775808");
}
