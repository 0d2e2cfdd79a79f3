use sample_project::numerals::{parse_u64, render_u64};

#[test]
fn renders_zero() {
    assert_eq!(render_u64(0), b"0".to_vec());
}

#[test]
fn renders_digits_most_significant_first() {
    assert_eq!(render_u64(12345), b"12345".to_vec());
    assert_eq!(render_u64(1577836800), b"1577836800".to_vec());
}

#[test]
fn parse_inverts_render() {
    for n in [0u64, 1, 9, 10, 99, 100, 12345, 1577836800, u64::MAX] {
        assert_eq!(parse_u64(&render_u64(n)), Some(n));
    }
}

#[test]
fn parse_accepts_the_largest_value() {
    assert_eq!(parse_u64(b"18446744073709551615"), Some(u64::MAX));
}

#[test]
fn parse_rejects_non_numerals() {
    assert_eq!(parse_u64(b""), None);
    assert_eq!(parse_u64(b"0123"), None);
    assert_eq!(parse_u64(b"12a"), None);
    assert_eq!(parse_u64(b"-5"), None);
    assert_eq!(parse_u64(b"18446744073709551616"), None);
}
