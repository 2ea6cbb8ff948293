use nifty_strategy::bars::MAX_PRICE;
use nifty_strategy::codec::{format_fixed4, format_signal, parse_fixed4, parse_signal, FIXED4_LIMIT};

#[test]
fn price_text_has_four_decimals() {
    assert_eq!(format_fixed4(1_025_000), b"102.5000".to_vec());
    assert_eq!(format_fixed4(-5), b"-0.0005".to_vec());
    assert_eq!(format_fixed4(0), b"0.0000".to_vec());
    assert_eq!(format_fixed4(123_456_789), b"12345.6789".to_vec());
    assert_eq!(format_fixed4(-250_000), b"-25.0000".to_vec());
}

#[test]
fn price_text_reads_back() {
    assert_eq!(parse_fixed4(b"102.5000"), Some(1_025_000));
    assert_eq!(parse_fixed4(b"-0.0005"), Some(-5));
    assert_eq!(parse_fixed4(b"0012.0300"), Some(120_300));
    assert_eq!(parse_fixed4(b"1000000000.0000"), Some(MAX_PRICE));
    assert_eq!(parse_fixed4(b"-1000000000.0000"), Some(-MAX_PRICE));
    assert_eq!(parse_fixed4(b"2000000000.0000"), Some(2 * MAX_PRICE));
    assert_eq!(parse_fixed4(b"10000000000000.0000"), Some(FIXED4_LIMIT));
}

#[test]
fn price_text_rejects_other_forms() {
    assert_eq!(parse_fixed4(b"102.5"), None);
    assert_eq!(parse_fixed4(b"1.00000"), None);
    assert_eq!(parse_fixed4(b".1234"), None);
    assert_eq!(parse_fixed4(b"-.1234"), None);
    assert_eq!(parse_fixed4(b"1a.0000"), None);
    assert_eq!(parse_fixed4(b"12.00x0"), None);
    assert_eq!(parse_fixed4(b""), None);
    assert_eq!(parse_fixed4(b"10000000000000.0001"), None);
    assert_eq!(parse_fixed4(b"-10000000000000.0001"), None);
    assert_eq!(parse_fixed4(b"99999999999999999999.0000"), None);
}

#[test]
fn price_round_trip_on_many_values() {
    for v in [0i64, 1, -1, 9999, 10000, -10001, 987_654_321, MAX_PRICE, -MAX_PRICE, 2 * MAX_PRICE, -2 * MAX_PRICE, FIXED4_LIMIT, -FIXED4_LIMIT] {
        assert_eq!(parse_fixed4(&format_fixed4(v)), Some(v));
    }
}

#[test]
fn signal_text_round_trip() {
    assert_eq!(format_signal(-1), b"-1".to_vec());
    assert_eq!(format_signal(1), b"1".to_vec());
    assert_eq!(format_signal(0), b"0".to_vec());
    for s in [-1i8, 0, 1] {
        assert_eq!(parse_signal(&format_signal(s)), Some(s));
    }
    assert_eq!(parse_signal(b"2"), None);
    assert_eq!(parse_signal(b"+1"), None);
    assert_eq!(parse_signal(b""), None);
}
