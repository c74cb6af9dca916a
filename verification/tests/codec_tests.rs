use tier_cache::codec::encode_decimal;
use tier_cache::codec::key_from_le_bytes;
use tier_cache::codec::key_to_le_bytes;
use tier_cache::codec::parse_decimal;

#[test]
fn encode_decimal_basic() {
    assert_eq!(encode_decimal(0), b"0".to_vec());
    assert_eq!(encode_decimal(7), b"7".to_vec());
    assert_eq!(encode_decimal(1031), b"1031".to_vec());
    assert_eq!(encode_decimal(u64::MAX), b"18446744073709551615".to_vec());
}

#[test]
fn parse_decimal_round_trip() {
    for k in [0u64, 1, 7, 9, 10, 1023, 1024, 1031, 123_456_789, u64::MAX] {
        assert_eq!(parse_decimal(&encode_decimal(k)), Some(k));
    }
}

#[test]
fn parse_decimal_rejects_noncanonical() {
    assert_eq!(parse_decimal(&b"".to_vec()), None);
    assert_eq!(parse_decimal(&b"007".to_vec()), None);
    assert_eq!(parse_decimal(&b"12a".to_vec()), None);
    assert_eq!(parse_decimal(&b"-3".to_vec()), None);
    assert_eq!(parse_decimal(&b"1031.tmp".to_vec()), None);
    // one past u64::MAX overflows
    assert_eq!(parse_decimal(&b"18446744073709551616".to_vec()), None);
    // the maximum itself parses
    assert_eq!(parse_decimal(&b"18446744073709551615".to_vec()), Some(u64::MAX));
}

#[test]
fn le_bytes_round_trip() {
    let b = key_to_le_bytes(0x0102_0304_0506_0708);
    assert_eq!(b, vec![8, 7, 6, 5, 4, 3, 2, 1]);
    assert_eq!(key_from_le_bytes(&b), Some(0x0102_0304_0506_0708));
    for k in [0u64, 1, 255, 256, u64::MAX] {
        assert_eq!(key_from_le_bytes(&key_to_le_bytes(k)), Some(k));
    }
    assert_eq!(key_from_le_bytes(&vec![1, 2, 3]), None);
}
