use silex::hex::{hex_decode, hex_encode, HexError};
use silex::text::{join_strs, push_padded, push_signed_decimal, short_hash, u64_to_decimal};

#[test]
fn decimal_of_zero_and_large_numbers() {
    assert_eq!(u64_to_decimal(0), "0");
    assert_eq!(u64_to_decimal(12345), "12345");
    assert_eq!(u64_to_decimal(u64::MAX), "18446744073709551615");
}

#[test]
fn signed_decimal_of_extremes() {
    let mut s = String::new();
    push_signed_decimal(&mut s, i64::MIN);
    assert_eq!(s, "-9223372036854775808");
    let mut t = String::from("#");
    push_signed_decimal(&mut t, 42);
    assert_eq!(t, "#42");
}

#[test]
fn padding_matches_format_width() {
    let mut s = String::new();
    push_padded(&mut s, "ab", 4);
    assert_eq!(s, format!("{:<4}", "ab"));
    let mut t = String::new();
    push_padded(&mut t, "abcdef", 4);
    assert_eq!(t, "abcdef");
    let mut u = String::new();
    push_padded(&mut u, "é", 3);
    assert_eq!(u, format!("{:<3}", "é"));
}

#[test]
fn short_hash_takes_seven_bytes() {
    assert_eq!(short_hash("0123456789abcdef"), "0123456");
    assert_eq!(short_hash("abcdefg"), "abcdefg");
}

#[test]
fn join_strs_joins() {
    assert_eq!(join_strs("feature/", "login"), "feature/login");
}

#[test]
fn hex_encode_lower_case() {
    assert_eq!(hex_encode(&[0xde, 0xad, 0x01, 0xff]), "dead01ff");
    assert_eq!(hex_encode(&[]), "");
}

#[test]
fn hex_decode_both_cases() {
    assert_eq!(hex_decode("DEad01ff"), Ok(vec![0xde, 0xad, 0x01, 0xff]));
    assert_eq!(hex_decode(""), Ok(vec![]));
}

#[test]
fn hex_decode_odd_length() {
    assert_eq!(hex_decode("abc"), Err(HexError::OddLength));
}

#[test]
fn hex_decode_invalid_character() {
    assert_eq!(hex_decode("zz"), Err(HexError::InvalidHexCharacter { byte: b'z', index: 0 }));
    assert_eq!(hex_decode("0g12"), Err(HexError::InvalidHexCharacter { byte: b'g', index: 1 }));
    assert_eq!(hex_decode("0é1"), Err(HexError::InvalidHexCharacter { byte: 0xc3, index: 1 }));
}

#[test]
fn hex_round_trip() {
    let bytes: Vec<u8> = (0..=255u8).collect();
    let text = hex_encode(&bytes);
    assert_eq!(text.len(), 512);
    assert_eq!(hex_decode(&text), Ok(bytes));
}
