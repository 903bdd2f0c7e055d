//! File identifier hex conversions.

use backupfs::hexid::parse_hex_id;

#[test]
fn hex_decode_then_encode_is_identity() {
    let s = "0123456789abcdef0123456789abcdef01234567";
    let id = parse_hex_id(s).expect("valid id");
    assert_eq!(id.as_stringid().as_str(), s);
}

#[test]
fn hex_encode_of_known_bytes() {
    let s = "00ff10a5000000000000000000000000000000ff";
    let id = parse_hex_id(s).expect("valid id");
    assert_eq!(id.0[0], 0x00);
    assert_eq!(id.0[1], 0xff);
    assert_eq!(id.0[2], 0x10);
    assert_eq!(id.0[3], 0xa5);
    assert_eq!(id.0[19], 0xff);
    assert_eq!(id.as_stringid().as_str(), s);
}

#[test]
fn hex_uppercase_is_accepted_and_lowercased() {
    let s = "0123456789ABCDEF0123456789ABCDEF01234567";
    let id = parse_hex_id(s).expect("valid id");
    assert_eq!(
        id.as_stringid().as_str(),
        "0123456789abcdef0123456789abcdef01234567"
    );
}

#[test]
fn hex_wrong_length_rejected() {
    assert!(parse_hex_id("abc").is_none());
    assert!(parse_hex_id("").is_none());
    assert!(parse_hex_id("0123456789abcdef0123456789abcdef0123456").is_none());
    assert!(parse_hex_id("0123456789abcdef0123456789abcdef012345678").is_none());
}

#[test]
fn hex_bad_digit_rejected() {
    assert!(parse_hex_id("0123456789abcdef0123456789abcdef0123456g").is_none());
    assert!(parse_hex_id("z123456789abcdef0123456789abcdef01234567").is_none());
}
