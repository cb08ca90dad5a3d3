use rev::hex::{digit, digit_value, Hex};

#[test]
fn test_hex_round_trip() {
    let example: &[u8] = b"hello, world";
    let hex: Hex = Hex::from(example);
    let bytes: Vec<u8> = hex.into();
    let bytes_ref: &[u8] = &bytes;
    assert_eq!(example, bytes_ref);
}

#[test]
fn test_hex_deserialize() {
    let example: &[u8] = b"hello, world";
    let hex: Hex = Hex::from(example);
    let text = hex.to_string();
    let json = serde_json::to_vec(&text).unwrap();
    let text_: String = serde_json::from_slice(&json).unwrap();
    let hex_: Hex = Hex::from_text(text_.into_bytes()).unwrap();
    assert_eq!(hex, hex_);
}

#[test]
fn hex_text_is_lowercase_two_digits_per_byte() {
    let hex = Hex::from(&[0x00u8, 0x0f, 0xa5, 0xff][..]);
    assert_eq!(hex.as_text().as_slice(), b"000fa5ff");
    let hello = Hex::from(&b"hello"[..]);
    assert_eq!(hello.as_text().as_slice(), b"68656c6c6f");
}

#[test]
fn hex_text_as_a_string() {
    let hex = Hex::from(&b"hello, world"[..]);
    assert_eq!(hex.to_string(), "68656c6c6f2c20776f726c64");
    assert_eq!(Hex::from(&b""[..]).to_string(), "");
}

#[test]
fn hex_of_nothing_is_empty() {
    let hex = Hex::from(&b""[..]);
    assert!(hex.as_text().is_empty());
    assert_eq!(hex.to_bytes(), Vec::<u8>::new());
}

#[test]
fn hex_decodes_every_byte_value() {
    let all: Vec<u8> = (0..=255u8).collect();
    let hex = Hex::from(&all[..]);
    assert_eq!(hex.as_text().len(), 512);
    assert_eq!(hex.to_bytes(), all);
}

#[test]
fn hex_from_text_rejects_odd_length() {
    assert!(Hex::from_text(b"abc".to_vec()).is_none());
}

#[test]
fn hex_from_text_rejects_other_characters() {
    assert!(Hex::from_text(b"0g".to_vec()).is_none());
    assert!(Hex::from_text(b"AB".to_vec()).is_none());
    assert!(Hex::from_text(b" 1".to_vec()).is_none());
}

#[test]
fn hex_from_text_keeps_well_formed_text() {
    let hex = Hex::from_text(b"00ff10".to_vec()).unwrap();
    assert_eq!(hex.as_text().as_slice(), b"00ff10");
    assert_eq!(hex.to_bytes(), vec![0x00, 0xff, 0x10]);
    assert_eq!(hex.clone(), hex);
}

#[test]
fn hex_digits() {
    assert_eq!(digit(0), b'0');
    assert_eq!(digit(9), b'9');
    assert_eq!(digit(10), b'a');
    assert_eq!(digit(15), b'f');
    assert_eq!(digit_value(b'0'), Some(0));
    assert_eq!(digit_value(b'9'), Some(9));
    assert_eq!(digit_value(b'a'), Some(10));
    assert_eq!(digit_value(b'f'), Some(15));
    assert_eq!(digit_value(b'g'), None);
    assert_eq!(digit_value(b'A'), None);
    assert_eq!(digit_value(b'/'), None);
    assert_eq!(digit_value(b':'), None);
}
