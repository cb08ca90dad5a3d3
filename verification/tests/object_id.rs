use rev::object_id::{IdSet, MalformedIdentifier, ObjectId};
use rev::order::Place;

const EMPTY: &str = "af1349b9f5f9a1a6a0404dea36dcc9499bcb25c9adc112b7cc9a93cae41f3262";

#[test]
fn test_try_from() {
    let bytes: Vec<u8> = b"//! # Revision Control\n".to_vec();
    let object_id = ObjectId::from(&bytes);
    let object_id_prime = ObjectId::from(&bytes[..]);
    assert_eq!(object_id, object_id_prime);
}

#[test]
fn identifier_is_the_blake3_digest() {
    let data: &[u8] = b"hello, world";
    let id = ObjectId::of(data);
    assert_eq!(id.as_bytes(), blake3::hash(data).as_bytes());
    assert_ne!(&id.as_bytes()[..12], data);
}

#[test]
fn identifier_of_nothing() {
    let id = ObjectId::of(b"");
    assert_eq!(id.to_string(), EMPTY);
}

#[test]
fn identifier_is_stable() {
    let a = ObjectId::of(b"some bytes");
    let b = ObjectId::of(b"some bytes");
    let c = ObjectId::of(b"other bytes");
    assert_eq!(a, b);
    assert_ne!(a, c);
}

#[test]
fn identifier_text_round_trip() {
    let id = ObjectId::of(b"hi");
    let text = id.to_string();
    assert_eq!(text.len(), 64);
    assert!(text.bytes().all(|c| c.is_ascii_digit() || (b'a'..=b'f').contains(&c)));
    assert_eq!(ObjectId::from_hex(text.as_bytes()), Ok(id));
    assert_eq!(id.to_hex().as_text().as_slice(), text.as_bytes());
}

#[test]
fn identifier_from_hex_of_nothing() {
    let id = ObjectId::from_hex(EMPTY.as_bytes()).unwrap();
    assert_eq!(id, ObjectId::of(b""));
}

#[test]
fn identifier_from_hex_rejects_odd_length() {
    let text = &EMPTY[..63];
    assert_eq!(ObjectId::from_hex(text.as_bytes()), Err(MalformedIdentifier));
}

#[test]
fn identifier_from_hex_rejects_other_characters() {
    let text = EMPTY.replace('a', "g");
    assert_eq!(ObjectId::from_hex(text.as_bytes()), Err(MalformedIdentifier));
    let upper = EMPTY.to_uppercase();
    assert_eq!(ObjectId::from_hex(upper.as_bytes()), Err(MalformedIdentifier));
}

#[test]
fn identifier_from_hex_rejects_short_text() {
    assert_eq!(ObjectId::from_hex(b"af13"), Err(MalformedIdentifier));
    assert_eq!(ObjectId::from_hex(b""), Err(MalformedIdentifier));
}

#[test]
fn identifier_from_hex_rejects_long_text() {
    let long = format!("{}00ff", EMPTY);
    assert_eq!(ObjectId::from_hex(long.as_bytes()), Err(MalformedIdentifier));
    let longer = format!("{}{}", EMPTY, EMPTY);
    assert_eq!(ObjectId::from_hex(longer.as_bytes()), Err(MalformedIdentifier));
    let one_more = format!("{}0", EMPTY);
    assert_eq!(ObjectId::from_hex(one_more.as_bytes()), Err(MalformedIdentifier));
}

#[test]
fn identifier_from_hex_reads_every_identifier_back() {
    for data in [&b""[..], &b"a"[..], &b"hello, world"[..]] {
        let id = ObjectId::of(data);
        assert_eq!(ObjectId::from_hex(id.to_string().as_bytes()), Ok(id));
    }
    let zero = ObjectId::from_bytes([0u8; 32]);
    assert_eq!(zero.to_string(), "0".repeat(64));
    assert_eq!(ObjectId::from_hex("0".repeat(64).as_bytes()), Ok(zero));
    let high = ObjectId::from_bytes([0xffu8; 32]);
    assert_eq!(ObjectId::from_hex("f".repeat(64).as_bytes()), Ok(high));
}

#[test]
fn identifiers_are_ordered_by_their_bytes() {
    let mut low = [0u8; 32];
    let mut high = [0u8; 32];
    low[31] = 1;
    high[0] = 1;
    let low = ObjectId::from_bytes(low);
    let high = ObjectId::from_bytes(high);
    assert_eq!(low.compare(&high), Place::Before);
    assert_eq!(high.compare(&low), Place::After);
    assert_eq!(low.compare(&low), Place::Same);
    assert!(low < high);
    assert_eq!(low.as_bytes()[31], 1);
}

#[test]
fn id_set_holds_each_identifier_once_in_order() {
    let a = ObjectId::from_bytes([1u8; 32]);
    let b = ObjectId::from_bytes([2u8; 32]);
    let c = ObjectId::from_bytes([3u8; 32]);
    let mut set = IdSet::new();
    assert_eq!(set.len(), 0);
    set.insert(b);
    set.insert(c);
    set.insert(a);
    set.insert(b);
    assert_eq!(set.len(), 3);
    assert_eq!(set.get(0), a);
    assert_eq!(set.get(1), b);
    assert_eq!(set.get(2), c);
    assert!(set.contains(a));
    assert!(!set.contains(ObjectId::from_bytes([4u8; 32])));
    assert_eq!(set.clone(), set);
    assert_ne!(IdSet::new(), set);
}
