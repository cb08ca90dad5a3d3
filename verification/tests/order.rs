use rev::order::{compare, put, search, Place};

#[test]
fn compare_is_lexicographic() {
    assert_eq!(compare(b"", b""), Place::Same);
    assert_eq!(compare(b"", b"a"), Place::Before);
    assert_eq!(compare(b"a", b""), Place::After);
    assert_eq!(compare(b"abc", b"abd"), Place::Before);
    assert_eq!(compare(b"abd", b"abc"), Place::After);
    assert_eq!(compare(b"ab", b"abc"), Place::Before);
    assert_eq!(compare(b"b", b"abc"), Place::After);
    assert_eq!(compare(b"abc", b"abc"), Place::Same);
    assert_eq!(compare(&[0xff], &[0x00, 0x01]), Place::After);
}

#[test]
fn compare_agrees_with_the_order_of_strings() {
    let words = ["", "a", "A", "aa", "ab", "b", "é", "z", "~", "a.txt", "a/b"];
    for x in words {
        for y in words {
            let expected = if x < y {
                Place::Before
            } else if x == y {
                Place::Same
            } else {
                Place::After
            };
            assert_eq!(compare(x.as_bytes(), y.as_bytes()), expected);
        }
    }
}

#[test]
fn search_finds_keys_and_places() {
    let v: Vec<String> = vec!["b".to_string(), "d".to_string(), "f".to_string()];
    assert_eq!(search(&v, b"b"), Ok(0));
    assert_eq!(search(&v, b"d"), Ok(1));
    assert_eq!(search(&v, b"f"), Ok(2));
    assert_eq!(search(&v, b"a"), Err(0));
    assert_eq!(search(&v, b"c"), Err(1));
    assert_eq!(search(&v, b"e"), Err(2));
    assert_eq!(search(&v, b"g"), Err(3));
    let none: Vec<String> = Vec::new();
    assert_eq!(search(&none, b"a"), Err(0));
}

#[test]
fn put_keeps_the_order_and_replaces_equal_keys() {
    let mut v: Vec<(String, u32)> = Vec::new();
    assert_eq!(put(&mut v, ("m".to_string(), 1)), 0);
    assert_eq!(put(&mut v, ("a".to_string(), 2)), 0);
    assert_eq!(put(&mut v, ("z".to_string(), 3)), 2);
    assert_eq!(put(&mut v, ("m".to_string(), 4)), 1);
    assert_eq!(
        v,
        vec![("a".to_string(), 2), ("m".to_string(), 4), ("z".to_string(), 3)]
    );
}
