use hummock_core::key::{key_eq, key_lt, next_key, prev_key};

#[test]
fn next_key_increments_last_byte() {
    assert_eq!(next_key(b"abc"), b"abd".to_vec());
    assert_eq!(next_key(&[1, 2, 0xff, 0xff]), vec![1, 3]);
    assert_eq!(next_key(&[0xff, 0xff]), Vec::<u8>::new());
    assert_eq!(next_key(&[]), Vec::<u8>::new());
}

#[test]
fn prev_key_decrements_last_byte() {
    assert_eq!(prev_key(b"abc"), b"abb".to_vec());
    assert_eq!(prev_key(&[5, 0, 0]), vec![4]);
    assert_eq!(prev_key(&[0, 0]), Vec::<u8>::new());
    assert_eq!(prev_key(&[]), Vec::<u8>::new());
}

#[test]
fn keys_order_bytewise() {
    assert!(key_lt(b"ab", b"abc"));
    assert!(key_lt(b"abc", b"abd"));
    assert!(!key_lt(b"abd", b"abc"));
    assert!(!key_lt(b"abc", b"abc"));
    assert!(key_lt(b"", b"a"));
    assert!(key_lt(&[0x7f], &[0x80]));
    assert!(key_eq(b"abc", b"abc"));
    assert!(!key_eq(b"abc", b"abd"));
}

#[test]
fn prefix_range_holds_exactly_the_prefix_family() {
    let prefix = b"ab\xff";
    let upper = next_key(prefix);
    let in_range = |k: &[u8]| !key_lt(k, prefix) && (upper.is_empty() || key_lt(k, &upper));
    for k in [&b"ab\xff"[..], b"ab\xff\x00", b"ab\xff\xff\xff"] {
        assert!(k.starts_with(prefix) && in_range(k));
    }
    for k in [&b"ab"[..], b"ac", b"ab\xfe\xff", b"b"] {
        assert!(!k.starts_with(prefix) && !in_range(k));
    }
}
