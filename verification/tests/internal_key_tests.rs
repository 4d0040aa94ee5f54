use taurus::internal_key::{InternalKey, KeyType};

#[test]
fn test_encode_layout() {
    let key = InternalKey::new(b"ab".to_vec(), 0x0102030405060708, KeyType::Put);
    let encoded = key.encode();
    assert_eq!(
        encoded,
        vec![b'a', b'b', 0x01, 0x02, 0x03, 0x04, 0x05, 0x06, 0x07, 0x08, 1]
    );
}

#[test]
fn test_encode_delete_tag_byte() {
    let key = InternalKey::new(Vec::new(), 7, KeyType::Delete);
    let encoded = key.encode();
    assert_eq!(encoded, vec![0, 0, 0, 0, 0, 0, 0, 7, 0]);
    assert!(key.is_deletion());
}

#[test]
fn test_decode_roundtrip() {
    let key = InternalKey::new(b"user-key".to_vec(), 42, KeyType::Put);
    let decoded = InternalKey::decode(&key.encode()).unwrap();
    assert_eq!(decoded.user_key, b"user-key".to_vec());
    assert_eq!(decoded.sequence_number, 42);
    assert_eq!(decoded.key_type, KeyType::Put);
}

#[test]
fn test_decode_roundtrip_empty_user_key() {
    let key = InternalKey::new(Vec::new(), u64::MAX, KeyType::Delete);
    let decoded = InternalKey::decode(&key.encode()).unwrap();
    assert_eq!(decoded.user_key, Vec::<u8>::new());
    assert_eq!(decoded.sequence_number, u64::MAX);
    assert_eq!(decoded.key_type, KeyType::Delete);
}

#[test]
fn test_decode_rejects_short_input() {
    let result = InternalKey::decode(&[0, 0, 0, 0, 0, 0, 0, 1]);
    assert!(result.is_err());
    assert!(result.unwrap_err().is_decode_error());
}

#[test]
fn test_decode_rejects_unknown_tag() {
    // 8 sequence bytes plus a tag byte that is neither 0 nor 1
    let result = InternalKey::decode(&[0, 0, 0, 0, 0, 0, 0, 1, 2]);
    assert!(result.is_err());
    assert!(result.unwrap_err().is_decode_error());
}

#[test]
fn test_order_user_key_ascending() {
    let a = InternalKey::new(b"a".to_vec(), 1, KeyType::Put);
    let b = InternalKey::new(b"b".to_vec(), 9, KeyType::Put);
    assert!(a.precedes(&b));
    assert!(!b.precedes(&a));
}

#[test]
fn test_order_sequence_descending_on_equal_user_key() {
    let newer = InternalKey::new(b"k".to_vec(), 10, KeyType::Put);
    let older = InternalKey::new(b"k".to_vec(), 5, KeyType::Put);
    assert!(newer.precedes(&older));
    assert!(!older.precedes(&newer));
}

#[test]
fn test_order_delete_before_put_on_full_tie() {
    let del = InternalKey::new(b"k".to_vec(), 5, KeyType::Delete);
    let put = InternalKey::new(b"k".to_vec(), 5, KeyType::Put);
    assert!(del.precedes(&put));
    assert!(!put.precedes(&del));
}

#[test]
fn test_order_prefix_sorts_first() {
    let short = InternalKey::new(b"ab".to_vec(), 1, KeyType::Put);
    let long = InternalKey::new(b"abc".to_vec(), 1, KeyType::Put);
    assert!(short.precedes(&long));
    assert!(!long.precedes(&short));
}

#[test]
fn test_key_eq_is_exact() {
    let a = InternalKey::new(b"k".to_vec(), 5, KeyType::Put);
    let b = InternalKey::new(b"k".to_vec(), 5, KeyType::Put);
    let c = InternalKey::new(b"k".to_vec(), 6, KeyType::Put);
    let d = InternalKey::new(b"k".to_vec(), 5, KeyType::Delete);
    assert!(a.key_eq(&b));
    assert!(!a.key_eq(&c));
    assert!(!a.key_eq(&d));
    assert!(!a.precedes(&b));
    assert!(!b.precedes(&a));
}
