use taurus::internal_key::{InternalKey, KeyType};
use taurus::skiplist::SkipList;

// Helper to create test keys
fn make_key(s: &str, seq: u64) -> InternalKey {
    InternalKey::new(s.as_bytes().to_vec(), seq, KeyType::Put)
}

#[test]
fn test_new_skiplist_is_empty() {
    let sl = SkipList::new();

    assert_eq!(sl.len(), 0);
    assert!(sl.is_empty());
}

#[test]
fn test_insert_and_get_single_item() {
    let mut sl = SkipList::new();
    let key = make_key("hello", 1);
    let value = b"world".to_vec();

    sl.insert(key.clone(), value.clone()).unwrap();

    assert_eq!(sl.len(), 1);
    assert_eq!(sl.get(&key), Some(value));
}

#[test]
fn test_get_nonexistent_key() {
    let mut sl = SkipList::new();
    let key1 = make_key("exists", 1);
    let key2 = make_key("missing", 2);

    sl.insert(key1, b"value".to_vec()).unwrap();

    assert_eq!(sl.get(&key2), None);
}

#[test]
fn test_insert_multiple_items() {
    let mut sl = SkipList::new();

    sl.insert(make_key("apple", 1), b"red".to_vec()).unwrap();
    sl.insert(make_key("banana", 2), b"yellow".to_vec())
        .unwrap();
    sl.insert(make_key("cherry", 3), b"red".to_vec()).unwrap();

    assert_eq!(sl.len(), 3);
    assert_eq!(sl.get(&make_key("apple", 1)), Some(b"red".to_vec()));
    assert_eq!(sl.get(&make_key("banana", 2)), Some(b"yellow".to_vec()));
    assert_eq!(sl.get(&make_key("cherry", 3)), Some(b"red".to_vec()));
}

#[test]
fn test_insert_updates_existing_key() {
    let mut sl = SkipList::new();
    let key = make_key("key", 1);

    sl.insert(key.clone(), b"value1".to_vec()).unwrap();
    assert_eq!(sl.len(), 1);
    assert_eq!(sl.get(&key), Some(b"value1".to_vec()));

    // Insert same key with new value

    sl.insert(key.clone(), b"value2".to_vec()).unwrap();
    assert_eq!(sl.len(), 1); // Length shouldn't increase
    assert_eq!(sl.get(&key), Some(b"value2".to_vec()));
}

#[test]
fn test_insert_in_sorted_order() {
    let mut sl = SkipList::new();

    // Insert in order

    sl.insert(make_key("a", 1), b"1".to_vec()).unwrap();
    sl.insert(make_key("b", 2), b"2".to_vec()).unwrap();
    sl.insert(make_key("c", 3), b"3".to_vec()).unwrap();

    assert_eq!(sl.get(&make_key("a", 1)), Some(b"1".to_vec()));
    assert_eq!(sl.get(&make_key("b", 2)), Some(b"2".to_vec()));
    assert_eq!(sl.get(&make_key("c", 3)), Some(b"3".to_vec()));
}

#[test]
fn test_insert_in_reverse_order() {
    let mut sl = SkipList::new();

    // Insert in reverse order
    sl.insert(make_key("c", 3), b"3".to_vec()).unwrap();
    sl.insert(make_key("b", 2), b"2".to_vec()).unwrap();
    sl.insert(make_key("a", 1), b"1".to_vec()).unwrap();

    assert_eq!(sl.get(&make_key("a", 1)), Some(b"1".to_vec()));
    assert_eq!(sl.get(&make_key("b", 2)), Some(b"2".to_vec()));
    assert_eq!(sl.get(&make_key("c", 3)), Some(b"3".to_vec()));
}

#[test]
fn test_insert_random_order() {
    let mut sl = SkipList::new();

    // Insert in random order

    sl.insert(make_key("m", 5), b"5".to_vec()).unwrap();
    sl.insert(make_key("a", 1), b"1".to_vec()).unwrap();
    sl.insert(make_key("z", 10), b"10".to_vec()).unwrap();
    sl.insert(make_key("d", 2), b"2".to_vec()).unwrap();
    sl.insert(make_key("p", 7), b"7".to_vec()).unwrap();

    assert_eq!(sl.len(), 5);
    assert_eq!(sl.get(&make_key("a", 1)), Some(b"1".to_vec()));
    assert_eq!(sl.get(&make_key("d", 2)), Some(b"2".to_vec()));
    assert_eq!(sl.get(&make_key("m", 5)), Some(b"5".to_vec()));
    assert_eq!(sl.get(&make_key("p", 7)), Some(b"7".to_vec()));
    assert_eq!(sl.get(&make_key("z", 10)), Some(b"10".to_vec()));
}

#[test]
fn test_delete_existing_key() {
    let mut sl = SkipList::new();

    let key = make_key("key", 1);

    sl.insert(key.clone(), b"value".to_vec()).unwrap();
    assert_eq!(sl.len(), 1);

    let deleted = sl.delete(&key);
    assert!(deleted);

    assert_eq!(sl.len(), 0);
    assert_eq!(sl.get(&key), None);
}

#[test]
fn test_delete_nonexistent_key() {
    let mut sl = SkipList::new();
    let key1 = make_key("exists", 1);
    let key2 = make_key("missing", 2);

    sl.insert(key1, b"value".to_vec()).unwrap();

    let deleted = sl.delete(&key2);
    assert!(!deleted);
    assert_eq!(sl.len(), 1);
}

#[test]
fn test_delete_from_middle() {
    let mut sl = SkipList::new();

    sl.insert(make_key("a", 1), b"1".to_vec()).unwrap();
    sl.insert(make_key("b", 2), b"2".to_vec()).unwrap();
    sl.insert(make_key("c", 3), b"3".to_vec()).unwrap();

    let deleted = sl.delete(&make_key("b", 2));
    assert!(deleted);
    assert_eq!(sl.len(), 2);

    assert_eq!(sl.get(&make_key("a", 1)), Some(b"1".to_vec()));
    assert_eq!(sl.get(&make_key("b", 2)), None);
    assert_eq!(sl.get(&make_key("c", 3)), Some(b"3".to_vec()));
}

#[test]
fn test_delete_first_item() {
    let mut sl = SkipList::new();

    sl.insert(make_key("a", 1), b"1".to_vec()).unwrap();

    sl.insert(make_key("b", 2), b"2".to_vec()).unwrap();
    sl.insert(make_key("c", 3), b"3".to_vec()).unwrap();

    let deleted = sl.delete(&make_key("a", 1));
    assert!(deleted);
    assert_eq!(sl.len(), 2);

    assert_eq!(sl.get(&make_key("a", 1)), None);
    assert_eq!(sl.get(&make_key("b", 2)), Some(b"2".to_vec()));
    assert_eq!(sl.get(&make_key("c", 3)), Some(b"3".to_vec()));
}

#[test]
fn test_delete_last_item() {
    let mut sl = SkipList::new();

    sl.insert(make_key("a", 1), b"1".to_vec()).unwrap();

    sl.insert(make_key("b", 2), b"2".to_vec()).unwrap();
    sl.insert(make_key("c", 3), b"3".to_vec()).unwrap();

    let deleted = sl.delete(&make_key("c", 3));
    assert!(deleted);
    assert_eq!(sl.len(), 2);

    assert_eq!(sl.get(&make_key("a", 1)), Some(b"1".to_vec()));
    assert_eq!(sl.get(&make_key("b", 2)), Some(b"2".to_vec()));
    assert_eq!(sl.get(&make_key("c", 3)), None);
}

#[test]
fn test_delete_all_items() {
    let mut sl = SkipList::new();

    sl.insert(make_key("a", 1), b"1".to_vec()).unwrap();

    sl.insert(make_key("b", 2), b"2".to_vec()).unwrap();
    sl.insert(make_key("c", 3), b"3".to_vec()).unwrap();

    assert!(sl.delete(&make_key("b", 2)));
    assert!(sl.delete(&make_key("a", 1)));
    assert!(sl.delete(&make_key("c", 3)));

    assert_eq!(sl.len(), 0);
    assert!(sl.is_empty());
}

#[test]
fn test_large_dataset() {
    let mut sl = SkipList::new();
    let n = 1000;

    // Insert many items
    for i in 0..n {
        let key = make_key(&format!("key{:04}", i), i);
        let value = format!("value{}", i).into_bytes();
        sl.insert(key, value).unwrap();
    }

    assert_eq!(sl.len(), n as usize);

    // Verify all items exist
    for i in 0..n {
        let key = make_key(&format!("key{:04}", i), i);
        let expected = format!("value{}", i).into_bytes();
        assert_eq!(sl.get(&key), Some(expected));
    }

    // Delete half the items
    for i in (0..n).step_by(2) {
        let key = make_key(&format!("key{:04}", i), i);
        assert!(sl.delete(&key));
    }

    assert_eq!(sl.len(), (n / 2) as usize);

    // Verify deleted items are gone and remaining items exist
    for i in 0..n {
        let key = make_key(&format!("key{:04}", i), i);
        if i % 2 == 0 {
            assert_eq!(sl.get(&key), None);
        } else {
            let expected = format!("value{}", i).into_bytes();
            assert_eq!(sl.get(&key), Some(expected));
        }
    }
}

#[test]
fn test_empty_value() {
    let mut sl = SkipList::new();
    let key = make_key("empty", 1);
    let value = Vec::new();

    sl.insert(key.clone(), value.clone()).unwrap();
    assert_eq!(sl.get(&key), Some(value));
}

#[test]
fn test_large_value() {
    let mut sl = SkipList::new();
    let key = make_key("large", 1);
    let value = vec![42u8; 10000]; // 10KB value

    sl.insert(key.clone(), value.clone()).unwrap();
    assert_eq!(sl.get(&key), Some(value));
}

#[test]
fn test_same_user_key_different_sequence() {
    let mut sl = SkipList::new();

    // InternalKey sorts by user_key first, then sequence descending
    let key1 = make_key("user", 10);
    let key2 = make_key("user", 5);
    let key3 = make_key("user", 1);

    sl.insert(key1.clone(), b"v10".to_vec()).unwrap();
    sl.insert(key2.clone(), b"v5".to_vec()).unwrap();
    sl.insert(key3.clone(), b"v1".to_vec()).unwrap();

    // All three should coexist (different InternalKeys)
    assert_eq!(sl.len(), 3);
    assert_eq!(sl.get(&key1), Some(b"v10".to_vec()));
    assert_eq!(sl.get(&key2), Some(b"v5".to_vec()));

    assert_eq!(sl.get(&key3), Some(b"v1".to_vec()));
}

#[test]
fn test_iter_returns_entries_in_key_order() {
    let mut sl = SkipList::new();

    sl.insert(make_key("b", 2), b"2".to_vec()).unwrap();
    sl.insert(make_key("c", 3), b"3".to_vec()).unwrap();
    sl.insert(make_key("a", 1), b"1".to_vec()).unwrap();
    // same user key: the larger sequence number sorts first
    sl.insert(make_key("a", 9), b"9".to_vec()).unwrap();

    let entries = sl.iter();
    let keys: Vec<(Vec<u8>, u64)> = entries
        .iter()
        .map(|(k, _)| (k.user_key.clone(), k.sequence_number))
        .collect();
    assert_eq!(
        keys,
        vec![
            (b"a".to_vec(), 9),
            (b"a".to_vec(), 1),
            (b"b".to_vec(), 2),
            (b"c".to_vec(), 3),
        ]
    );
    let values: Vec<Vec<u8>> = entries.iter().map(|(_, v)| v.clone()).collect();
    assert_eq!(
        values,
        vec![b"9".to_vec(), b"1".to_vec(), b"2".to_vec(), b"3".to_vec()]
    );
}

#[test]
fn test_overwrite_then_delete_counts_once() {
    let mut sl = SkipList::new();
    let key = make_key("dup", 7);

    sl.insert(key.clone(), b"first".to_vec()).unwrap();
    sl.insert(key.clone(), b"second".to_vec()).unwrap();
    assert_eq!(sl.len(), 1);
    assert!(sl.delete(&key));
    assert_eq!(sl.len(), 0);
    assert!(!sl.delete(&key));
}
