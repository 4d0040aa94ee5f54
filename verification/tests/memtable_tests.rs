use taurus::internal_key::{InternalKey, KeyType};
use taurus::memtable::MemTable;

fn make_key(s: &str, seq: u64) -> InternalKey {
    InternalKey::new(s.as_bytes().to_vec(), seq, KeyType::Put)
}

#[test]
fn test_memtable_put_and_get() {
    let mut mt = MemTable::new(1024);
    let key = make_key("hello", 1);

    mt.put(key.clone(), b"world".to_vec()).unwrap();
    assert_eq!(mt.get(&key), Some(b"world".to_vec()));
    assert_eq!(mt.get(&make_key("other", 1)), None);
}

#[test]
fn test_memtable_size_accounting() {
    let mut mt = MemTable::new(1024);
    assert_eq!(mt.size_bytes(), 0);

    // key "ab" encodes to 2 + 9 = 11 bytes; value is 3 bytes; plus the
    // 64-byte per-entry overhead: 78 in total
    let key = make_key("ab", 1);
    mt.put(key.clone(), b"xyz".to_vec()).unwrap();
    assert_eq!(mt.size_bytes(), 78);

    // deleting the entry gives those bytes back
    assert!(mt.delete(&key));
    assert_eq!(mt.size_bytes(), 0);
}

#[test]
fn test_memtable_overwrite_adds_overhead_again() {
    // a put of the same exact key replaces the value but still adds the
    // full accounted cost, leaving headroom behind
    let mut mt = MemTable::new(1024);
    let key = make_key("k", 1);

    mt.put(key.clone(), b"v1".to_vec()).unwrap();
    let after_first = mt.size_bytes();
    mt.put(key.clone(), b"v2".to_vec()).unwrap();
    assert_eq!(mt.size_bytes(), after_first * 2);
    assert_eq!(mt.get(&key), Some(b"v2".to_vec()));

    // the delete subtracts the live entry's cost once
    assert!(mt.delete(&key));
    assert_eq!(mt.size_bytes(), after_first);
    assert_eq!(mt.get(&key), None);
}

#[test]
fn test_memtable_delete_absent_key_changes_nothing() {
    let mut mt = MemTable::new(1024);
    mt.put(make_key("present", 1), b"v".to_vec()).unwrap();
    let size = mt.size_bytes();

    assert!(!mt.delete(&make_key("absent", 1)));
    assert_eq!(mt.size_bytes(), size);
    assert_eq!(mt.get(&make_key("present", 1)), Some(b"v".to_vec()));
}

#[test]
fn test_memtable_is_full() {
    // threshold 100: one entry of cost 78 stays below, a second crosses
    let mut mt = MemTable::new(100);
    assert!(!mt.is_full());

    mt.put(make_key("ab", 1), b"xyz".to_vec()).unwrap();
    assert!(!mt.is_full());

    mt.put(make_key("cd", 2), b"uvw".to_vec()).unwrap();
    assert!(mt.is_full());
}

#[test]
fn test_memtable_iter_in_key_order() {
    let mut mt = MemTable::new(4096);
    mt.put(make_key("b", 2), b"2".to_vec()).unwrap();
    mt.put(make_key("a", 1), b"1".to_vec()).unwrap();
    mt.put(make_key("c", 3), b"3".to_vec()).unwrap();

    let entries = mt.iter();
    let keys: Vec<Vec<u8>> = entries.iter().map(|(k, _)| k.user_key.clone()).collect();
    assert_eq!(keys, vec![b"a".to_vec(), b"b".to_vec(), b"c".to_vec()]);
}
