use taurus::internal_key::{InternalKey, KeyType};
use taurus::logentry::EntryType;
use taurus::wal::{encode_delete, encode_put, replay};

#[test]
fn test_put_then_delete_replays_in_order() {
    let put_key = InternalKey::new(b"a".to_vec(), 1, KeyType::Put);
    let del_key = InternalKey::new(b"a".to_vec(), 2, KeyType::Delete);

    let mut log: Vec<u8> = Vec::new();
    log.extend_from_slice(&encode_put(&put_key, b"1"));
    log.extend_from_slice(&encode_delete(&del_key));

    let records = replay(&log);
    assert_eq!(records.len(), 2);
    assert_eq!(records[0].entry_type, EntryType::Put);
    assert_eq!(records[1].entry_type, EntryType::Delete);
    assert_eq!(records[0].key, put_key.encode());
    assert_eq!(records[0].value, b"1".to_vec());
    assert_eq!(records[1].key, del_key.encode());
    assert_eq!(records[1].value, Vec::<u8>::new());
}

#[test]
fn test_record_layout() {
    // key "k" encodes to 10 bytes; the record wraps it with tag, two
    // 4-byte lengths and a 4-byte checksum
    let key = InternalKey::new(b"k".to_vec(), 3, KeyType::Put);
    let record = encode_put(&key, b"vv");
    assert_eq!(record.len(), 1 + 4 + 10 + 4 + 2 + 4);
    assert_eq!(record[0], 0); // put tag
    assert_eq!(&record[1..5], &[0, 0, 0, 10]); // key length, big-endian
    assert_eq!(&record[15..19], &[0, 0, 0, 2]); // value length, big-endian
    let crc = crc32fast::hash(&record[..record.len() - 4]);
    assert_eq!(&record[record.len() - 4..], &crc.to_be_bytes());
}

#[test]
fn test_replay_of_empty_log_is_empty() {
    assert_eq!(replay(&[]).len(), 0);
}

#[test]
fn test_replay_stops_at_truncation() {
    let k1 = InternalKey::new(b"one".to_vec(), 1, KeyType::Put);
    let k2 = InternalKey::new(b"two".to_vec(), 2, KeyType::Put);
    let k3 = InternalKey::new(b"three".to_vec(), 3, KeyType::Put);

    let r1 = encode_put(&k1, b"v1");
    let r2 = encode_put(&k2, b"v2");
    let r3 = encode_put(&k3, b"v3");

    let mut log: Vec<u8> = Vec::new();
    log.extend_from_slice(&r1);
    log.extend_from_slice(&r2);
    log.extend_from_slice(&r3);

    // cutting anywhere inside a record keeps exactly the records before it
    for cut in 0..log.len() + 1 {
        let records = replay(&log[..cut]);
        let expected = if cut >= r1.len() + r2.len() + r3.len() {
            3
        } else if cut >= r1.len() + r2.len() {
            2
        } else if cut >= r1.len() {
            1
        } else {
            0
        };
        assert_eq!(records.len(), expected, "cut at byte {}", cut);
    }
}

#[test]
fn test_replay_stops_at_corrupted_checksum() {
    let k1 = InternalKey::new(b"first".to_vec(), 1, KeyType::Put);
    let k2 = InternalKey::new(b"second".to_vec(), 2, KeyType::Put);

    let r1 = encode_put(&k1, b"v1");
    let mut log: Vec<u8> = Vec::new();
    log.extend_from_slice(&r1);
    log.extend_from_slice(&encode_put(&k2, b"v2"));

    // flip one byte inside the second record's value
    let flip_at = r1.len() + 10;
    log[flip_at] ^= 0xff;

    let records = replay(&log);
    assert_eq!(records.len(), 1);
    assert_eq!(records[0].key, k1.encode());
}

#[test]
fn test_replay_stops_at_unknown_tag() {
    let k1 = InternalKey::new(b"ok".to_vec(), 1, KeyType::Put);
    let mut log = encode_put(&k1, b"v");
    log.push(9); // not a valid tag
    log.extend_from_slice(&[0u8; 20]);

    let records = replay(&log);
    assert_eq!(records.len(), 1);
}

#[test]
fn test_empty_key_and_value_record() {
    let key = InternalKey::new(Vec::new(), 0, KeyType::Delete);
    let record = encode_delete(&key);
    let records = replay(&record);
    assert_eq!(records.len(), 1);
    assert_eq!(records[0].entry_type, EntryType::Delete);
    assert_eq!(records[0].key, key.encode());
    assert_eq!(records[0].value, Vec::<u8>::new());
}
