use taurus::file_manager::{
    initial_current_contents, initial_manifest_contents, initial_manifest_name,
    parse_next_file_number, FileManager, Name,
};
use taurus::storage_errors::StorageError;

#[test]
fn test_file_number_generation_sequential() {
    let mut fm = FileManager::new("testdb".to_string());

    // Get several file numbers
    let num1 = fm.new_file_number();
    let num2 = fm.new_file_number();
    let num3 = fm.new_file_number();
    let num4 = fm.new_file_number();

    // Verify they're sequential
    assert_eq!(num1, 2, "First number should be 2");
    assert_eq!(num2, 3, "Second number should be 3");

    assert_eq!(num3, 4, "Third number should be 4");
    assert_eq!(num4, 5, "Fourth number should be 5");
}

#[test]
fn test_generate_filename_sstable() {
    let fm = FileManager::new("testdb".to_string());

    let path = fm.generate_filename(Name::SSTable, Some(42)).unwrap();

    assert_eq!(
        path, "testdb/000042.sst",
        "SSTable filename should be correctly formatted"
    );
}

#[test]
fn test_generate_filename_wal() {
    let fm = FileManager::new("testdb".to_string());

    let path = fm.generate_filename(Name::WriteAheadLog, Some(100)).unwrap();

    assert_eq!(
        path, "testdb/000100.log",
        "WAL filename should be correctly formatted"
    );
}

#[test]
fn test_generate_filename_manifest() {
    let fm = FileManager::new("testdb".to_string());

    let path = fm.generate_filename(Name::Manifest, Some(5)).unwrap();

    assert_eq!(
        path, "testdb/MANIFEST-000005",
        "Manifest filename should be correctly formatted"
    );
}

#[test]
fn test_generate_filename_current() {
    let fm = FileManager::new("testdb".to_string());

    let path = fm.generate_filename(Name::Current, None).unwrap();

    assert_eq!(path, "testdb/CURRENT", "Current filename should be CURRENT");
}

#[test]
fn test_generate_filename_lock() {
    let fm = FileManager::new("testdb".to_string());

    let path = fm.generate_filename(Name::Lock, None).unwrap();

    assert_eq!(path, "testdb/LOCK", "Lock filename should be LOCK");
}

#[test]
fn test_generate_filename_zero_padding() {
    let fm = FileManager::new("testdb".to_string());

    // Test that numbers are zero-padded to 6 digits
    let path1 = fm.generate_filename(Name::SSTable, Some(1)).unwrap();
    let path42 = fm.generate_filename(Name::SSTable, Some(42)).unwrap();
    let path999 = fm.generate_filename(Name::SSTable, Some(999)).unwrap();
    let path9999 = fm.generate_filename(Name::SSTable, Some(9999)).unwrap();

    assert_eq!(path1, "testdb/000001.sst", "1 should pad to 000001");
    assert_eq!(path42, "testdb/000042.sst", "42 should pad to 000042");
    assert_eq!(path999, "testdb/000999.sst", "999 should pad to 000999");
    assert_eq!(path9999, "testdb/009999.sst", "9999 should pad to 009999");
}

#[test]
fn test_generate_filename_wide_number_keeps_all_digits() {
    let fm = FileManager::new("testdb".to_string());
    let path = fm.generate_filename(Name::SSTable, Some(12345678)).unwrap();
    assert_eq!(path, "testdb/12345678.sst");
}

#[test]
fn test_generate_filename_numbered_kind_without_number_is_rejected() {
    let fm = FileManager::new("testdb".to_string());
    let result = fm.generate_filename(Name::SSTable, None);
    assert!(matches!(
        result,
        Err(StorageError::ContractViolation(_))
    ));
}

#[test]
fn test_generate_filename_fixed_kind_with_number_is_rejected() {
    let fm = FileManager::new("testdb".to_string());
    let result = fm.generate_filename(Name::Current, Some(42));
    assert!(matches!(
        result,
        Err(StorageError::ContractViolation(_))
    ));
}

#[test]
fn test_initial_files() {
    assert_eq!(initial_manifest_contents(), b"next_file_number: 2\n".to_vec());
    assert_eq!(initial_current_contents(), b"MANIFEST-000001\n".to_vec());
    assert_eq!(initial_manifest_name(), "MANIFEST-000001");
}

#[test]
fn test_fresh_database_allocates_from_two() {
    // a fresh database records allocator position 2; the first two
    // allocations return 2 and 3
    let mut fm = FileManager::new("db".to_string());
    assert_eq!(fm.new_file_number(), 2);
    assert_eq!(fm.new_file_number(), 3);
    // and reading the initial manifest back seeds an allocator at 2 too
    let reopened =
        FileManager::open_existing("db".to_string(), None, &initial_manifest_contents()).unwrap();
    let mut reopened = reopened;
    assert_eq!(reopened.new_file_number(), 2);
}

#[test]
fn test_parse_next_file_number_plain() {
    assert_eq!(parse_next_file_number(b"next_file_number: 17\n").unwrap(), 17);
}

#[test]
fn test_parse_next_file_number_no_trailing_newline() {
    assert_eq!(parse_next_file_number(b"next_file_number:5").unwrap(), 5);
}

#[test]
fn test_parse_next_file_number_later_line() {
    let data = b"comment line\nnext_file_number: 9\n";
    assert_eq!(parse_next_file_number(data).unwrap(), 9);
}

#[test]
fn test_parse_next_file_number_skips_unparsable_line() {
    let data = b"next_file_number: abc\nnext_file_number: 12\n";
    assert_eq!(parse_next_file_number(data).unwrap(), 12);
}

#[test]
fn test_parse_next_file_number_missing() {
    let result = parse_next_file_number(b"something else entirely\n");
    assert!(matches!(result, Err(StorageError::DecodeError(_))));
}

#[test]
fn test_parse_next_file_number_overflow() {
    let result = parse_next_file_number(b"next_file_number: 99999999999999999999999\n");
    assert!(matches!(result, Err(StorageError::DecodeError(_))));
}

#[test]
fn test_open_existing_seeds_allocator_from_manifest() {
    let fm = FileManager::open_existing(
        "somedb".to_string(),
        None,
        b"next_file_number: 44\n",
    )
    .unwrap();
    let mut fm = fm;
    assert_eq!(fm.new_file_number(), 44);
    assert_eq!(fm.new_file_number(), 45);
}

#[test]
fn test_open_existing_fails_when_locked() {
    // a LOCK file holding another process's id refuses the open and
    // names that process
    let result = FileManager::open_existing(
        "somedb".to_string(),
        Some("12345".to_string()),
        b"next_file_number: 2\n",
    );
    match result {
        Err(StorageError::AlreadyLocked(pid)) => assert_eq!(pid, "12345"),
        other => panic!("expected AlreadyLocked, got {:?}", other),
    }
}

#[test]
fn test_open_existing_fails_on_bad_manifest() {
    let result = FileManager::open_existing("somedb".to_string(), None, b"garbage\n");
    assert!(matches!(result, Err(StorageError::DecodeError(_))));
}
