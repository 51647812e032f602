use l1x_sdk::storage::Storage;

#[test]
fn test_storage() {
    let mut store = Storage::new();

    // Prepare key-value
    let key = b"key";
    let value = b"value";

    // Write to storage; no previous value existed under the key
    assert!(!store.write(key, value));

    // Read from storage
    let stored_value = store.read(key).unwrap();
    assert_eq!(stored_value, value);

    // Remove from storage
    assert!(store.remove(key));

    // Try to read removed key
    assert!(store.read(key).is_none());
}

#[test]
fn test_storage_write_and_read() {
    let mut store = Storage::new();

    let key = vec![1, 2, 3];
    let value = vec![4, 5, 6];

    // Write to storage
    store.write(&key, &value);

    // Read from storage and check value
    let stored_value = store.read(&key).unwrap();
    assert_eq!(stored_value, value);
}

#[test]
fn test_remove_from_mock_storage() {
    let mut store = Storage::new();

    let key = vec![1, 2, 3];
    let value = vec![4, 5, 6];

    // Write to storage and then remove
    store.write(&key, &value);
    store.remove(&key);

    // Check value is removed
    let stored_value = store.read(&key);
    assert!(stored_value.is_none());
}

#[test]
fn test_storage_write_replaces() {
    let mut store = Storage::new();

    let key = vec![9, 9];
    store.write(&key, &[1]);

    // A second write under the same key reports the previous value and
    // replaces it.
    assert!(store.write(&key, &[2]));
    assert_eq!(store.read(&key).unwrap(), vec![2]);
}

#[test]
fn test_storage_operation_counters() {
    let mut store = Storage::new();
    assert_eq!(store.reads(), 0);
    assert_eq!(store.writes(), 0);
    assert_eq!(store.removes(), 0);

    store.write(b"a", b"1");
    store.read(b"a");
    store.read(b"b");
    store.remove(b"a");

    assert_eq!(store.writes(), 1);
    assert_eq!(store.reads(), 2);
    assert_eq!(store.removes(), 1);
}
