use l1x_sdk::storage::Storage;
use l1x_sdk::store::LookupSet;

#[test]
fn mod_test_new() {
    let set: LookupSet<i32> = LookupSet::new(b"test".to_vec());
    assert_eq!(set.get_prefix().as_slice(), b"test");
}

#[test]
fn test_insert() {
    let mut store = Storage::new();
    let mut set: LookupSet<i32> = LookupSet::new(b"test".to_vec());

    // Insert value
    assert!(set.insert(&mut store, 10));

    // Inserting the same value again should return false
    assert!(!set.insert(&mut store, 10));
}

#[test]
fn test_contains() {
    let mut store = Storage::new();
    let mut set: LookupSet<i32> = LookupSet::new(b"test".to_vec());

    // Insert value
    set.insert(&mut store, 10);

    // Check for inserted value
    assert!(set.contains(&mut store, &10));

    // Check for non-inserted value
    assert!(!set.contains(&mut store, &20));
}

#[test]
fn test_insert_duplicate_values() {
    let mut store = Storage::new();
    let mut set: LookupSet<i32> = LookupSet::new(b"test".to_vec());

    // Insert a value
    assert!(set.insert(&mut store, 1));

    // Try to insert the same value again. This time it should return false because it is a duplicate.
    assert!(!set.insert(&mut store, 1));
}

#[test]
fn test_contains_non_existent_value() {
    let mut store = Storage::new();
    let mut set: LookupSet<i32> = LookupSet::new(b"test".to_vec());

    // Check for a value that hasn't been inserted
    assert!(!set.contains(&mut store, &15));
}

#[test]
fn mod_test_insert_persistence() {
    let mut store = Storage::new();
    let mut set: LookupSet<i32> = LookupSet::new(b"test".to_vec());

    // Insert value
    assert!(set.insert(&mut store, 10));

    // Flush the changes to ensure they're written to storage
    set.flush(&mut store);

    // Check storage for value
    let lookup_key = set.to_key_test(set.get_prefix().clone().as_slice(), &10, &mut Vec::new());
    let stored_value = store.read(lookup_key.as_slice());

    assert!(
        stored_value.is_some(),
        "Expected the value to be set in storage"
    );
}

#[test]
fn mod_test_remove() {
    let mut store = Storage::new();
    let mut lookup_set: LookupSet<u32> = LookupSet::new(vec![0, 1, 2]);

    // Insert values
    lookup_set.insert(&mut store, 10);
    lookup_set.insert(&mut store, 20);
    lookup_set.insert(&mut store, 30);

    // Check if values exist
    assert_eq!(lookup_set.contains(&mut store, &10), true);
    assert_eq!(lookup_set.contains(&mut store, &20), true);
    assert_eq!(lookup_set.contains(&mut store, &30), true);

    // Remove values
    lookup_set.remove(&mut store, 10);
    lookup_set.remove(&mut store, 20);

    // Check if values exist after removing
    assert_eq!(lookup_set.contains(&mut store, &10), false);
    assert_eq!(lookup_set.contains(&mut store, &20), false);
    assert_eq!(lookup_set.contains(&mut store, &30), true);

    // Try to remove a non-existent element and verify that it returns false
    assert_eq!(lookup_set.remove(&mut store, 40), false);
    assert_eq!(lookup_set.contains(&mut store, &40), false);
}
