use l1x_sdk::storage::Storage;
use l1x_sdk::store::LookupMap;

use borsh::BorshDeserialize;

#[test]
fn test_new() {
    let map: LookupMap<i32, i32> = LookupMap::new(b"test".to_vec());
    assert_eq!(map.get_prefix().as_slice(), b"test");
}

#[test]
fn test_set_and_get() {
    let mut store = Storage::new();
    let mut map: LookupMap<i32, i32> = LookupMap::new(b"test".to_vec());

    // Set key-value pair
    map.set(1, Some(10));

    // Get value for key
    let value = map.get(&mut store, &1);
    assert_eq!(value, Some(10));
}

#[test]
fn test_insert_and_get() {
    let mut store = Storage::new();
    let mut map: LookupMap<i32, i32> = LookupMap::new(b"test".to_vec());

    // Insert key-value pair
    map.insert(&mut store, 1, 10);

    // Get value for key
    let value = map.get(&mut store, &1);
    assert_eq!(value, Some(10));
}

#[test]
fn test_remove() {
    let mut store = Storage::new();
    let mut map: LookupMap<i32, i32> = LookupMap::new(b"test".to_vec());

    // Insert key-value pair
    map.insert(&mut store, 1, 10);

    // Remove key-value pair
    map.set(1, None);

    // Get value for key
    let value = map.get(&mut store, &1);
    assert_eq!(value, None);
}

#[test]
fn test_flush() {
    let mut store = Storage::new();
    let mut map: LookupMap<i32, i32> = LookupMap::new(b"test".to_vec());

    // Insert key-value pair
    map.insert(&mut store, 1, 10);

    // Flush the map
    map.flush(&mut store);

    // Check storage for key-value pair
    let key = LookupMap::<i32, i32>::to_key_test(b"test", &1, &mut Vec::new());
    let stored_value = store.read(&key);

    assert_eq!(
        i32::try_from_slice(stored_value.unwrap().as_slice())
            .unwrap_or_else(|_| panic!("Failed to deserialize")),
        10
    );
}

#[test]
fn test_insert_persistence() {
    let mut store = Storage::new();
    let mut map: LookupMap<i32, i32> = LookupMap::new(b"test".to_vec());

    map.insert(&mut store, 1, 10);
    map.flush(&mut store);

    let key_with_prefix = LookupMap::<i32, i32>::to_key_test(b"test", &1, &mut Vec::new());
    let stored_value = store.read(&key_with_prefix);

    let stored_value = i32::try_from_slice(stored_value.unwrap().as_slice())
        .unwrap_or_else(|_| panic!("Failed to deserialize"));

    assert_eq!(stored_value, 10);
}

#[test]
fn test_set_persistence() {
    let mut store = Storage::new();
    let mut map: LookupMap<i32, i32> = LookupMap::new(b"test".to_vec());

    // Set a key-value pair and flush to storage
    map.set(1, Some(10));
    map.flush(&mut store);

    // Check storage for the key
    let key = LookupMap::<i32, i32>::to_key_test(b"test", &1, &mut Vec::new());
    let stored_value_bytes = store.read(&key);

    assert!(
        stored_value_bytes.is_some(),
        "Expected the key to be set in storage"
    );

    // Decode stored value
    let stored_value: i32 =
        borsh::BorshDeserialize::deserialize(&mut stored_value_bytes.unwrap().as_slice()).unwrap();

    // Assert the stored value matches what was set
    assert_eq!(stored_value, 10);
}

#[test]
fn test_update_persistence() {
    let mut store = Storage::new();
    let mut map: LookupMap<i32, i32> = LookupMap::new(b"test".to_vec());

    // Insert a key-value pair and flush to storage
    map.insert(&mut store, 1, 10);
    map.flush(&mut store);

    // Update the value for the key and flush to storage
    map.insert(&mut store, 1, 20);
    map.flush(&mut store);

    // Check storage for key-value pair
    let key = LookupMap::<i32, i32>::to_key_test(b"test", &1, &mut Vec::new());
    let stored_value_bytes = store.read(&key);

    let stored_value = i32::try_from_slice(stored_value_bytes.unwrap().as_slice())
        .unwrap_or_else(|_| panic!("Failed to deserialize"));

    assert_eq!(
        stored_value, 20,
        "Expected the value to be updated in storage"
    );
}

#[test]
fn test_remove_persistence() {
    let mut store = Storage::new();
    let mut map: LookupMap<i32, i32> = LookupMap::new(b"test".to_vec());

    // Insert a key-value pair and flush to storage
    map.insert(&mut store, 1, 10);
    map.flush(&mut store);

    // Remove the key-value pair and flush to storage
    map.set(1, None);
    map.flush(&mut store);

    // Check storage for the key
    let key = LookupMap::<i32, i32>::to_key_test(b"test", &1, &mut Vec::new());
    let stored_value_bytes = store.read(&key);

    assert!(
        stored_value_bytes.is_none(),
        "Expected the key to be removed from storage"
    );
}

#[test]
fn test_remove_function() {
    let mut store = Storage::new();
    let mut map: LookupMap<i32, i32> = LookupMap::new(b"test".to_vec());

    // Insert key-value pair
    map.insert(&mut store, 1, 10);

    // Remove key-value pair
    let removed = map.remove(&mut store, 1);

    // Assert that the removed value is correct
    assert_eq!(removed, Some(10));

    // Get value for key
    let value = map.get(&mut store, &1);
    assert_eq!(value, None);
}

#[test]
fn test_contains_key() {
    let mut store = Storage::new();
    let mut map: LookupMap<i32, u32> = LookupMap::new(b"mymap".to_vec());

    // The map is initially empty, so it doesn't contain the key.
    assert!(!map.contains_key(&mut store, &1));

    // After inserting a value, the map should contain the key.
    map.insert(&mut store, 1, 1);
    assert!(map.contains_key(&mut store, &1));

    // After removing a value, the map should no longer contain the key.
    map.remove(&mut store, 1);
    assert!(!map.contains_key(&mut store, &1));
}
