use l1x_sdk::storage::Storage;
use l1x_sdk::store::Vector;

use borsh::BorshDeserialize;

#[test]
fn test_vector_new_and_len() {
    let vector: Vector<i32> = Vector::new(b"test".to_vec());
    assert_eq!(vector.len(), 0);
    assert!(vector.is_empty());
}

#[test]
fn test_vector_push_and_get() {
    let mut store = Storage::new();
    let mut vector: Vector<i32> = Vector::new(b"test".to_vec());
    vector.push(10).unwrap();
    assert_eq!(vector.len(), 1);
    assert!(!vector.is_empty());
    assert_eq!(vector.get(&mut store, 0), Some(10));
}

#[test]
fn test_vector_set_and_get_mut() {
    let mut store = Storage::new();
    let mut vector: Vector<i32> = Vector::new(b"test".to_vec());
    vector.push(10).unwrap();
    vector.set(0, 20).unwrap();
    assert_eq!(vector.get(&mut store, 0), Some(20));
    if let Some(value) = vector.get_mut(&mut store, 0) {
        *value = 30;
    }
    assert_eq!(vector.get(&mut store, 0), Some(30));
}

#[test]
fn test_vector_out_of_bounds() {
    let mut store = Storage::new();
    let mut vector: Vector<i32> = Vector::new(b"test".to_vec());
    assert_eq!(vector.get(&mut store, 0), None);
}

#[test]
fn test_vector_non_empty_prefix() {
    let vector: Vector<i32> = Vector::new(b"non_empty_prefix".to_vec());
    assert_eq!(vector.len(), 0);
}

#[test]
fn test_vector_push_multiple() {
    let mut store = Storage::new();
    let mut vector: Vector<i32> = Vector::new(b"test".to_vec());
    vector.push(10).unwrap();
    vector.push(20).unwrap();
    vector.push(30).unwrap();
    assert_eq!(vector.len(), 3);
    assert_eq!(vector.get(&mut store, 0), Some(10));
    assert_eq!(vector.get(&mut store, 1), Some(20));
    assert_eq!(vector.get(&mut store, 2), Some(30));
}

#[test]
fn test_vector_pop() {
    let mut store = Storage::new();
    let mut vector: Vector<i32> = Vector::new(b"test".to_vec());
    assert_eq!(vector.pop(&mut store), None);

    vector.push(10).unwrap();
    vector.push(20).unwrap();
    vector.push(30).unwrap();

    assert_eq!(vector.len(), 3);
    assert_eq!(vector.pop(&mut store), Some(30));
    assert_eq!(vector.len(), 2);
    assert_eq!(vector.pop(&mut store), Some(20));
    assert_eq!(vector.len(), 1);
    assert_eq!(vector.pop(&mut store), Some(10));
    assert_eq!(vector.len(), 0);
    assert_eq!(vector.pop(&mut store), None);
}

#[test]
fn test_vector_swap_remove() {
    let mut store = Storage::new();
    let mut vector: Vector<i32> = Vector::new(b"test".to_vec());

    vector.push(10).unwrap();

    assert_eq!(vector.swap_remove(&mut store, 0).unwrap(), 10);
    assert_eq!(vector.len(), 0);

    vector.push(10).unwrap();
    vector.push(20).unwrap();
    vector.push(30).unwrap();

    assert_eq!(vector.swap_remove(&mut store, 2).unwrap(), 30);
    assert_eq!(vector.len(), 2);
    assert_eq!(vector.get(&mut store, 2), None);

    vector.push(50).unwrap();

    assert_eq!(vector.swap_remove(&mut store, 1).unwrap(), 20);
    assert_eq!(vector.len(), 2);
    assert_eq!(vector.get(&mut store, 1), Some(50));
}

#[test]
#[should_panic]
fn test_vector_swap_remove_panic() {
    let mut store = Storage::new();
    let mut vector: Vector<i32> = Vector::new(b"test".to_vec());

    vector.push(10).unwrap();
    vector.swap_remove(&mut store, 1).unwrap();
}

#[test]
fn test_push_persistence() {
    let mut store = Storage::new();
    let mut vector: Vector<i32> = Vector::new(b"test".to_vec());

    vector.push(10).unwrap();
    vector.flush(&mut store);

    // Construct the expected storage key
    let mut expected_key = b"test".to_vec();
    expected_key.extend_from_slice(&0u32.to_le_bytes());

    // Check that the value has been written in the underlying storage
    let written_value = i32::try_from_slice(&store.read(&expected_key).unwrap()).unwrap();
    assert_eq!(written_value, 10);
}

#[test]
fn mod_test_set_persistence() {
    let mut store = Storage::new();
    let mut vector: Vector<i32> = Vector::new(b"test".to_vec());

    vector.push(10).unwrap();
    vector.flush(&mut store);
    vector.set(0, 20).unwrap();
    vector.flush(&mut store);

    // Construct the expected storage key
    let mut expected_key = b"test".to_vec();
    expected_key.extend_from_slice(&0u32.to_le_bytes());

    // Check that the value has been updated in the underlying storage
    let written_value = i32::try_from_slice(&store.read(&expected_key).unwrap()).unwrap();
    assert_eq!(written_value, 20);
}
