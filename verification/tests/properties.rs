//! Scenario tests for the store-level guarantees: round-tripping, flush
//! idempotence, tombstones, session coherence, and the vector's bounds
//! behaviour.

use l1x_sdk::storage::Storage;
use l1x_sdk::store::lookup_map::{flush_twice_law, round_trip_law, set_then_get_law, tombstone_law};
use l1x_sdk::store::lookup_set::insert_insert_remove_law;
use l1x_sdk::store::{LookupMap, LookupSet, StoreError, Vector};
use l1x_sdk::types::Address;

#[test]
fn round_trip_through_fresh_instance() {
    let mut store = Storage::new();
    {
        let mut map: LookupMap<u32, i32> = LookupMap::new(b"rt".to_vec());
        map.insert(&mut store, 7, -42);
        map.flush(&mut store);
    }
    let mut fresh: LookupMap<u32, i32> = LookupMap::new(b"rt".to_vec());
    assert_eq!(fresh.get(&mut store, &7), Some(-42));

    // The same property, as the verified law function.
    assert_eq!(round_trip_law(b"rt2".to_vec(), &mut store, 3u32, 99i32), Some(99));
}

#[test]
fn idempotent_flush_issues_no_store_traffic() {
    let mut store = Storage::new();
    let mut map: LookupMap<u32, i32> = LookupMap::new(b"idem".to_vec());
    map.insert(&mut store, 1, 10);
    map.insert(&mut store, 2, 20);
    map.remove(&mut store, 2);

    map.flush(&mut store);
    let writes_after_first = store.writes();
    let removes_after_first = store.removes();
    let reads_after_first = store.reads();

    map.flush(&mut store);
    assert_eq!(store.writes(), writes_after_first);
    assert_eq!(store.removes(), removes_after_first);
    assert_eq!(store.reads(), reads_after_first);

    // The same property, as the verified law function.
    let (w1, r1, w2, r2) = flush_twice_law(&mut map, &mut store);
    assert_eq!(w1, w2);
    assert_eq!(r1, r2);
}

#[test]
fn tombstone_leaves_no_physical_key() {
    let mut store = Storage::new();
    {
        let mut map: LookupMap<u32, i32> = LookupMap::new(b"tomb".to_vec());
        map.insert(&mut store, 5, 50);
        map.remove(&mut store, 5);
        map.flush(&mut store);
    }
    let physical_key = LookupMap::<u32, i32>::to_key_test(b"tomb", &5, &mut Vec::new());
    assert!(store.read(&physical_key).is_none());

    let mut fresh: LookupMap<u32, i32> = LookupMap::new(b"tomb".to_vec());
    assert_eq!(fresh.get(&mut store, &5), None);

    // The same property, as the verified law function.
    assert_eq!(tombstone_law(b"tomb2".to_vec(), &mut store, 6u32, 60i32), None);
}

#[test]
fn removing_an_absent_key_stays_clean() {
    let mut store = Storage::new();
    let mut map: LookupMap<u32, i32> = LookupMap::new(b"clean".to_vec());

    // Removing a key that was never present stages nothing.
    assert_eq!(map.remove(&mut store, 9), None);
    let removes_before = store.removes();
    let writes_before = store.writes();
    map.flush(&mut store);
    assert_eq!(store.removes(), removes_before);
    assert_eq!(store.writes(), writes_before);
}

#[test]
fn in_session_coherence_without_store_reads() {
    let mut store = Storage::new();
    let mut map: LookupMap<u32, i32> = LookupMap::new(b"coh".to_vec());

    let reads_before = store.reads();
    map.set(11, Some(1100));
    assert_eq!(map.get(&mut store, &11), Some(1100));
    assert_eq!(store.reads(), reads_before);

    // The same property, as the verified law function.
    assert_eq!(set_then_get_law(&mut map, &mut store, 12u32, 7i32), Some(7));
}

#[test]
fn set_dedup() {
    let mut store = Storage::new();
    let mut set: LookupSet<u32> = LookupSet::new(b"dedup".to_vec());

    assert!(set.insert(&mut store, 77));
    assert!(!set.insert(&mut store, 77));
    assert!(set.contains(&mut store, &77));
    set.remove(&mut store, 77);
    assert!(!set.contains(&mut store, &77));

    // The same property, as the verified law function.
    let mut set2: LookupSet<u32> = LookupSet::new(b"dedup2".to_vec());
    let results = insert_insert_remove_law(&mut set2, &mut store, 88u32);
    assert_eq!(results, (true, false, true, false));
}

#[test]
fn swap_remove_example() {
    let mut store = Storage::new();
    let mut vector: Vector<i32> = Vector::new(b"swap".to_vec());
    // vector [a, b, c, d]
    vector.push(1).unwrap();
    vector.push(2).unwrap();
    vector.push(3).unwrap();
    vector.push(4).unwrap();

    // swapRemove(1) returns b and leaves [a, d, c] with length 3.
    assert_eq!(vector.swap_remove(&mut store, 1).unwrap(), 2);
    assert_eq!(vector.len(), 3);
    assert_eq!(vector.get(&mut store, 0), Some(1));
    assert_eq!(vector.get(&mut store, 1), Some(4));
    assert_eq!(vector.get(&mut store, 2), Some(3));
}

#[test]
fn vector_present_exactly_below_length() {
    let mut store = Storage::new();
    let mut vector: Vector<i32> = Vector::new(b"bounds".to_vec());
    vector.push(10).unwrap();
    vector.push(20).unwrap();
    vector.push(30).unwrap();
    vector.pop(&mut store);
    vector.swap_remove(&mut store, 0).unwrap();

    let len = vector.len();
    for i in 0..8u32 {
        assert_eq!(vector.get(&mut store, i).is_some(), i < len);
    }
}

#[test]
fn out_of_bounds_set_is_fatal_and_harmless() {
    let mut store = Storage::new();
    let mut vector: Vector<i32> = Vector::new(b"oob".to_vec());
    vector.push(10).unwrap();
    vector.flush(&mut store);

    let writes_before = store.writes();
    let removes_before = store.removes();
    let result = vector.set(vector.len(), 99);
    assert_eq!(result, Err(StoreError::IndexOutOfBounds));

    // Length and all stored data are unchanged.
    assert_eq!(vector.len(), 1);
    vector.flush(&mut store);
    assert_eq!(store.writes(), writes_before);
    assert_eq!(store.removes(), removes_before);
    assert_eq!(vector.get(&mut store, 0), Some(10));

    let mut expected_key = b"oob".to_vec();
    expected_key.extend_from_slice(&0u32.to_le_bytes());
    assert!(store.read(&expected_key).is_some());
}

#[test]
fn push_at_maximum_length_overflows() {
    // A vector reporting the maximum length, rebuilt from its stored form.
    let mut stored = u32::MAX.to_le_bytes().to_vec();
    stored.extend_from_slice(&2u32.to_le_bytes());
    stored.extend_from_slice(b"ov");
    let mut vector: Vector<i32> = Vector::from_stored_bytes(&stored).unwrap();
    assert_eq!(vector.len(), u32::MAX);
    assert_eq!(vector.push(1), Err(StoreError::LengthOverflow));
    assert_eq!(vector.len(), u32::MAX);
}

#[test]
fn vector_stored_bytes_round_trip() {
    let mut vector: Vector<i32> = Vector::new(b"emb".to_vec());
    vector.push(5).unwrap();
    vector.push(6).unwrap();

    let stored = vector.to_stored_bytes();
    // 4-byte little-endian length, then the length-prefixed prefix.
    let mut expected = 2u32.to_le_bytes().to_vec();
    expected.extend_from_slice(&3u32.to_le_bytes());
    expected.extend_from_slice(b"emb");
    assert_eq!(stored, expected);

    let rebuilt: Vector<i32> = Vector::from_stored_bytes(&stored).unwrap();
    assert_eq!(rebuilt.len(), 2);

    assert!(Vector::<i32>::from_stored_bytes(&stored[..7]).is_none());
}

#[test]
fn error_message_text() {
    assert_eq!(StoreError::IndexOutOfBounds.message(), "Index out of bounds");
    assert_eq!(StoreError::LengthOverflow.message(), "Index out of bounds");
}

#[test]
fn address_keyed_balances_round_trip() {
    let alice = Address::try_from_str("a11ce00000000000000000000000000000000000").unwrap();
    let bob = Address::try_from_str("b0b0000000000000000000000000000000000000").unwrap();

    let mut store = Storage::new();
    {
        let mut balances: LookupMap<Address, u128> = LookupMap::new(b"bal".to_vec());
        balances.insert(&mut store, alice, 1_000_000);
        balances.insert(&mut store, bob, u128::MAX);
        balances.flush(&mut store);
    }

    let mut fresh: LookupMap<Address, u128> = LookupMap::new(b"bal".to_vec());
    assert_eq!(fresh.get(&mut store, &alice), Some(1_000_000));
    assert_eq!(fresh.get(&mut store, &bob), Some(u128::MAX));

    // The physical key is the prefix followed by the raw address bytes.
    let mut expected_key = b"bal".to_vec();
    expected_key.extend_from_slice(alice.as_bytes());
    assert!(store.read(&expected_key).is_some());
}

#[test]
fn read_paths_stay_clean() {
    let mut store = Storage::new();
    {
        let mut map: LookupMap<u32, i32> = LookupMap::new(b"ro".to_vec());
        map.insert(&mut store, 1, 10);
        map.flush(&mut store);
    }

    // A fresh session that only reads: a contains check, a get, and a
    // mutable-accessor miss.  None of them stages anything, so the next
    // flush issues no store traffic.
    let mut map: LookupMap<u32, i32> = LookupMap::new(b"ro".to_vec());
    assert!(map.contains_key(&mut store, &1));
    assert_eq!(map.get(&mut store, &2), None);
    assert!(map.get_mut(&mut store, &3).is_none());

    let writes_before = store.writes();
    let removes_before = store.removes();
    map.flush(&mut store);
    assert_eq!(store.writes(), writes_before);
    assert_eq!(store.removes(), removes_before);
}

#[test]
fn repeated_get_reads_the_store_once() {
    let mut store = Storage::new();
    {
        let mut map: LookupMap<u32, i32> = LookupMap::new(b"memo".to_vec());
        map.insert(&mut store, 9, 90);
        map.flush(&mut store);
    }

    let mut map: LookupMap<u32, i32> = LookupMap::new(b"memo".to_vec());
    let reads_before = store.reads();
    assert_eq!(map.get(&mut store, &9), Some(90));
    assert_eq!(store.reads(), reads_before + 1);
    assert_eq!(map.get(&mut store, &9), Some(90));
    assert_eq!(store.reads(), reads_before + 1);
}

#[test]
fn swap_remove_tombstones_the_vacated_slot() {
    let mut store = Storage::new();
    let mut vector: Vector<i32> = Vector::new(b"vac".to_vec());
    vector.push(1).unwrap();
    vector.push(2).unwrap();
    vector.push(3).unwrap();
    vector.flush(&mut store);

    assert_eq!(vector.swap_remove(&mut store, 0).unwrap(), 1);
    vector.flush(&mut store);

    // The moved-from physical key (old last index) is cleared; the moved
    // element now sits at index 0.
    let key_of = |i: u32| {
        let mut k = b"vac".to_vec();
        k.extend_from_slice(&i.to_le_bytes());
        k
    };
    assert!(store.read(&key_of(2)).is_none());
    let moved = store.read(&key_of(0)).unwrap();
    assert_eq!(moved, 3i32.to_le_bytes().to_vec());
}

#[test]
fn get_mut_write_reaches_the_store_at_flush() {
    let mut store = Storage::new();
    let mut vector: Vector<i32> = Vector::new(b"wr".to_vec());
    vector.push(7).unwrap();
    vector.flush(&mut store);

    if let Some(value) = vector.get_mut(&mut store, 0) {
        *value = 70;
    }
    vector.flush(&mut store);

    let mut key = b"wr".to_vec();
    key.extend_from_slice(&0u32.to_le_bytes());
    assert_eq!(store.read(&key).unwrap(), 70i32.to_le_bytes().to_vec());
}

#[test]
fn set_removal_of_absent_element_stays_clean() {
    let mut store = Storage::new();
    let mut set: LookupSet<u32> = LookupSet::new(b"sro".to_vec());

    assert!(!set.remove(&mut store, 5));
    assert!(!set.contains(&mut store, &6));

    let writes_before = store.writes();
    let removes_before = store.removes();
    set.flush(&mut store);
    assert_eq!(store.writes(), writes_before);
    assert_eq!(store.removes(), removes_before);
}
