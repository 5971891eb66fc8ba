use smdiff::encoder::hashmap::{BasicHashTable, BucketValue};

#[test]
fn table_gives_back_what_was_stored() {
    let mut t = BasicHashTable::new(16, false);
    assert_eq!(t.get(12345), None);
    assert_eq!(t.insert(12345, 7), Ok(None));
    assert_eq!(t.get(12345), Some(7));
    assert_eq!(t.insert(12345, 9), Ok(Some(7)));
    assert_eq!(t.get(12345), Some(9));
}

#[test]
fn table_of_32_bit_hashes_gives_back_what_was_stored() {
    let mut t = BasicHashTable::new(4, true);
    assert_eq!(t.insert(0xdead_beef, 3), Ok(None));
    assert_eq!(t.get(0xdead_beef), Some(3));
}

#[test]
fn bucket_reports_the_hash_it_evicts() {
    let mut b = BucketValue::empty();
    assert_eq!(b.set(1, 5), Ok(None));
    assert_eq!(b.set(2, 6), Err((1, 5)));
    assert_eq!(b.get(2), Some(6));
    assert_eq!(b.get(1), None);
}
