use smdiff::encoder::hash::{hash_chunk, hash_multiplicative, roll_multiplicative_hash, ChunkHashMap, HashCursor, RollingHash, Value};

#[test]
fn test_initial_hash() {
    let initial_data = b"hello world, this is a test of some hashing"; // Example data
    let mh32 = RollingHash::new(&initial_data[..32], 33);
    assert_eq!(mh32.hash(), hash_multiplicative(&initial_data[..32], 33));
}

#[test]
fn test_rolling_hash() {
    let initial_data = b"hello world, this is a test of the rolling hash"; // Longer example
    let mut mh = RollingHash::new(&initial_data[..20], 33);
    // Simulate a rolling window
    let mut hash = hash_multiplicative(&initial_data[..20], 33);
    for i in 1..(initial_data.len() - 20) {
        let old_char = initial_data[i - 1];
        let new_char = initial_data[i + 19];
        let expected_hash = hash_multiplicative(&initial_data[i..i + 20], 33);
        hash = roll_multiplicative_hash(hash, old_char, new_char, 33, 33u32.wrapping_pow(19));
        assert_eq!(hash, expected_hash, "Failed at window starting at index {}", i);
        mh.update(new_char);
        assert_eq!(mh.hash(), expected_hash, "Failed at window starting at index {}", i);
    }
}

#[test]
fn test_hash_cursor() {
    let data = b"hello world, this is a test of the rolling hash";
    let mut cursor = HashCursor::new(data, 20, 33);
    let mut answers = Vec::new();
    for _ in 0..5 {
        let (hash, _pos) = cursor.next().unwrap();
        answers.push((hash, _pos));
    }
    answers.sort_by(|a, b| a.0.cmp(&b.0));
    for (hash, pos) in answers {
        let new_hash = cursor.seek(pos).unwrap();
        assert_eq!(hash, new_hash);
    }
}

#[test]
fn test_chunk() {
    let data = b"hello world, this is a test of the rolling hash";
    let chunk = hash_chunk(data, 100, 20, 33, 50);
    let mut cursor = HashCursor::new(data, 20, 33);
    for pos in 0..5 {
        let hash = cursor.next().unwrap().0;
        let positions = chunk.get(hash).unwrap();
        assert_eq!(positions.contains(&(pos + 100)), true);
    }
}

#[test]
fn hash_of_bytes_is_their_polynomial() {
    // 257 * 'a' + 'b' = 257 * 97 + 98
    assert_eq!(hash_multiplicative(b"ab", 257), 257 * 97 + 98);
    assert_eq!(hash_multiplicative(b"", 257), 0);
}

#[test]
fn cursor_stops_before_the_last_window() {
    let data = b"abcd";
    let mut cursor = HashCursor::new(data, 2, 3);
    assert_eq!(cursor.next(), Some((hash_multiplicative(b"ab", 3), 0)));
    assert_eq!(cursor.next(), Some((hash_multiplicative(b"bc", 3), 1)));
    assert_eq!(cursor.next(), None);
    assert_eq!(cursor.seek(2), None);
    assert_eq!(cursor.seek(0), Some(hash_multiplicative(b"ab", 3)));
}

#[test]
fn bucket_overflows_past_three_positions() {
    let mut map = ChunkHashMap::new(1);
    assert_eq!(map.get(7), None);
    for p in 0..5u32 {
        map.insert(7, p);
    }
    assert_eq!(map.get(9).unwrap(), &[0, 1, 2, 3, 4]);
    assert_eq!(map.num_hashes(), 1);
}

#[test]
fn value_fills_slots_from_the_front() {
    let mut v = Value::default();
    assert!(v.can_push());
    v.push(4);
    v.push(5);
    assert_eq!(v.few(), Some((2, &[4, 5, u32::MAX])));
    v.push(6);
    assert!(!v.can_push());
    assert_eq!(v.upgrade(0), [4, 5, 6]);
    assert!(v.is_many());
    assert_eq!(v.many(), Some(0));
}
