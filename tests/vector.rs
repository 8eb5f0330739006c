use trie_vector::{Codec, LoadError, State, Vector};

fn key_of(prefix: &[u8], index: u64) -> Vec<u8> {
    let mut k = prefix.to_vec();
    k.extend_from_slice(&index.to_le_bytes());
    k
}

fn store_u64(state: &mut State, prefix: &[u8], index: u64, value: u64) {
    state.set(key_of(prefix, index), value.to_le_bytes().to_vec());
}

#[test]
fn new_vector_is_empty() {
    let v: Vector<u64> = Vector::new(vec![1, 2, 3]);
    assert_eq!(v.len(), 0);
    assert!(v.is_empty());
    assert!(v.data.is_empty());
    assert_eq!(v.prefix, vec![1, 2, 3]);
}

#[test]
fn load_with_no_elements_changes_nothing() {
    let mut state = State::new();
    store_u64(&mut state, b"v", 0, 9);
    let mut v: Vector<u64> = Vector::new(b"v".to_vec());
    assert_eq!(v.parse(&mut state), Ok(()));
    assert!(v.data.is_empty());
    assert_eq!(v.len(), 0);
    assert_eq!(state.get(&key_of(b"v", 0)), Some(9u64.to_le_bytes().to_vec()));
}

#[test]
fn lookup_key_is_prefix_then_little_endian_index() {
    let v: Vector<u64> = Vector::new(vec![7, 8]);
    assert_eq!(v.index_to_lookup_key(0x0102), vec![7, 8, 2, 1, 0, 0, 0, 0, 0, 0]);
    assert_eq!(v.index_to_lookup_key(0), vec![7, 8, 0, 0, 0, 0, 0, 0, 0, 0]);
    assert_eq!(
        v.index_to_lookup_key(u64::MAX),
        vec![7, 8, 255, 255, 255, 255, 255, 255, 255, 255]
    );
    let empty: Vector<u64> = Vector::new(Vec::new());
    assert_eq!(empty.index_to_lookup_key(5), vec![5, 0, 0, 0, 0, 0, 0, 0]);
}

#[test]
fn distinct_indices_give_distinct_keys() {
    let v: Vector<u64> = Vector::new(b"ns".to_vec());
    assert_ne!(v.index_to_lookup_key(1), v.index_to_lookup_key(256));
    assert_ne!(v.index_to_lookup_key(0), v.index_to_lookup_key(1 << 56));
    assert_eq!(v.index_to_lookup_key(42), v.index_to_lookup_key(42));
}

#[test]
fn append_adds_one_to_the_length() {
    let mut v: Vector<u64> = Vector::new(b"a".to_vec());
    v.append(10);
    assert_eq!(v.len(), 1);
    v.append(20);
    assert_eq!(v.len(), 2);
    assert_eq!(v.data, vec![10, 20]);
    assert!(!v.is_empty());

    // Not loaded: three elements on the store, none in memory.
    let mut w: Vector<u64> = Vector { len: 3, prefix: b"b".to_vec(), data: Vec::new() };
    w.append(5);
    assert_eq!(w.len(), 4);
    assert_eq!(w.data, vec![5]);
}

#[test]
fn remove_moves_the_last_element_into_the_hole() {
    let mut v: Vector<u64> = Vector::new(b"r".to_vec());
    for x in [1u64, 2, 3, 4] {
        v.append(x);
    }
    assert_eq!(v.remove(1), 2);
    assert_eq!(v.data, vec![1, 4, 3]);
    assert_eq!(v.len(), 3);
}

#[test]
fn remove_of_the_last_element_just_drops_it() {
    let mut v: Vector<u64> = Vector::new(b"r".to_vec());
    for x in [1u64, 2, 3] {
        v.append(x);
    }
    assert_eq!(v.remove(2), 3);
    assert_eq!(v.data, vec![1, 2]);
    assert_eq!(v.len(), 2);
    assert_eq!(v.remove(0), 1);
    assert_eq!(v.data, vec![2]);
    assert_eq!(v.remove(0), 2);
    assert!(v.is_empty());
    assert!(v.data.is_empty());
}

#[test]
fn load_follows_index_order_not_store_order() {
    let mut state = State::new();
    for i in [3u64, 0, 4, 1, 2] {
        store_u64(&mut state, b"xs", i, 100 + i);
    }
    store_u64(&mut state, b"other", 0, 7);
    let mut v: Vector<u64> = Vector { len: 5, prefix: b"xs".to_vec(), data: Vec::new() };
    assert_eq!(v.parse(&mut state), Ok(()));
    assert_eq!(v.data, vec![100, 101, 102, 103, 104]);
    assert_eq!(v.len(), 5);
    for i in 0..5u64 {
        assert_eq!(state.get(&key_of(b"xs", i)), None);
    }
    assert_eq!(state.get(&key_of(b"other", 0)), Some(7u64.to_le_bytes().to_vec()));
}

#[test]
fn load_adds_after_elements_in_memory() {
    let mut state = State::new();
    store_u64(&mut state, b"p", 0, 1);
    store_u64(&mut state, b"p", 1, 2);
    let mut v: Vector<u64> = Vector { len: 2, prefix: b"p".to_vec(), data: vec![9] };
    assert_eq!(v.parse(&mut state), Ok(()));
    assert_eq!(v.data, vec![9, 1, 2]);
}

#[test]
fn load_stops_at_a_missing_key() {
    let mut state = State::new();
    for i in [0u64, 1, 3, 4] {
        store_u64(&mut state, b"g", i, i);
    }
    let mut v: Vector<u64> = Vector { len: 5, prefix: b"g".to_vec(), data: Vec::new() };
    assert_eq!(v.parse(&mut state), Err(LoadError::MissingKey { index: 2 }));
    assert!(v.data.is_empty());
    assert_eq!(v.len(), 5);
    assert_eq!(state.get(&key_of(b"g", 0)), None);
    assert_eq!(state.get(&key_of(b"g", 1)), None);
    assert_eq!(state.get(&key_of(b"g", 3)), Some(3u64.to_le_bytes().to_vec()));
    assert_eq!(state.get(&key_of(b"g", 4)), Some(4u64.to_le_bytes().to_vec()));
}

#[test]
fn load_stops_at_bytes_that_do_not_decode() {
    let mut state = State::new();
    store_u64(&mut state, b"d", 0, 11);
    state.set(key_of(b"d", 1), vec![1, 2, 3]);
    store_u64(&mut state, b"d", 2, 13);
    let mut v: Vector<u64> = Vector { len: 3, prefix: b"d".to_vec(), data: Vec::new() };
    assert_eq!(v.parse(&mut state), Err(LoadError::Undecodable { index: 1 }));
    assert!(v.data.is_empty());
    assert_eq!(state.get(&key_of(b"d", 0)), None);
    assert_eq!(state.get(&key_of(b"d", 1)), None);
    assert_eq!(state.get(&key_of(b"d", 2)), Some(13u64.to_le_bytes().to_vec()));
}

#[test]
fn append_write_back_and_load_give_the_element_back() {
    let mut state = State::new();
    let mut v: Vector<u128> = Vector::new(b"bal".to_vec());
    v.append(5);
    v.append(u128::MAX);
    v.append(1 << 100);
    v.write_back(&mut state);
    assert_eq!(state.get(&key_of(b"bal", 2)), Some((1u128 << 100).to_le_bytes().to_vec()));

    let mut again: Vector<u128> = Vector { len: v.len(), prefix: b"bal".to_vec(), data: Vec::new() };
    assert_eq!(again.parse(&mut state), Ok(()));
    assert_eq!(again.data, vec![5, u128::MAX, 1 << 100]);
    assert_eq!(again.data[2], 1 << 100);
}

#[test]
fn write_back_after_remove_and_reload() {
    let mut state = State::new();
    for i in 0..4u64 {
        store_u64(&mut state, b"w", i, 10 * i);
    }
    let mut v: Vector<u64> = Vector { len: 4, prefix: b"w".to_vec(), data: Vec::new() };
    assert_eq!(v.parse(&mut state), Ok(()));
    assert_eq!(v.remove(0), 0);
    v.write_back(&mut state);
    assert_eq!(state.get(&key_of(b"w", 3)), None);

    let mut again: Vector<u64> = Vector { len: 3, prefix: b"w".to_vec(), data: Vec::new() };
    assert_eq!(again.parse(&mut state), Ok(()));
    assert_eq!(again.data, vec![30, 10, 20]);
}

#[test]
fn codec_u64_is_eight_little_endian_bytes() {
    assert_eq!(0x0102_0304_0506_0708u64.encode(), vec![8, 7, 6, 5, 4, 3, 2, 1]);
    assert_eq!(u64::decode(&vec![8, 7, 6, 5, 4, 3, 2, 1]), Some(0x0102_0304_0506_0708));
    assert_eq!(u64::decode(&vec![1, 2, 3]), None);
    assert_eq!(u64::decode(&vec![0; 9]), None);
    assert_eq!(u64::decode(&u64::MAX.encode()), Some(u64::MAX));
}

#[test]
fn codec_u128_is_sixteen_little_endian_bytes() {
    let v: u128 = 0x0102_0304_0506_0708_090a_0b0c_0d0e_0f10;
    assert_eq!(v.encode(), v.to_le_bytes().to_vec());
    assert_eq!(u128::decode(&v.to_le_bytes().to_vec()), Some(v));
    assert_eq!(u128::decode(&vec![0; 8]), None);
    assert_eq!(u128::decode(&Vec::new()), None);
}

#[test]
fn state_get_set_remove() {
    let mut state = State::new();
    assert_eq!(state.get(b"k"), None);
    state.set(b"k".to_vec(), vec![1]);
    state.set(b"j".to_vec(), vec![2]);
    assert_eq!(state.get(b"k"), Some(vec![1]));
    state.set(b"k".to_vec(), vec![3]);
    assert_eq!(state.get(b"k"), Some(vec![3]));
    assert_eq!(state.remove(b"k"), Some(vec![3]));
    assert_eq!(state.remove(b"k"), None);
    assert_eq!(state.get(b"k"), None);
    assert_eq!(state.get(b"j"), Some(vec![2]));
}
