use hashmap::HashMap;
use hashmap::Key;
use std::collections::hash_map::DefaultHasher;
use std::hash::{Hash, Hasher};

/// The slot where the search for `key` starts in a table of `capacity` slots.
fn home(key: &String, capacity: usize) -> usize {
    (key.digest() % capacity as u64) as usize
}

/// `count` distinct keys whose search starts at the same slot of a table of
/// `capacity` slots.
fn colliding_keys(count: usize, capacity: usize) -> Vec<String> {
    let first = String::from("key-0");
    let target = home(&first, capacity);
    let mut keys = vec![first];
    let mut n: u64 = 1;
    while keys.len() < count {
        let candidate = format!("key-{}", n);
        if home(&candidate, capacity) == target {
            keys.push(candidate);
        }
        n += 1;
    }
    keys
}

#[test]
fn map_works() {
    let mut map = HashMap::new();
    assert_eq!(map.insert("foo", "bar"), None);
    assert_eq!(map.insert("foo", "lol"), Some("bar"));

    assert_eq!(map.get(&"foo"), Some(&"lol"));
    assert_eq!(map.get(&"foo"), Some(&"lol"));
    assert_eq!(map.get(&"qux"), None);

    assert_eq!(map.remove(&"foo"), Some("lol"));
    assert_eq!(map.get(&"foo"), None);
}

#[test]
fn new_table_is_empty_with_sixteen_slots() {
    let map: HashMap<u64, u64> = HashMap::new();
    assert_eq!(map.capacity(), 16);
    assert_eq!(map.len(), 0);
    assert_eq!(map.get(&0), None);
    assert_eq!(map.get(&17), None);
}

#[test]
fn insert_then_get_finds_the_value() {
    let mut map = HashMap::new();
    for k in 0..200u64 {
        assert_eq!(map.insert(k, k * 3), None);
        assert_eq!(map.get(&k), Some(&(k * 3)));
    }
    for k in 0..200u64 {
        assert_eq!(map.get(&k), Some(&(k * 3)));
    }
    assert_eq!(map.len(), 200);
}

#[test]
fn overwrite_hands_back_the_first_value_and_keeps_the_count() {
    let mut map = HashMap::new();
    assert_eq!(map.insert(7u64, "first"), None);
    assert_eq!(map.insert(8u64, "other"), None);
    assert_eq!(map.len(), 2);
    assert_eq!(map.insert(7u64, "second"), Some("first"));
    assert_eq!(map.len(), 2);
    assert_eq!(map.get(&7), Some(&"second"));
    assert_eq!(map.get(&8), Some(&"other"));
}

#[test]
fn a_key_never_inserted_is_absent() {
    let mut map = HashMap::new();
    for k in 0..50u64 {
        map.insert(2 * k, k);
    }
    for k in 0..50u64 {
        assert_eq!(map.get(&(2 * k + 1)), None);
        assert_eq!(map.remove(&(2 * k + 1)), None);
    }
    assert_eq!(map.len(), 50);
}

#[test]
fn remove_then_get_finds_nothing() {
    let mut map = HashMap::new();
    assert_eq!(map.insert(String::from("k"), 1u32), None);
    assert_eq!(map.len(), 1);
    assert_eq!(map.remove(&String::from("k")), Some(1));
    assert_eq!(map.len(), 0);
    assert_eq!(map.get(&String::from("k")), None);
}

#[test]
fn remove_twice_finds_the_value_once() {
    let mut map = HashMap::new();
    map.insert("k", 5i32);
    map.insert("other", 6i32);
    assert_eq!(map.remove(&"k"), Some(5));
    assert_eq!(map.remove(&"k"), None);
    assert_eq!(map.len(), 1);
    assert_eq!(map.get(&"other"), Some(&6));
}

#[test]
fn removal_keeps_a_key_that_probed_past_the_removed_one() {
    let keys = colliding_keys(2, 16);
    let (b, c) = (keys[0].clone(), keys[1].clone());
    assert_eq!(home(&b, 16), home(&c, 16));
    let mut a = String::from("apart");
    while home(&a, 16) == home(&b, 16) {
        a.push('x');
    }

    let mut map = HashMap::new();
    assert_eq!(map.insert(a.clone(), 'a'), None);
    assert_eq!(map.insert(b.clone(), 'b'), None);
    assert_eq!(map.insert(c.clone(), 'c'), None);
    assert_eq!(map.capacity(), 16);

    assert_eq!(map.remove(&b), Some('b'));
    assert_eq!(map.get(&c), Some(&'c'));
    assert_eq!(map.get(&a), Some(&'a'));
    assert_eq!(map.get(&b), None);
}

#[test]
fn insert_finds_a_key_that_lies_beyond_a_removed_one() {
    let keys = colliding_keys(3, 16);
    let mut map = HashMap::new();
    for (i, key) in keys.iter().enumerate() {
        assert_eq!(map.insert(key.clone(), i), None);
    }
    assert_eq!(map.remove(&keys[0]), Some(0));
    assert_eq!(map.len(), 2);

    // The last key sits two slots past the mark that the removal left.
    assert_eq!(map.insert(keys[2].clone(), 20), Some(2));
    assert_eq!(map.len(), 2);
    assert_eq!(map.remove(&keys[2]), Some(20));
    assert_eq!(map.get(&keys[2]), None);
    assert_eq!(map.remove(&keys[2]), None);
    assert_eq!(map.get(&keys[1]), Some(&1));

    // A new key takes the place of the mark.
    assert_eq!(map.insert(keys[0].clone(), 30), None);
    assert_eq!(map.get(&keys[0]), Some(&30));
    assert_eq!(map.get(&keys[1]), Some(&1));
    assert_eq!(map.len(), 2);
}

#[test]
fn colliding_keys_wrap_round_the_end_of_the_array() {
    let keys = colliding_keys(14, 16);
    let mut map = HashMap::new();
    for (i, key) in keys.iter().enumerate() {
        assert_eq!(map.insert(key.clone(), i), None);
    }
    assert_eq!(map.capacity(), 16);
    for (i, key) in keys.iter().enumerate() {
        assert_eq!(map.get(key), Some(&i));
    }
    for (i, key) in keys.iter().enumerate() {
        assert_eq!(map.remove(key), Some(i));
    }
    assert_eq!(map.len(), 0);
    for key in keys.iter() {
        assert_eq!(map.get(key), None);
    }
}

#[test]
fn capacity_doubles_before_the_load_passes_nine_tenths() {
    let mut map = HashMap::new();
    for k in 0..14u64 {
        map.insert(k, k);
        assert_eq!(map.capacity(), 16);
    }
    // 15 of 16 is more than nine tenths.
    map.insert(14, 14);
    assert_eq!(map.capacity(), 32);
    for k in 15..28u64 {
        map.insert(k, k);
        assert_eq!(map.capacity(), 32);
    }
    // 29 of 32 is more than nine tenths.
    map.insert(28, 28);
    assert_eq!(map.capacity(), 64);
    assert_eq!(map.len(), 29);
    for k in 0..29u64 {
        assert_eq!(map.get(&k), Some(&k));
    }
    assert_eq!(map.get(&29), None);
}

#[test]
fn growth_is_decided_before_the_key_is_searched() {
    let mut map = HashMap::new();
    for k in 0..14u64 {
        map.insert(k, k);
    }
    assert_eq!(map.capacity(), 16);
    assert_eq!(map.insert(3, 33), Some(3));
    assert_eq!(map.capacity(), 32);
    assert_eq!(map.len(), 14);
    assert_eq!(map.get(&3), Some(&33));
}

#[test]
fn capacity_never_shrinks() {
    let mut map = HashMap::new();
    for k in 0..100u64 {
        map.insert(k, ());
    }
    let grown = map.capacity();
    assert_eq!(grown, 128);
    for k in 0..100u64 {
        assert_eq!(map.remove(&k), Some(()));
    }
    assert_eq!(map.len(), 0);
    assert_eq!(map.capacity(), grown);
}

#[test]
fn marks_of_removed_entries_do_not_make_the_table_grow() {
    let mut map = HashMap::new();
    map.insert(u64::MAX, 0u64);
    for k in 0..1000u64 {
        assert_eq!(map.insert(k, k + 1), None);
        assert_eq!(map.get(&k), Some(&(k + 1)));
        assert_eq!(map.remove(&k), Some(k + 1));
        assert_eq!(map.get(&k), None);
        assert_eq!(map.get(&u64::MAX), Some(&0));
        assert_eq!(map.capacity(), 16);
        assert_eq!(map.len(), 1);
    }
}

#[test]
fn many_keys_come_and_go() {
    let mut map = HashMap::new();
    for k in 0..500u64 {
        assert_eq!(map.insert(format!("k{}", k), k), None);
    }
    for k in (0..500u64).filter(|k| k % 3 == 0) {
        assert_eq!(map.remove(&format!("k{}", k)), Some(k));
    }
    for k in 0..500u64 {
        let expected = if k % 3 == 0 { None } else { Some(k) };
        assert_eq!(map.get(&format!("k{}", k)).copied(), expected);
    }
    for k in (0..500u64).filter(|k| k % 3 == 0) {
        assert_eq!(map.insert(format!("k{}", k), k + 1000), None);
    }
    for k in 0..500u64 {
        let expected = if k % 3 == 0 { k + 1000 } else { k };
        assert_eq!(map.get(&format!("k{}", k)), Some(&expected));
    }
    assert_eq!(map.len(), 500);
}

#[test]
fn text_digest_is_the_default_hash_of_the_text() {
    for text in ["", "foo", "qux", "a longer key, with some more text in it", "\u{e9}t\u{e9}"] {
        let mut hasher = DefaultHasher::new();
        text.hash(&mut hasher);
        assert_eq!(text.digest(), hasher.finish());
        assert_eq!(String::from(text).digest(), text.digest());
    }
    assert_ne!("foo".digest(), "qux".digest());
}

#[test]
fn integer_digest_is_the_hash_of_its_bytes() {
    let little_endian = 1u16.to_ne_bytes() == 1u16.to_le_bytes();
    for x in [0u64, 1, 16, 0x0102_0304_0506_0708, u64::MAX] {
        let mut hasher = DefaultHasher::new();
        hasher.write(&x.to_le_bytes());
        assert_eq!(x.digest(), hasher.finish());
        if little_endian {
            // Where the machine stores the least significant byte first,
            // this is the default hash of the integer.
            let mut hasher = DefaultHasher::new();
            x.hash(&mut hasher);
            assert_eq!(x.digest(), hasher.finish());
        }
    }
    assert_ne!(1u64.digest(), 2u64.digest());
}

#[test]
fn same_compares_keys_by_value() {
    assert!("foo".same(&"foo"));
    assert!(!"foo".same(&"fop"));
    assert!(!"foo".same(&"fo"));
    assert!(!"".same(&"a"));
    assert!("".same(&""));
    assert!(String::from("foo").same(&String::from("foo")));
    assert!(!String::from("foo").same(&String::from("bar")));
    assert!(5u64.same(&5));
    assert!(!5u64.same(&6));
}
