use hashmap::HashMap;

#[test]
fn test_insert() {
    let key = "key";
    let mut map = HashMap::new();
    assert_eq!(map.len(), 0);
    map.insert(key, 42);
    assert_eq!(map.len(), 1);
    assert_eq!(map.get(&"key"), Some(&42));
    map.insert(key, 69);
    assert_eq!(map.len(), 1);
    assert_eq!(map.get(&"key"), Some(&69));
    assert_eq!(map.get(&"value"), None);
}

#[test]
fn test_string() {
    let mut map = HashMap::new();
    map.insert("string".to_string(), 42);
    assert_eq!(map.get(&"string"), Some(&42));
}

#[test]
fn test_remove() {
    let mut map = HashMap::new();
    map.insert("key".to_string(), 42);
    assert_eq!(map.get(&"key"), Some(&42));
    assert_eq!(map.len(), 1);
    assert_eq!(map.remove(&"key"), Some(42));
    assert_eq!(map.len(), 0);
    assert_eq!(map.get(&"key"), None);
    assert_eq!(map.remove(&"key"), None);
}

#[test]
fn test_contains_key() {
    let mut map = HashMap::new();
    assert_eq!(map.contains_key(&"key"), false);
    map.insert("key".to_string(), Some(42));
    assert_eq!(map.contains_key(&"key"), true);
}

#[test]
fn test_index() {
    let mut map = HashMap::new();
    map.insert("key", 42);
    assert_eq!(*map.index(&"key"), 42);
}

#[test]
#[should_panic]
fn test_invalid_index() {
    let map: HashMap<String, i32> = HashMap::new();
    let _ = map.index(&"key");
}

#[test]
fn test_into_iter() {
    let mut map = HashMap::new();

    let v1 = vec![('a', 42), ('b', 11), ('c', 422), ('d', 3)];
    for (key, value) in v1.iter() {
        map.insert(key.clone(), value.clone());
    }
    let mut v2: Vec<(char, i32)> = Vec::new();
    let mut it = map.into_iter();
    while let Some(pair) = it.next() {
        v2.push(pair);
    }
    v2.sort();
    assert_eq!(v1, v2);
}

#[test]
fn test_iter() {
    let mut map = HashMap::new();

    let v1 = vec![('a', 42), ('b', 11), ('c', 422), ('d', 3)];
    for (key, value) in v1.iter() {
        map.insert(key.clone(), value.clone());
    }
    let mut v2: Vec<(char, i32)> = Vec::new();
    let mut it = map.iter();
    while let Some(pair) = it.next() {
        v2.push(*pair);
    }
    v2.sort();
    assert_eq!(v1, v2);
}

#[test]
fn test_planets() {
    let mut map: HashMap<&str, f32> = HashMap::new();
    map.insert("Mercury", 0.4);
    map.insert("Venus", 0.7);
    map.insert("Earth", 1.0);
    map.insert("Mars", 1.5);
    assert_eq!(map.len(), 4);
    assert_eq!(map.get(&"Earth"), Some(&1.0));
    assert_eq!(map.contains_key(&"Pluto"), false);
}

#[test]
fn test_replace_returns_old() {
    let mut map = HashMap::new();
    assert_eq!(map.insert("key", 42), None);
    assert_eq!(map.insert("key", 69), Some(42));
    assert_eq!(map.get(&"key"), Some(&69));
    assert_eq!(map.len(), 1);
}

#[test]
fn test_resize_keeps_pairs() {
    let mut map: HashMap<u64, u64> = HashMap::new();
    let mut k: u64 = 0;
    while k < 100 {
        map.insert(k, k * k);
        k += 1;
    }
    assert_eq!(map.len(), 100);
    let mut k: u64 = 0;
    while k < 100 {
        assert_eq!(map.get(&k), Some(&(k * k)));
        k += 1;
    }
    assert_eq!(map.get(&100), None);
}

#[test]
fn test_resize_string_keys() {
    let mut map: HashMap<String, usize> = HashMap::new();
    let mut i: usize = 0;
    while i < 40 {
        map.insert(format!("key-{}", i), i);
        i += 1;
    }
    assert_eq!(map.len(), 40);
    let mut i: usize = 0;
    while i < 40 {
        assert_eq!(map.get(&format!("key-{}", i).as_str()), Some(&i));
        i += 1;
    }
}

#[test]
fn test_str_probe_on_string_keys() {
    let mut map: HashMap<String, i32> = HashMap::new();
    map.insert("alpha".to_string(), 1);
    map.insert("beta".to_string(), 2);
    assert_eq!(map.get(&"alpha"), Some(&1));
    assert!(map.contains_key(&"beta"));
    assert_eq!(map.get(&"alpha".to_string()), Some(&1));
    assert_eq!(map.remove(&"beta"), Some(2));
    assert_eq!(map.get(&"beta"), None);
    assert_eq!(map.len(), 1);
}

#[test]
fn test_is_empty() {
    let mut map = HashMap::new();
    assert!(map.is_empty());
    map.insert('x', 1);
    assert!(!map.is_empty());
    map.remove(&'x');
    assert!(map.is_empty());
}

#[test]
fn test_get_mut() {
    let mut map = HashMap::new();
    map.insert("count".to_string(), 10);
    if let Some(v) = map.get_mut(&"count") {
        *v += 5;
    }
    assert_eq!(map.get(&"count"), Some(&15));
    assert_eq!(map.get_mut(&"missing"), None);
}

#[test]
fn test_entry_or_insert() {
    let mut map: HashMap<&str, i32> = HashMap::new();
    let e = map.entry("a");
    assert_eq!(*e.or_insert(&mut map, 7), 7);
    assert_eq!(map.get(&"a"), Some(&7));
    let e = map.entry("a");
    assert_eq!(*e.or_insert(&mut map, 99), 7);
    assert_eq!(map.get(&"a"), Some(&7));
    assert_eq!(map.len(), 1);
}

#[test]
fn test_entry_or_insert_with() {
    let mut map: HashMap<&str, String> = HashMap::new();
    let e = map.entry("greeting");
    let v = e.or_insert_with(&mut map, || "hello".to_string());
    assert_eq!(v, "hello");
    let e = map.entry("greeting");
    let v = e.or_insert_with(&mut map, || "never".to_string());
    assert_eq!(v, "hello");
}

#[test]
fn test_entry_and_modify() {
    let mut map: HashMap<&str, i32> = HashMap::new();
    let e = map.entry("poneyland");
    let e = e.and_modify(&mut map, |v| v + 1);
    assert_eq!(*e.or_insert(&mut map, 42), 42);
    let e = map.entry("poneyland");
    let e = e.and_modify(&mut map, |v| v + 1);
    assert_eq!(*e.or_insert(&mut map, 0), 43);
    assert_eq!(map.len(), 1);
}

#[test]
fn test_entry_get() {
    let mut map: HashMap<char, i32> = HashMap::new();
    map.insert('k', 3);
    match map.entry('k') {
        hashmap::entry::Entry::Occupied(e) => {
            assert_eq!(*e.get(&map), 3);
            let v = e.get_mut(&mut map);
            *v = 4;
        }
        hashmap::entry::Entry::Vacant(_) => panic!("expected an occupied entry"),
    }
    assert_eq!(map.get(&'k'), Some(&4));
}

#[test]
fn test_from_pairs() {
    let map: HashMap<&str, f32> = HashMap::from_pairs(vec![
        ("Mercury", 0.4),
        ("Venus", 0.7),
        ("Earth", 1.0),
        ("Mars", 1.5),
    ]);
    assert_eq!(map.len(), 4);
    assert_eq!(map.get(&"Venus"), Some(&0.7));
}

#[test]
fn test_from_pairs_later_duplicate_wins() {
    let map: HashMap<char, i32> = HashMap::from_pairs(vec![('a', 1), ('b', 2), ('a', 3)]);
    assert_eq!(map.len(), 2);
    assert_eq!(map.get(&'a'), Some(&3));
    assert_eq!(map.get(&'b'), Some(&2));
}

#[test]
fn test_into_iter_drains_everything() {
    let mut map: HashMap<u64, u64> = HashMap::new();
    let mut k: u64 = 0;
    while k < 20 {
        map.insert(k, k + 1);
        k += 1;
    }
    let mut seen: u64 = 0;
    let mut it = map.into_iter();
    while let Some((k, v)) = it.next() {
        assert_eq!(v, k + 1);
        seen += 1;
    }
    assert_eq!(seen, 20);
    assert!(it.next().is_none());
}

#[test]
fn test_compute_hash() {
    assert_eq!(hashmap::compute_hash(&7u64, 0), None);
    let a = hashmap::compute_hash(&7u64, 16);
    let b = hashmap::compute_hash(&7u64, 16);
    assert!(a.is_some());
    assert_eq!(a, b);
    assert_eq!(
        hashmap::compute_hash_unchecked(&7u64, 16),
        a.unwrap()
    );
    assert!(hashmap::compute_hash_unchecked(&7u64, 16) < 16);
}

#[test]
fn test_iter_empty() {
    let map: HashMap<u64, u64> = HashMap::new();
    let mut it = map.iter();
    assert!(it.next().is_none());
}

#[test]
fn test_into_iter_empty() {
    let map: HashMap<char, i32> = HashMap::new();
    let mut it = map.into_iter();
    assert!(it.next().is_none());
}

#[test]
fn test_usize_keys() {
    let mut map: HashMap<usize, &str> = HashMap::new();
    map.insert(3, "three");
    map.insert(5, "five");
    assert_eq!(map.get(&3), Some(&"three"));
    assert_eq!(map.remove(&5), Some("five"));
    assert_eq!(map.remove(&4), None);
    assert_eq!(map.len(), 1);
}

#[test]
fn test_collect_pairs_owning() {
    let mut map: HashMap<char, i32> = HashMap::new();
    let v1 = vec![('a', 42), ('b', 11), ('c', 422), ('d', 3)];
    for (key, value) in v1.iter() {
        map.insert(*key, *value);
    }
    let mut v2 = map.into_iter().collect_pairs();
    v2.sort();
    assert_eq!(v1, v2);
}

#[test]
fn test_collect_pairs_borrowing() {
    let mut map: HashMap<char, i32> = HashMap::new();
    let v1 = vec![('a', 42), ('b', 11), ('c', 422), ('d', 3)];
    for (key, value) in v1.iter() {
        map.insert(*key, *value);
    }
    let mut v2: Vec<(char, i32)> = map.iter().collect_pairs().into_iter().map(|p| *p).collect();
    v2.sort();
    assert_eq!(v1, v2);
    assert_eq!(map.len(), 4);
}
