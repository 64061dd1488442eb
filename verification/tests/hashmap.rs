use panama::hashmap::HashMap;

#[test]
fn insert() {
    let mut map = HashMap::new();
    assert_eq!(map.len(), 0);
    assert!(map.is_empty());
    map.insert("foo", 42);
    assert_eq!(map.len(), 1);
    assert!(!map.is_empty());
    assert_eq!(map.get(&"foo"), Some(&42));
    assert_eq!(map.remove(&"foo"), Some(42));
    assert_eq!(map.len(), 0);
    assert!(map.is_empty());
    assert_eq!(map.get(&"foo"), None);
}

#[test]
fn iter() {
    let mut map = HashMap::new();
    map.insert("foo", 42);
    map.insert("bar", 43);
    map.insert("baz", 44);
    map.insert("quox", 7);
    let mut it = map.iter();
    while let Some((&k, &v)) = it.next() {
        match k {
            "foo" => assert_eq!(v, 42),
            "bar" => assert_eq!(v, 43),
            "baz" => assert_eq!(v, 44),
            "quox" => assert_eq!(v, 7),
            _ => unreachable!(),
        }
    }
    let mut count = 0;
    let mut it2 = map.iter();
    while let Some(_) = it2.next() {
        count += 1;
    }
    assert_eq!(count, 4);
}

#[test]
fn replace_returns_previous() {
    let mut map = HashMap::new();
    assert_eq!(map.insert("k", 1), None);
    assert_eq!(map.insert("k", 2), Some(1));
    assert_eq!(map.get(&"k"), Some(&2));
    assert_eq!(map.len(), 1);
}

#[test]
fn remove_missing() {
    let mut map: HashMap<&str, u64> = HashMap::new();
    assert_eq!(map.remove(&"nope"), None);
    map.insert("a", 1);
    assert_eq!(map.remove(&"nope"), None);
    assert_eq!(map.len(), 1);
}

#[test]
fn grows_through_resizes() {
    let mut map = HashMap::new();
    let keys = ["a", "b", "c", "d", "e", "f", "g", "h", "i", "j", "k", "l"];
    for (i, k) in keys.iter().enumerate() {
        map.insert(*k, i as u64);
    }
    assert_eq!(map.len(), keys.len());
    for (i, k) in keys.iter().enumerate() {
        assert_eq!(map.get(k), Some(&(i as u64)));
    }
}

#[test]
fn integer_keys() {
    let mut map = HashMap::new();
    map.insert(5u64, "five");
    map.insert(256u64, "two hundred fifty-six");
    assert_eq!(map.get(&5u64), Some(&"five"));
    assert_eq!(map.get(&256u64), Some(&"two hundred fifty-six"));
    assert_eq!(map.get(&6u64), None);
}
