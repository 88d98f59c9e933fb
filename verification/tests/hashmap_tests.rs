use regexp::hashmap::HashMap;

#[test]
fn insert() {
    let mut map: HashMap<String, i32> = HashMap::new();
    assert!(map.is_empty());
    assert_eq!(map.len(), 0);
    map.insert(String::from("foo"), 0);
    assert!(!map.is_empty());
    assert_eq!(map.len(), 1);
    assert_eq!(map.get(&String::from("foo")), Some(&0));
    assert!(map.contains_key(&String::from("foo")));
    assert_eq!(map.remove(&String::from("foo")), Some(0));
    assert!(map.is_empty());
    assert_eq!(map.len(), 0);
    assert_eq!(map.get(&String::from("foo")), None);
    assert!(!map.contains_key(&String::from("foo")));
}

#[test]
fn remove() {
    let mut map: HashMap<i32, &str> = HashMap::new();
    map.insert(1, "a");
    assert_eq!(map.remove(&1), Some("a"));
    assert_eq!(map.remove(&1), None);

    let mut map: HashMap<i32, &str> = HashMap::new();
    map.insert(1, "a");
    let entry = map.remove_entry(&1);
    assert_eq!(entry, Some((1, "a")));
    assert_eq!(map.remove(&1), None);
}

#[test]
fn lib_iter() {
    let mut map: HashMap<String, i32> = HashMap::new();
    map.insert(String::from("foo"), 42);
    map.insert(String::from("bar"), 43);
    map.insert(String::from("baz"), 142);
    map.insert(String::from("quox"), 7);

    let mut it = map.iter();
    let mut seen = 0;
    while let Some((k, &v)) = it.next() {
        match k.as_str() {
            "foo" => assert_eq!(v, 42),
            "bar" => assert_eq!(v, 43),
            "baz" => assert_eq!(v, 142),
            "quox" => assert_eq!(v, 7),
            _ => unreachable!(),
        }
        seen += 1;
    }
    assert_eq!(seen, 4);

    let mut items = 0;
    let mut consuming = map.into_iter();
    while let Some((k, v)) = consuming.next() {
        match k.as_str() {
            "foo" => assert_eq!(v, 42),
            "bar" => assert_eq!(v, 43),
            "baz" => assert_eq!(v, 142),
            "quox" => assert_eq!(v, 7),
            _ => unreachable!(),
        }
        items += 1;
    }
    assert_eq!(items, 4);
}

#[test]
fn lib_empty_hashmap() {
    let mut map: HashMap<String, &str> = HashMap::new();
    assert_eq!(map.contains_key(&String::from("key")), false);
    assert_eq!(map.get(&String::from("key")), None);
    assert_eq!(map.remove(&String::from("key")), None);
}

#[test]
fn growth_keeps_every_entry() {
    let mut map: HashMap<i32, i32> = HashMap::new();
    for k in 0..100 {
        assert_eq!(map.insert(k, k * k), None);
    }
    assert_eq!(map.len(), 100);
    for k in 0..100 {
        assert_eq!(map.get(&k), Some(&(k * k)));
    }
    assert_eq!(map.insert(7, -1), Some(49));
    assert_eq!(map.len(), 100);
    assert_eq!(map.get(&7), Some(&-1));
}

#[test]
fn negative_keys_are_distinct() {
    let mut map: HashMap<i32, &str> = HashMap::new();
    map.insert(-1, "minus");
    map.insert(1, "plus");
    assert_eq!(map.get(&-1), Some(&"minus"));
    assert_eq!(map.get(&1), Some(&"plus"));
    assert_eq!(map.len(), 2);
}
