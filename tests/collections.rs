use bump_allocator::HashMap;

#[test]
fn new_map_is_empty() {
    let m: HashMap<u64, u64> = HashMap::new();
    assert_eq!(m.get(&1), None);
    let mut it = m.iter();
    assert!(it.next().is_none());
}

#[test]
fn insert_then_get() {
    let mut m: HashMap<u64, String> = HashMap::new();
    m.insert(7, String::from("seven"));
    m.insert(8, String::from("eight"));
    assert_eq!(m.get(&7).map(|s| s.as_str()), Some("seven"));
    assert_eq!(m.get(&8).map(|s| s.as_str()), Some("eight"));
    assert_eq!(m.get(&9), None);
}

#[test]
fn insert_same_key_overwrites() {
    let mut m: HashMap<u64, u64> = HashMap::new();
    m.insert(1, 10);
    m.insert(1, 20);
    assert_eq!(m.get(&1), Some(&20));
    let mut count = 0;
    let mut it = m.iter();
    while let Some((k, v)) = it.next() {
        assert_eq!((*k, *v), (1, 20));
        count += 1;
    }
    assert_eq!(count, 1);
}

#[test]
fn remove_returns_value_once() {
    let mut m: HashMap<u64, u64> = HashMap::new();
    m.insert(3, 30);
    m.insert(4, 40);
    assert_eq!(m.remove(&3), Some(30));
    assert_eq!(m.remove(&3), None);
    assert_eq!(m.get(&3), None);
    assert_eq!(m.get(&4), Some(&40));
}

#[test]
fn many_keys_round_trip() {
    let mut m: HashMap<u64, u64> = HashMap::new();
    for k in 0..200u64 {
        m.insert(k, k * 3);
    }
    for k in 0..200u64 {
        assert_eq!(m.get(&k), Some(&(k * 3)));
    }
    for k in (0..200u64).step_by(2) {
        assert_eq!(m.remove(&k), Some(k * 3));
    }
    for k in 0..200u64 {
        let expected = if k % 2 == 0 { None } else { Some(k * 3) };
        assert_eq!(m.get(&k).copied(), expected);
    }
}

#[test]
fn iter_yields_every_pair() {
    let mut m: HashMap<u64, u64> = HashMap::new();
    m.insert(5, 50);
    m.insert(6, 60);
    m.insert(7, 70);
    let mut seen: Vec<(u64, u64)> = Vec::new();
    let mut it = m.iter();
    while let Some((k, v)) = it.next() {
        seen.push((*k, *v));
    }
    seen.sort();
    assert_eq!(seen, vec![(5, 50), (6, 60), (7, 70)]);
    assert!(it.next().is_none());
}

#[test]
fn string_keys() {
    let mut m: HashMap<String, u32> = HashMap::new();
    m.insert(String::from("a"), 1);
    m.insert(String::from("b"), 2);
    assert_eq!(m.get(&String::from("b")), Some(&2));
    assert_eq!(m.remove(&String::from("a")), Some(1));
    assert_eq!(m.get(&String::from("a")), None);
}
