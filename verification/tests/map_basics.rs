use adaptive_map::HashMap;

#[test]
fn size_accounting() {
    let mut map: HashMap<u64, u64> = HashMap::new();
    assert_eq!(map.len(), 0);
    assert!(map.is_empty());
    map.insert(3, 30);
    map.insert(4, 40);
    assert_eq!(map.len(), 2);
    map.insert(3, 31);
    assert_eq!(map.len(), 2);
    assert_eq!(map.get(&3), Some(&31));
    map.remove(&4);
    assert_eq!(map.len(), 1);
    map.remove(&4);
    assert_eq!(map.len(), 1);
    map.remove(&3);
    assert_eq!(map.len(), 0);
}

#[test]
fn round_trip() {
    let mut map: HashMap<u32, String> = HashMap::new();
    assert_eq!(map.insert(7, String::from("seven")), None);
    assert_eq!(map.get(&7), Some(&String::from("seven")));
    assert_eq!(map.remove(&7), Some(String::from("seven")));
    assert_eq!(map.get(&7), None);
}

#[test]
fn iteration_yields_each_surviving_pair_once() {
    let mut map: HashMap<u32, u32> = HashMap::new();
    for i in 0..100u32 {
        map.insert(i, i * 2);
    }
    for i in 0..50u32 {
        map.remove(&(i * 2));
    }
    let mut items = map.into_items();
    items.sort();
    let survivors: Vec<(u64, u32)> = (0..100u32)
        .filter(|i| *i % 2 == 1)
        .map(|i| (i as u64, i * 2))
        .collect();
    assert_eq!(items, survivors);
}

#[test]
fn invariants_hold_after_mutations() {
    let mut map: HashMap<u32, u32> = HashMap::new();
    assert!(map.check_invariants());
    for i in 0..500u32 {
        map.insert(i.wrapping_mul(2654435761), i);
        assert!(map.check_invariants());
    }
    for i in 0..250u32 {
        map.remove(&(i.wrapping_mul(2654435761)));
        assert!(map.check_invariants());
    }
    map.clear();
    assert!(map.check_invariants());
}

#[test]
fn load_stays_under_usable_capacity() {
    let mut map: HashMap<u32, u32> = HashMap::new();
    for i in 0..10_000u32 {
        map.insert(i, i);
        assert!(map.len() <= map.capacity() || map.capacity() == 0);
    }
}

#[test]
fn reserve_prevents_reallocation() {
    let mut map: HashMap<u32, u32> = HashMap::new();
    map.reserve(1000);
    let cap_before = map.capacity();
    for i in 0..1000u32 {
        map.insert(i, i);
    }
    assert_eq!(map.capacity(), cap_before);
}

#[test]
fn usable_capacity_formula() {
    let map: HashMap<u32, u32> = HashMap::with_capacity(0);
    assert_eq!(map.capacity(), 0);
    let map: HashMap<u32, u32> = HashMap::with_capacity(11);
    // eleven entries need sixteen buckets; 16 * 10 / 11 = 14 are usable
    assert_eq!(map.capacity(), 14);
    let map: HashMap<u32, u32> = HashMap::with_capacity(7);
    // seven entries fit in the initial eight buckets: 8 * 10 / 11 = 7
    assert_eq!(map.capacity(), 7);
}

#[test]
fn growth_keeps_every_binding() {
    let mut map: HashMap<u32, u32> = HashMap::new();
    for i in 0..200u32 {
        map.insert(i, i + 7);
    }
    map.reserve(100_000);
    assert_eq!(map.len(), 200);
    for i in 0..200u32 {
        assert_eq!(map.get(&i), Some(&(i + 7)));
    }
    assert!(map.check_invariants());
}

#[test]
fn signed_and_wide_keys() {
    let mut map: HashMap<i32, u8> = HashMap::new();
    map.insert(-1, 1);
    map.insert(1, 2);
    map.insert(i32::MIN, 3);
    assert_eq!(map.get(&-1), Some(&1));
    assert_eq!(map.get(&1), Some(&2));
    assert_eq!(map.get(&i32::MIN), Some(&3));
    let mut map64: HashMap<u64, u8> = HashMap::new();
    map64.insert(u64::MAX, 9);
    map64.insert(0, 8);
    assert_eq!(map64.get(&u64::MAX), Some(&9));
    assert_eq!(map64.get(&0), Some(&8));
}

#[test]
fn empty_map_operations() {
    let mut map: HashMap<u32, u32> = HashMap::new();
    assert_eq!(map.get(&1), None);
    assert!(!map.contains_key(&1));
    assert_eq!(map.remove(&1), None);
    assert_eq!(map.len(), 0);
    assert_eq!(map.capacity(), 0);
    map.clear();
    assert_eq!(map.len(), 0);
    let map: HashMap<u32, u32> = HashMap::new();
    assert_eq!(map.into_items(), Vec::new());
}
