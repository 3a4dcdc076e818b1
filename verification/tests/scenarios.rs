use adaptive_map::HashMap;

#[test]
fn mass_insert_remove() {
    let mut map: HashMap<u32, u32> = HashMap::new();
    for _pass in 0..10 {
        for i in 1..=1000u32 {
            map.insert(i, i);
            if i % 50 == 0 || i == 1 || i == 1000 {
                for j in 1..=1000u32 {
                    if j <= i {
                        assert_eq!(map.get(&j), Some(&j));
                    } else {
                        assert_eq!(map.get(&j), None);
                    }
                }
            } else {
                assert_eq!(map.get(&i), Some(&i));
                assert_eq!(map.get(&(i + 1)), None);
            }
        }
        for i in 1..=1000u32 {
            assert!(map.contains_key(&i));
            assert_eq!(map.remove(&i), Some(i));
            assert!(!map.contains_key(&i));
        }
        assert_eq!(map.len(), 0);
        for i in 1..=1000u32 {
            map.insert(i, i);
        }
        for i in (1..=1000u32).rev() {
            assert!(map.contains_key(&i));
            assert_eq!(map.remove(&i), Some(i));
            assert!(!map.contains_key(&i));
        }
        assert_eq!(map.len(), 0);
    }
}

#[test]
fn queue_pattern_keeps_len() {
    let mut map: HashMap<u32, u32> = HashMap::new();
    for i in 1..=1000u32 {
        map.insert(i, i);
    }
    for k in 1..=1_000_000u32 {
        assert_eq!(map.remove(&k), Some(k));
        map.insert(k + 1000, k + 1000);
        assert_eq!(map.len(), 1000);
    }
    assert!(map.check_invariants());
}

#[test]
fn growth_preserves_contents() {
    let mut map: HashMap<u32, u32> = HashMap::with_capacity(0);
    for i in 1..=5000u32 {
        map.insert(i, i);
    }
    for i in 1..=5000u32 {
        assert_eq!(map.get(&i), Some(&i));
    }
    assert_eq!(map.len(), 5000);
}

#[test]
fn stats_cumulative_sum_bounded() {
    let mut map: HashMap<u32, u32> = HashMap::with_capacity(0);
    for i in 1..=5000u32 {
        map.insert(i, i);
    }
    let mut buf: Vec<usize> = Vec::new();
    map.stats(&mut buf);
    assert_eq!(buf.len(), map.len());
    let max = buf.iter().copied().max().unwrap_or(0);
    let sum: usize = buf.iter().copied().sum();
    assert!(sum <= buf.len() * max);
}
