use adaptive_map::adaptive_hashing::AdaptiveState;
use adaptive_map::entry::Entry;
use adaptive_map::HashMap;

#[test]
fn fast_mixer_exact_value() {
    let state = AdaptiveState::new_for_fast_hashing();
    let mut hasher = state.build_hasher();
    hasher.write_word(513314);
    assert_eq!(hasher.finish(), 884728701736402776);
    let mut hasher = state.build_hasher();
    hasher.write_word(0);
    assert_eq!(hasher.finish(), 0);
}

#[test]
fn safe_hasher_is_keyed_and_deterministic() {
    let state = AdaptiveState::new_for_safe_hashing();
    let mut h1 = state.build_hasher();
    h1.write_word(0);
    let mut h2 = state.build_hasher();
    h2.write_word(0);
    // deterministic under one state
    assert_eq!(h1.finish(), h2.finish());
    // really hashed: the raw word never comes back unchanged for these inputs
    assert_ne!(h1.finish(), 0);
    let mut h3 = state.build_hasher();
    h3.write_word(1);
    assert_ne!(h3.finish(), 1);
}

#[test]
fn adaptive_state_constructors() {
    assert!(AdaptiveState::new().uses_safe_hashing());
    assert!(AdaptiveState::new_for_safe_hashing().uses_safe_hashing());
    assert!(!AdaptiveState::new_for_fast_hashing().uses_safe_hashing());
    let mut state = AdaptiveState::new_for_fast_hashing();
    state.switch_to_safe_hashing();
    assert!(state.uses_safe_hashing());
}

#[test]
fn entry_vacant_then_occupied() {
    let mut map: HashMap<u32, u32> = HashMap::new();
    match map.entry(5) {
        Entry::Vacant(v) => {
            assert_eq!(*v.key(), 5);
            map.vacant_insert(v, 50);
        }
        Entry::Occupied(_) => panic!("fresh key cannot be occupied"),
    }
    assert_eq!(map.get(&5), Some(&50));
    match map.entry(5) {
        Entry::Occupied(mut o) => {
            assert_eq!(*o.key(), 5);
            assert_eq!(map.occupied_get(&o), &50);
            assert_eq!(map.occupied_insert(&o, 51), 50);
            assert_eq!(map.occupied_get(&o), &51);
            assert_eq!(o.take_key(), Some(5));
            assert_eq!(o.take_key(), None);
            assert_eq!(map.occupied_remove(o), 51);
        }
        Entry::Vacant(_) => panic!("bound key cannot be vacant"),
    }
    assert_eq!(map.get(&5), None);
    assert_eq!(map.len(), 0);
}

#[test]
fn entry_key_on_both_variants() {
    let mut map: HashMap<u32, u32> = HashMap::new();
    map.insert(9, 90);
    let e = map.entry(9);
    assert_eq!(*e.key(), 9);
    let e = map.entry(10);
    assert_eq!(*e.key(), 10);
}

#[test]
fn or_insert_keeps_or_fills() {
    let mut map: HashMap<u32, u32> = HashMap::new();
    let e = map.entry(1);
    map.or_insert(e, 10);
    assert_eq!(map.get(&1), Some(&10));
    let e = map.entry(1);
    map.or_insert(e, 99);
    assert_eq!(map.get(&1), Some(&10));
    assert_eq!(map.len(), 1);
}
