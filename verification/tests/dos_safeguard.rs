use adaptive_map::adaptive_map::DISPLACEMENT_THRESHOLD;
use adaptive_map::HashMap;

// These values all hash, under the fast one-shot mixer, into a narrow window
// of the low hash bits, so they pile into one probe sequence at any table
// capacity this suite reaches.
static VALUES: &[u32] = &[
    513314, 2977019, 3921903, 5005242, 6124431, 7696812, 16129307, 16296222, 17425488,
        17898424, 19926075, 24768203, 25614709, 29006382, 30234341, 32377109, 34394074,
        40324616, 40892565, 43025295, 43208269, 43761687, 43883113, 45274367, 47850630,
        48320162, 48458322, 48960668, 49470322, 50545229, 51305930, 51391781, 54465806,
        54541272, 55497339, 55788640, 57113511, 58250085, 58326435, 59316149, 62059483,
        64136437, 64978683, 65076823, 66571125, 66632487, 68067917, 69921206, 70107088,
        71829636, 76189936, 78639014, 80841986, 81844602, 83028134, 85818283, 86768196,
        90374529, 91119955, 91540016, 93761675, 94583431, 95027700, 95247246, 95564585,
        95663108, 95742804, 96147866, 97538112, 101129622, 101782620, 102170444,
        104790535, 104815436, 105802703, 106364729, 106520836, 106563112, 107893429,
        112185856, 113337504, 116895916, 122566166, 123359972, 123897385, 124028529,
        125100458, 127234401, 128292718, 129767575, 132088268, 133737047, 133796663,
        135903283, 136513103, 138868673, 139106372, 141282728, 141628856, 143250884,
        143784740, 149114217, 150882858, 151116713, 152221499, 154271016, 155574791,
        156179900, 157228942, 157518087, 159572211, 161327800, 161750984, 162237441,
        164793050, 165064176, 166764350, 166847618, 167111553, 168117915, 169230761,
        170322861, 170937855, 172389295, 173619266, 177610645, 178415544, 179549865,
        185538500, 185906457, 195946437, 196591640, 196952032, 197505405, 200021193,
        201058930, 201496104, 204691301, 206144773, 207320627, 211221882, 215434456,
];

#[test]
fn test_dos_safeguard() {
    let mut map: HashMap<u32, ()> = HashMap::new();
    let mut values = VALUES.iter();
    for &value in (&mut values).take(DISPLACEMENT_THRESHOLD - 1) {
        map.insert(value, ());
    }
    assert!(!map.hash_builder().uses_safe_hashing());
    map.reserve(1000);
    for &value in values.take(8) {
        map.insert(value, ());
    }
    assert!(map.hash_builder().uses_safe_hashing());
}

// Regression test
#[test]
fn test_safeguarded_insertion() {
    let mut map: HashMap<u32, usize> = HashMap::new();
    let values = VALUES.iter().enumerate();
    for (i, &value) in values.clone() {
        map.insert(value, i);
    }
    for (i, &value) in values {
        assert_eq!(*map.get(&value).unwrap(), i);
    }
}

#[test]
fn post_switch_reads_every_key() {
    let mut map: HashMap<u32, ()> = HashMap::new();
    let mut values = VALUES.iter();
    for &value in (&mut values).take(DISPLACEMENT_THRESHOLD - 1) {
        map.insert(value, ());
    }
    map.reserve(1000);
    for &value in values.take(8) {
        map.insert(value, ());
    }
    assert!(map.hash_builder().uses_safe_hashing());
    for &value in VALUES.iter().take(DISPLACEMENT_THRESHOLD - 1 + 8) {
        assert_eq!(map.get(&value), Some(&()));
    }
    assert!(map.check_invariants());
}

#[test]
fn mode_never_reverts() {
    let mut map: HashMap<u32, ()> = HashMap::new();
    for &value in VALUES.iter() {
        map.insert(value, ());
    }
    assert!(map.hash_builder().uses_safe_hashing());
    for &value in VALUES.iter() {
        map.remove(&value);
        assert!(map.hash_builder().uses_safe_hashing());
    }
    map.clear();
    assert!(map.hash_builder().uses_safe_hashing());
    for i in 0..100u32 {
        map.insert(i, ());
        assert!(map.hash_builder().uses_safe_hashing());
    }
}
