use aoc25::ds::freq_map::FreqMap;
use aoc25::ds::hash_set_ext::HashSetExt;
use std::collections::HashSet as StdHashSet;

#[test]
fn hash_set_ext_basic() {
    let mut s = HashSetExt::new();
    assert!(s.insert(1));
    assert!(!s.insert(1));
    assert!(s.contains(&1));
    s.extend(vec![2, 3]);
    assert_eq!(s.len(), 3);
    s.clear();
    assert!(s.is_empty());
}

#[test]
fn empty_contains_len() {
    let s: HashSetExt<i32> = HashSetExt::new();
    assert!(!s.contains(&42));
    assert_eq!(s.len(), 0);
    assert!(s.is_empty());
}

#[test]
fn from_std_set() {
    let mut stds = StdHashSet::new();
    stds.insert(1);
    stds.insert(2);
    let s: HashSetExt<i32> = stds.into();
    assert!(s.contains(&1) && s.contains(&2));
    assert_eq!(s.len(), 2);
}

#[test]
fn freq_map_basic() {
    let mut f = FreqMap::new();
    f.inc('a'); f.inc('a'); f.inc('b');
    assert_eq!(f.get(&'a'), 2);
    f.dec(&'a'); assert_eq!(f.get(&'a'), 1);
    f.dec(&'a'); assert_eq!(f.get(&'a'), 0);
    assert_eq!(f.len(), 1); // only 'b'
}

#[test]
fn dec_missing_is_noop() {
    let mut f = FreqMap::new();
    f.inc(1);
    f.dec(&2); // not present
    assert_eq!(f.get(&1), 1);
    assert_eq!(f.get(&2), 0);
}
