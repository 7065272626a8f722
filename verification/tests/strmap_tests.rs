use phmap::{PhStrMap, StrExtendError};

fn batch(kvs: &[(&str, u64)]) -> Vec<(String, u64)> {
    kvs.iter().map(|(k, v)| (k.to_string(), *v)).collect()
}

#[test]
fn extend_and_get() {
    let mut m: PhStrMap<u64> = PhStrMap::default();
    m.extend(batch(&[("foo1", 1), ("foo2", 2), ("foo3", 3)])).unwrap();
    assert_eq!(m.get("foo1"), Some(&1));
    assert_eq!(m.get("foo2"), Some(&2));
    assert_eq!(m.get("foo3"), Some(&3));
    // Too short a key for the trim range answers None.
    assert_eq!(m.get("fo"), None);
}

#[test]
fn single_key_insert_has_no_range() {
    let mut m: PhStrMap<u64> = PhStrMap::default();
    assert_eq!(m.insert("abc1".to_string(), 1), Err(StrExtendError::RangeNotFound));
    assert_eq!(m.insert("abc2".to_string(), 2), Err(StrExtendError::RangeNotFound));
    assert_eq!(m.get("abc1"), None);
    assert_eq!(m.get("abc2"), None);
}

#[test]
fn range_stability_across_extends() {
    let mut m: PhStrMap<u64> = PhStrMap::default();
    // First batch fixes the trim range at the fourth byte.
    m.extend(batch(&[("abc1", 1), ("abc2", 2)])).unwrap();
    assert_eq!(m.get("abc1"), Some(&1));
    assert_eq!(m.get("abc2"), Some(&2));

    // A batch whose keys disagree earlier would change the range: refused.
    let r = m.extend(batch(&[("abd3", 3), ("abe4", 4)]));
    assert_eq!(r, Err(StrExtendError::RangeMismatch));
    assert_eq!(m.get("abd3"), None);

    // A batch that chooses the same range extends the map.
    m.extend(batch(&[("abc7", 7), ("abc8", 8)])).unwrap();
    assert_eq!(m.get("abc1"), Some(&1));
    assert_eq!(m.get("abc7"), Some(&7));
    assert_eq!(m.get("abc8"), Some(&8));
}

#[test]
fn trimmed_collision_is_duplicate() {
    let mut m: PhStrMap<u64> = PhStrMap::default();
    m.extend(batch(&[("abc1", 1), ("abc2", 2)])).unwrap();
    // "xyz1" trims to "1", which is already held.
    let r = m.extend(batch(&[("xyz1", 9), ("xyz9", 10)]));
    assert_eq!(r, Err(StrExtendError::DuplicateKey));
    assert_eq!(m.get("abc1"), Some(&1));
}

#[test]
fn duplicate_keys_in_string_batch_have_no_range() {
    let mut m: PhStrMap<u64> = PhStrMap::default();
    let r = m.extend(batch(&[("same", 1), ("same", 2)]));
    assert_eq!(r, Err(StrExtendError::RangeNotFound));
}

#[test]
fn str_get_mut_and_unchecked() {
    let mut m: PhStrMap<u64> = PhStrMap::default();
    m.extend(batch(&[("key1", 1), ("key2", 2)])).unwrap();
    if let Some(v) = m.get_mut("key1") {
        *v = 11;
    } else {
        panic!("key must be present");
    }
    assert_eq!(m.get("key1"), Some(&11));
    assert_eq!(m.get_unchecked("key2"), &2);
    *m.get_unchecked_mut("key2") = 22;
    assert_eq!(m.get("key2"), Some(&22));
}
