use std::hash::{Hash as _, Hasher as _};

use phmap::smallest_uncommon_range;

fn keys(strs: &[&str]) -> Vec<Vec<u8>> {
    strs.iter().map(|s| s.as_bytes().to_vec()).collect()
}

#[test]
fn find_smallest_uncommon_range() {
    fn make_kvs() -> impl Iterator<Item = (String, String)> {
        const SIZE: usize = 4096;

        (0..SIZE).map(|i| {
            let mut hasher = std::hash::DefaultHasher::default();
            i.hash(&mut hasher);
            let hash = hasher.finish();

            let hash_lo = hash as u32;
            let hash_hi = hash >> 32;

            let wrapped_hash = hash as u8;

            (
                format!("test-key-{hash_lo}-test-{hash_hi}"),
                format!("test-val-{wrapped_hash}"),
            )
        })
    }

    let (ks, _vs): (Vec<_>, Vec<_>) = make_kvs().unzip();
    let ks: Vec<Vec<u8>> = ks.iter().map(|k: &String| k.as_bytes().to_vec()).collect();
    assert_eq!(smallest_uncommon_range(&ks), Some((9, 18)));
}

#[test]
fn shared_prefix_single_distinguishing_byte() {
    let ks = keys(&["foo1", "foo2", "foo3"]);
    assert_eq!(smallest_uncommon_range(&ks), Some((3, 4)));
}

#[test]
fn no_common_prefix_starts_at_zero() {
    let ks = keys(&["apple", "banana", "cherry"]);
    assert_eq!(smallest_uncommon_range(&ks), Some((0, 1)));
}

#[test]
fn range_grows_past_first_disagreement() {
    // All keys disagree at offset 0, but "ab" and "ad" force the range to
    // reach offset 2, and "abx"/"ady" share nothing further.
    let ks = keys(&["abc", "abd", "aec", "aed"]);
    assert_eq!(smallest_uncommon_range(&ks), Some((1, 3)));
}

#[test]
fn no_range_for_empty_input() {
    let ks: Vec<Vec<u8>> = Vec::new();
    assert_eq!(smallest_uncommon_range(&ks), None);
}

#[test]
fn no_range_for_single_key() {
    let ks = keys(&["only"]);
    assert_eq!(smallest_uncommon_range(&ks), None);
}

#[test]
fn no_range_for_duplicate_keys() {
    let ks = keys(&["same", "same", "other"]);
    assert_eq!(smallest_uncommon_range(&ks), None);
}

#[test]
fn no_range_when_key_is_prefix_of_another() {
    let ks = keys(&["ab", "abc"]);
    assert_eq!(smallest_uncommon_range(&ks), None);
}
