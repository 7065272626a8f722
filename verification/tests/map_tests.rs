use phmap::{PhMap, ExtendError};
use std::rc::Rc;

fn bv(s: &str) -> Vec<u8> {
    s.as_bytes().to_vec()
}

#[test]
fn it_works() {
    let mut hashmap: PhMap<&str> = PhMap::default();

    let kvs = [
        ("foo1", "bar"),
        ("foo2", "baz"),
        ("foo3", "bar"),
        ("foo4", "qux"),
        ("foo5", "foobar"),
        ("foo6", "bazqux"),
    ];
    let batch: Vec<(Vec<u8>, &str)> = kvs.iter().map(|(k, v)| (bv(k), *v)).collect();
    hashmap.extend(batch).unwrap();

    for (k, v) in kvs {
        assert_eq!(hashmap.get_unchecked(k.as_bytes()), &v);
    }
}

#[test]
fn round_trip_and_held_out_key() {
    let mut m: PhMap<u64> = PhMap::default();
    let batch = vec![
        (bv("alpha"), 1u64),
        (bv("beta"), 2u64),
        (bv("gamma"), 3u64),
        (bv("delta"), 4u64),
    ];
    assert!(m.extend(batch).is_ok());
    assert_eq!(m.get(b"alpha"), Some(&1));
    assert_eq!(m.get(b"beta"), Some(&2));
    assert_eq!(m.get(b"gamma"), Some(&3));
    assert_eq!(m.get(b"delta"), Some(&4));
    assert_eq!(m.get(b"epsilon"), None);
    assert_eq!(m.get(b""), None);
}

#[test]
fn rebuild_with_empty_batch_keeps_lookups() {
    let mut m: PhMap<u64> = PhMap::default();
    m.extend(vec![(bv("one"), 1u64), (bv("two"), 2u64)]).unwrap();
    m.extend(Vec::new()).unwrap();
    assert_eq!(m.get(b"one"), Some(&1));
    assert_eq!(m.get(b"two"), Some(&2));
    assert_eq!(m.get(b"three"), None);
}

#[test]
fn incremental_merge_matches_fresh_build() {
    let a = vec![(bv("k1"), 10u64), (bv("k2"), 20u64)];
    let b = vec![(bv("k3"), 30u64), (bv("k4"), 40u64)];

    let mut two_step: PhMap<u64> = PhMap::default();
    two_step.extend(a.clone()).unwrap();
    two_step.extend(b.clone()).unwrap();

    let mut one_step: PhMap<u64> = PhMap::default();
    let mut ab = a;
    ab.extend(b);
    one_step.extend(ab).unwrap();

    for k in ["k1", "k2", "k3", "k4", "k5"] {
        assert_eq!(two_step.get(k.as_bytes()), one_step.get(k.as_bytes()));
    }
}

#[test]
fn duplicate_key_in_batch_fails() {
    let mut m: PhMap<u64> = PhMap::default();
    let r = m.extend(vec![(bv("dup"), 1u64), (bv("other"), 2u64), (bv("dup"), 3u64)]);
    assert_eq!(r, Err(ExtendError::DuplicateKey));
    assert_eq!(m.get(b"dup"), None);
    assert_eq!(m.get(b"other"), None);
}

#[test]
fn duplicate_key_against_held_fails() {
    let mut m: PhMap<u64> = PhMap::default();
    m.extend(vec![(bv("held"), 1u64)]).unwrap();
    let r = m.extend(vec![(bv("held"), 9u64)]);
    assert_eq!(r, Err(ExtendError::DuplicateKey));
    assert_eq!(m.get(b"held"), Some(&1));

    let r2 = m.insert(bv("held"), 7u64);
    assert_eq!(r2, Err(ExtendError::DuplicateKey));
    assert_eq!(m.get(b"held"), Some(&1));
}

#[test]
fn insert_adds_single_pair() {
    let mut m: PhMap<u64> = PhMap::default();
    m.insert(bv("solo"), 42u64).unwrap();
    assert_eq!(m.get(b"solo"), Some(&42));
    m.insert(bv("duo"), 43u64).unwrap();
    assert_eq!(m.get(b"solo"), Some(&42));
    assert_eq!(m.get(b"duo"), Some(&43));
}

#[test]
fn get_mut_writes_through() {
    let mut m: PhMap<u64> = PhMap::default();
    m.extend(vec![(bv("a"), 1u64), (bv("b"), 2u64)]).unwrap();
    if let Some(v) = m.get_mut(b"a") {
        *v = 100;
    } else {
        panic!("key must be present");
    }
    assert_eq!(m.get(b"a"), Some(&100));
    assert_eq!(m.get(b"b"), Some(&2));
    assert!(m.get_mut(b"zzz").is_none());
}

#[test]
fn get_unchecked_mut_writes_through() {
    let mut m: PhMap<u64> = PhMap::default();
    m.extend(vec![(bv("x"), 5u64), (bv("y"), 6u64)]).unwrap();
    *m.get_unchecked_mut(b"y") = 60;
    assert_eq!(m.get(b"x"), Some(&5));
    assert_eq!(m.get(b"y"), Some(&60));
}

#[test]
fn values_dropped_exactly_once() {
    let token = Rc::new(7u64);
    assert_eq!(Rc::strong_count(&token), 1);
    {
        let mut m: PhMap<Rc<u64>> = PhMap::default();
        m.extend(vec![
            (bv("p"), Rc::clone(&token)),
            (bv("q"), Rc::clone(&token)),
            (bv("r"), Rc::clone(&token)),
        ])
        .unwrap();
        assert_eq!(Rc::strong_count(&token), 4);
        // A rebuild moves every value without duplicating or dropping it.
        m.extend(vec![(bv("s"), Rc::clone(&token))]).unwrap();
        assert_eq!(Rc::strong_count(&token), 5);
    }
    assert_eq!(Rc::strong_count(&token), 1);
}
