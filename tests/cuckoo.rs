use fasthash::murmur3;
use probably_filters::CuckooFilter;

#[test]
fn test_add() {
    let mut cf = CuckooFilter::<murmur3::Hasher32>::new(5);
    let v = "value";
    cf.add(v.as_bytes());
    assert_eq!(1, cf.len());
    assert!(cf.contains(v.as_bytes()));
}

#[test]
fn test_add_duplicate() {
    let mut cf = CuckooFilter::<murmur3::Hasher32>::new(13);
    let v = "value";
    cf.add(v.as_bytes());
    assert!(cf.contains(v.as_bytes()));
    cf.add(v.as_bytes());
    assert!(cf.contains(v.as_bytes()));
    let fingerprints = cf.fingerprints();
    assert_eq!(2, fingerprints.len());
    assert_eq!(fingerprints[0], fingerprints[1]);
}

#[test]
fn test_remove() {
    let mut cf = CuckooFilter::<murmur3::Hasher32>::new(8);
    let v = "value";
    cf.add(v.as_bytes());
    assert!(cf.contains(v.as_bytes()));
    cf.remove(v.as_bytes());
    assert!(!cf.contains(v.as_bytes()));
    assert!(!cf.remove(v.as_bytes()));
}

#[test]
fn test_fill() {
    let mut cf = CuckooFilter::<murmur3::Hasher32>::new(512);
    for i in 0..1024u64 {
        assert!(cf.add(&i.to_ne_bytes()), "{}", i);
    }
    assert_eq!(1024, cf.len());
    for i in 0..1024u64 {
        assert!(cf.remove(&i.to_ne_bytes()), "{}", i);
    }
    assert_eq!(0, cf.len());
}

#[test]
fn duplicate_survives_one_removal() {
    let mut cf = CuckooFilter::<murmur3::Hasher32>::new(13);
    assert!(cf.add("value".as_bytes()));
    assert!(cf.add("value".as_bytes()));
    assert!(cf.remove("value".as_bytes()));
    assert!(cf.contains("value".as_bytes()));
    assert_eq!(1, cf.len());
    assert!(cf.remove("value".as_bytes()));
    assert!(!cf.contains("value".as_bytes()));
    assert_eq!(0, cf.len());
}

#[test]
fn fingerprint_level_calls() {
    let mut cf = CuckooFilter::<murmur3::Hasher32>::with_all_the_levers(4, 1, 10);
    // digest 6 selects bin 2; fingerprint digest 1 pairs bin 2 with bin 3
    assert!(cf.add_fingerprint(7, 6));
    assert!(cf.contains_fingerprint(7, 6, 1));
    assert!(!cf.contains_fingerprint(8, 6, 1));
    assert!(cf.remove_fingerprint(7, 6, 1));
    assert!(!cf.contains_fingerprint(7, 6, 1));
    assert!(!cf.remove_fingerprint(7, 6, 1));
    assert_eq!(0, cf.len());
}

#[test]
fn full_table_reports_failure() {
    let mut cf = CuckooFilter::<murmur3::Hasher32>::with_all_the_levers(1, 2, 5);
    assert!(cf.add("a".as_bytes()));
    assert!(cf.add("b".as_bytes()));
    assert!(!cf.add("c".as_bytes()));
    assert_eq!(2, cf.len());
}

#[test]
fn no_kicks_means_no_insertion() {
    let mut cf = CuckooFilter::<murmur3::Hasher32>::with_all_the_levers(3, 4, 0);
    assert!(!cf.add("a".as_bytes()));
    assert_eq!(0, cf.len());
}

#[test]
fn empty_shapes_store_nothing() {
    let mut cf = CuckooFilter::<murmur3::Hasher32>::with_all_the_levers(0, 4, 100);
    assert!(!cf.add("a".as_bytes()));
    assert!(!cf.contains("a".as_bytes()));
    assert!(!cf.remove("a".as_bytes()));
    assert_eq!(0, cf.len());
    let mut cf = CuckooFilter::<murmur3::Hasher32>::new(0);
    assert!(!cf.add("a".as_bytes()));
    let mut cf = CuckooFilter::<murmur3::Hasher32>::with_all_the_levers(3, 0, 10);
    assert!(!cf.add("a".as_bytes()));
    assert!(!cf.contains("a".as_bytes()));
    assert_eq!(0, cf.len());
}

#[test]
fn eviction_with_given_draws() {
    let mut cf = CuckooFilter::<murmur3::Hasher32>::with_all_the_levers(1, 1, 3);
    assert!(cf.add_with_draws(7, 0, &[0, 0, 0]));
    // the only bin is full: 9 is swapped in at step 1, 7 back at step 2, then 9 is dropped
    assert!(!cf.add_with_draws(9, 0, &[0, 0, 0]));
    assert_eq!(vec![7u8], cf.fingerprints());
    let mut cf = CuckooFilter::<murmur3::Hasher32>::with_all_the_levers(1, 1, 2);
    assert!(cf.add_with_draws(7, 0, &[0, 0]));
    assert!(!cf.add_with_draws(9, 0, &[0, 0]));
    assert_eq!(vec![9u8], cf.fingerprints());
}
