use fasthash::{metro, murmur3};
use probably_filters::{calc_max_counter, CountingBloomFilter, Error};

fn check_add(bits: u32) {
    let mut cbf =
        CountingBloomFilter::<murmur3::Hasher32>::with_bits_per_counter(9, 3, bits).unwrap();
    let s1 = "Hello, world!".as_bytes();
    let s2 = "hello, world!".as_bytes();
    assert!(cbf.add(s1));
    assert!(cbf.contains(s1));
    assert!(!cbf.contains(s2));
}

#[test]
fn test_add_64() {
    check_add(64);
}

#[test]
fn test_add_32() {
    check_add(32);
}

#[test]
fn test_add_16() {
    check_add(16);
}

#[test]
fn test_add_8() {
    check_add(8);
}

#[test]
fn test_add_4() {
    check_add(4);
}

#[test]
fn test_add_2() {
    check_add(2);
}

#[test]
fn test_add_1() {
    check_add(1);
}

fn check_rm(bits: u32) {
    let mut cbf =
        CountingBloomFilter::<metro::Hasher64_1>::with_bits_per_counter(9, 3, bits).unwrap();
    let s1 = "armadillo".as_bytes();
    let s2 = "armadill0".as_bytes();
    assert!(cbf.add(s1));
    assert!(cbf.add(s2));
    assert!(cbf.contains(s1));
    assert!(cbf.contains(s2));
    assert!(cbf.remove(s1));
    assert!(!cbf.contains(s1));
    assert!(cbf.contains(s2));
    assert!(cbf.remove(s2));
    assert!(!cbf.contains(s1));
    assert!(!cbf.contains(s2));
    assert_eq!(0_u64, cbf.counter_bins().iter().sum());
}

#[test]
fn test_rm_64() {
    check_rm(64);
}

#[test]
fn test_rm_32() {
    check_rm(32);
}

#[test]
fn test_rm_16() {
    check_rm(16);
}

#[test]
fn test_rm_8() {
    check_rm(8);
}

#[test]
fn test_rm_4() {
    check_rm(4);
}

#[test]
fn test_rm_2() {
    check_rm(2);
}

#[test]
fn test_rm_1() {
    check_rm(1);
}

// removal from empty filter doesn't cause counters to wrap
#[test]
fn test_remove_from_empty() {
    let mut cbf = CountingBloomFilter::<metro::Hasher64_1>::new(9, 3).unwrap();
    assert_eq!(0_u64, cbf.counter_bins().iter().sum());
    let s = "mystring".as_bytes();
    assert!(!cbf.remove(s));
    assert_eq!(0_u64, cbf.counter_bins().iter().sum());
}

// adding to filter that has been saturated doesn't cause counter to wrap
#[test]
fn test_add_to_full() {
    let mut cbf = CountingBloomFilter::<metro::Hasher64_1>::new(1024, 3).unwrap();
    let s = "mystring".as_bytes();
    let loops = 260;
    let mut successful_adds = 0;
    for _ in 0..loops {
        if cbf.add(s) {
            successful_adds += 1;
        }
    }
    assert_eq!(2_i32.pow(4) - 1, successful_adds);
    assert_eq!(3, cbf.counter_bins().iter().filter(|&&v| v > 0).count());
}

#[test]
fn test_rm_only_if_exists() {
    let mut cbf = CountingBloomFilter::<metro::Hasher64_1>::new(9, 3).unwrap();
    assert_eq!(0_u64, cbf.counter_bins().iter().sum());
    let s = "mystring".as_bytes();
    assert!(cbf.add(s));
    let expected: u64 = cbf.counter_bins().iter().sum();

    for extra in ["redfish", "bluefish", "onefish", "twofish"] {
        assert!(!cbf.remove(extra.as_bytes()));
        assert_eq!(expected, cbf.counter_bins().iter().sum());
    }
}

#[test]
fn test_estimate() {
    let mut cbf = CountingBloomFilter::<metro::Hasher64_1>::new(9, 3).unwrap();
    let s = "wow".as_bytes();
    assert_eq!(0, cbf.estimate(s));
    for i in 1..6 {
        assert!(cbf.add(s));
        assert_eq!(i, cbf.estimate(s));
    }
    for i in (1..6).rev() {
        assert!(cbf.remove(s));
        assert_eq!(i - 1, cbf.estimate(s));
    }
    assert_eq!(0, cbf.estimate(s));
}

#[test]
fn test_invalid_hash_count() {
    let cbf = CountingBloomFilter::<metro::Hasher64_1>::new(1, 2);
    assert!(
        matches!(cbf, Err(Error::InvalidHashCount(_))),
        "Expected error for bins = {} hashes = {}",
        1,
        2
    );
    let cbf = CountingBloomFilter::<metro::Hasher64_1>::new(1, 0);
    assert!(
        matches!(cbf, Err(Error::InvalidHashCount(_))),
        "Expected error for bins = {} hashes = {}",
        1,
        0
    );
}

#[test]
fn test_invalid_bin_count() {
    let cbf = CountingBloomFilter::<metro::Hasher64_1>::new(0, 0);
    assert!(matches!(cbf, Err(Error::InvalidBinCount(_))));
}

#[test]
fn test_max_counter() {
    let mut input = u64::BITS;
    let mut expected = !0_u64;
    let mut shift_bits = 0;
    while input > 0 {
        assert_eq!(expected, calc_max_counter(&input));
        input /= 2;
        shift_bits += input;
        expected = (expected << shift_bits) >> shift_bits;
    }
}

#[test]
fn max_counter_exact_values() {
    assert_eq!(15, calc_max_counter(&4));
    assert_eq!(255, calc_max_counter(&8));
    assert_eq!(1, calc_max_counter(&1));
    assert_eq!(u64::MAX, calc_max_counter(&64));
    assert_eq!(0xffff_ffff, calc_max_counter(&32));
}

#[test]
fn construction_errors_in_order() {
    let e = CountingBloomFilter::<metro::Hasher64_1>::with_bits_per_counter(0, 0, 65);
    assert!(matches!(e, Err(Error::BitsPerCounterTooLarge(65, 64))));
    let e = CountingBloomFilter::<metro::Hasher64_1>::with_bits_per_counter(0, 0, 3);
    assert!(matches!(e, Err(Error::BitsPerCounterUnaligned(3, 64))));
    let e = CountingBloomFilter::<metro::Hasher64_1>::with_bits_per_counter(9, 3, 0);
    assert!(matches!(e, Err(Error::BitsPerCounterUnaligned(0, 64))));
    let e = CountingBloomFilter::<metro::Hasher64_1>::with_bits_per_counter(0, 0, 4);
    assert!(matches!(e, Err(Error::InvalidBinCount(0))));
    let e = CountingBloomFilter::<metro::Hasher64_1>::with_bits_per_counter(3, 4, 4);
    assert!(matches!(e, Err(Error::InvalidHashCount(4))));
    assert!(CountingBloomFilter::<metro::Hasher64_1>::with_bits_per_counter(3, 3, 4).is_ok());
}

#[test]
fn word_count_is_rounded_up() {
    let cbf = CountingBloomFilter::<metro::Hasher64_1>::new(9, 3).unwrap();
    assert_eq!(1, cbf.counter_bins().len());
    let cbf = CountingBloomFilter::<metro::Hasher64_1>::new(17, 3).unwrap();
    assert_eq!(2, cbf.counter_bins().len());
    let cbf = CountingBloomFilter::<metro::Hasher64_1>::with_bits_per_counter(9, 3, 64).unwrap();
    assert_eq!(9, cbf.counter_bins().len());
}

#[test]
fn every_width_builds() {
    for bits in [1, 2, 4, 8, 16, 32, 64] {
        let cbf =
            CountingBloomFilter::<metro::Hasher64_1>::with_bits_per_counter(64, 3, bits).unwrap();
        assert_eq!(bits as usize, cbf.counter_bins().len());
    }
}

#[test]
fn saturates_after_fifteen_adds() {
    let mut cbf = CountingBloomFilter::<metro::Hasher64_1>::new(9, 3).unwrap();
    let s = "saturate".as_bytes();
    for _ in 0..15 {
        assert!(cbf.add(s));
    }
    let before: Vec<u64> = cbf.counter_bins().to_vec();
    assert!(!cbf.add(s));
    assert_eq!(before, cbf.counter_bins().to_vec());
    assert!(cbf.counter_bins().iter().filter(|&&v| v > 0).count() <= 3);
    assert_eq!(15, cbf.estimate(s));
}

#[test]
fn add_then_remove_restores_words() {
    let mut cbf = CountingBloomFilter::<murmur3::Hasher32>::new(100, 4).unwrap();
    assert!(cbf.add("first".as_bytes()));
    let before: Vec<u64> = cbf.counter_bins().to_vec();
    assert!(cbf.add("second".as_bytes()));
    assert!(cbf.contains("second".as_bytes()));
    assert!(cbf.remove("second".as_bytes()));
    assert_eq!(before, cbf.counter_bins().to_vec());
}

#[test]
fn hash_level_calls_with_aliasing_digests() {
    let mut cbf = CountingBloomFilter::<metro::Hasher64_1>::with_bits_per_counter(1, 1, 2).unwrap();
    // one word of 32 two-bit counters; digests 5 and 37 select counter 5 twice
    let hs = [5u64, 37];
    assert!(cbf.add_hashes(&hs));
    assert_eq!(2u64 << 10, cbf.counter_bins()[0]);
    assert_eq!(2, cbf.estimate_hashes(&[5]));
    assert!(!cbf.add_hashes(&hs));
    assert_eq!(2u64 << 10, cbf.counter_bins()[0]);
    assert!(cbf.add_hashes(&[5]));
    assert_eq!(3, cbf.estimate_hashes(&hs));
    assert!(cbf.contains_hashes(&[37]));
    assert!(!cbf.contains_hashes(&[6]));
    assert!(cbf.remove_hashes(&hs));
    assert_eq!(1, cbf.estimate_hashes(&[5]));
    assert!(!cbf.remove_hashes(&hs));
    assert_eq!(1u64 << 10, cbf.counter_bins()[0]);
}
