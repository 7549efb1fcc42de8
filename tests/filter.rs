use std::collections::HashSet;

use rand::rngs::StdRng;
use rand::{Rng, SeedableRng};
use sbbf::Filter;

#[test]
fn simple() {
    let total = 1024 * 1024;
    // The expected false-positive count here is close to one, so the hashes
    // come from a fixed seed to keep the outcome reproducible.
    let mut rng = StdRng::seed_from_u64(0x5bbf_0001);

    let mut filter = Filter::new(64, total);
    let mut hashes = HashSet::with_capacity(total);

    for _ in 0..total {
        let hash: u64 = rng.random();

        hashes.insert(hash);

        filter.insert(hash);
        assert!(filter.contains(hash));
    }

    let mut fp = 0;
    for _ in 0..total {
        let hash = loop {
            let hash: u64 = rng.random();
            if !hashes.contains(&hash) {
                break hash;
            }
        };

        if filter.contains(hash) {
            fp += 1;
        }
    }

    let ratio = fp as f64 / total as f64;
    println!("total: {}", total);
    println!("fp:    {}", fp);
    println!("ratio: {}", ratio);

    assert!(ratio < 0.000001);
}

fn run(bits: usize, max_false_positive: f64) {
    let keys = 1024 * 1024;
    let mut rng = rand::rng();
    let mut filter = Filter::new(bits, keys);
    let mut hashes = HashSet::with_capacity(keys);

    for _ in 0..keys {
        let hash: u64 = rng.random();

        hashes.insert(hash);
        filter.insert(hash);
        assert!(filter.contains(hash));
    }

    let mut fp = 0;
    for k in hashes {
        if !filter.contains(k) {
            fp += 1;
        }
    }

    let ratio = fp as f64 / keys as f64;
    assert!(
        ratio <= max_false_positive,
        "false positive ratio: {} should less than {}",
        ratio,
        max_false_positive
    );
}

#[test]
fn false_positive() {
    run(24, 0.0002);
    run(16, 0.002);
    run(8, 0.02);
}

#[test]
fn golden_ratio_hash_is_found() {
    let mut filter = Filter::new(16, 1024);
    filter.insert(0x9E3779B97F4A7C15);
    assert!(filter.contains(0x9E3779B97F4A7C15));
    assert!(!filter.contains(0x0123_4567_89AB_CDEF));
}

#[test]
fn second_insert_reports_present() {
    let mut filter = Filter::new(16, 1024);
    let first = filter.insert(0xDEAD_BEEF_CAFE_F00D);
    assert!(!first);
    assert!(filter.insert(0xDEAD_BEEF_CAFE_F00D));
    assert!(filter.contains(0xDEAD_BEEF_CAFE_F00D));
}

#[test]
fn empty_filter_contains_nothing() {
    let filter = Filter::new(8, 100);
    for h in [0u64, 1, u64::MAX, 0x9E3779B97F4A7C15] {
        assert!(!filter.contains(h));
    }
}

#[test]
fn every_inserted_hash_stays_present() {
    let mut filter = Filter::new(8, 1000);
    let mut rng = rand::rng();
    let hashes: Vec<u64> = (0..1000).map(|_| rng.random()).collect();
    for &h in &hashes {
        filter.insert(h);
    }
    for &h in &hashes {
        assert!(filter.contains(h));
    }
}

#[test]
fn geometry_of_common_sizes() {
    let f = Filter::new(16, 1024);
    assert_eq!(f.byte_length(), 2048);
    assert_eq!(f.bucket_count(), 64);

    let f = Filter::new(8, 100);
    assert_eq!(f.byte_length(), 128);
    assert_eq!(f.bucket_count(), 4);
}

#[test]
fn geometry_never_below_one_cache_line() {
    let f = Filter::new(1, 1);
    assert_eq!(f.byte_length(), 64);
    assert_eq!(f.bucket_count(), 2);

    let f = Filter::new(8, 40);
    assert_eq!(f.byte_length(), 64);
}

#[test]
fn geometry_rounds_to_nearest_line() {
    // 95 naive bytes round down to one line; 96 round up to two.
    assert_eq!(Filter::new(1, 760).byte_length(), 64);
    assert_eq!(Filter::new(1, 768).byte_length(), 128);
}

#[test]
fn geometry_is_aligned_and_covers_naive_size() {
    for bits in [1usize, 8, 16, 24, 64] {
        for keys in [1usize, 7, 64, 100, 1000, 4096] {
            let raw = bits * keys / 8;
            let f = Filter::new(bits, keys);
            assert!(f.byte_length() > 0);
            assert_eq!(f.byte_length() % 64, 0);
            assert_eq!(f.bucket_count() * 32, f.byte_length());
            assert!(f.byte_length() + 32 > raw);
            if raw < 64 || raw % 64 == 0 || raw % 64 >= 32 {
                assert!(f.byte_length() >= raw);
            }
        }
    }
}
