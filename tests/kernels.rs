use rand::Rng;
use sbbf::mask::{bucket_of, fastrange, lane_shift, salt};
use sbbf::{avx2, sse};

#[test]
fn fastrange_values() {
    assert_eq!(fastrange(0x8000_0000, 10), 5);
    assert_eq!(fastrange(0xFFFF_FFFF, 64), 63);
    assert_eq!(fastrange(0, 64), 0);
    assert_eq!(fastrange(0x4000_0000, 3), 0);
    assert_eq!(fastrange(0x6000_0000, 3), 1);
}

#[test]
fn bucket_uses_high_half() {
    assert_eq!(bucket_of(0xFFFF_FFFF_0000_0000, 64), 63);
    assert_eq!(bucket_of(0x0000_0000_FFFF_FFFF, 64), 0);
    assert_eq!(bucket_of(0x8000_0000_1234_5678, 10), 5);
}

#[test]
fn bucket_index_is_deterministic() {
    for h in [0u64, 1, 0x9E3779B97F4A7C15, u64::MAX] {
        assert_eq!(bucket_of(h, 1000), bucket_of(h, 1000));
        assert_eq!(avx2::make_mask(h as u32), avx2::make_mask(h as u32));
    }
}

#[test]
fn lane_shift_values() {
    assert_eq!(salt(0), 0x47b6137b);
    assert_eq!(salt(7), 0x5c6bfb31);
    assert_eq!(lane_shift(1, 0), 8);
    assert_eq!(lane_shift(1, 2), 17);
    assert_eq!(lane_shift(0, 5), 0);
    assert_eq!(lane_shift(2, 0), 0x8f6c26f6u32 >> 27);
}

#[test]
fn wide_mask_has_one_bit_per_lane() {
    let m = avx2::make_mask(1);
    assert_eq!(m[0], 1 << 8);
    assert_eq!(m[2], 1 << 17);
    for h in [0u32, 1, 0xDEADBEEF, u32::MAX] {
        for w in avx2::make_mask(h) {
            assert_eq!(w.count_ones(), 1);
        }
    }
}

#[test]
fn power_of_two_values() {
    assert_eq!(sse::power_of_two(0), 1);
    assert_eq!(sse::power_of_two(5), 32);
    assert_eq!(sse::power_of_two(31), 0x8000_0000);
}

#[test]
fn paired_mask_matches_wide_mask() {
    for h in [0u32, 1, 0xDEADBEEF, 0x9E3779B9, u32::MAX] {
        let wide = avx2::make_mask(h);
        let (lo, hi) = sse::make_mask(h);
        assert_eq!(&wide[..4], &lo[..]);
        assert_eq!(&wide[4..], &hi[..]);
    }
}

#[test]
fn kernels_agree_on_replayed_calls() {
    let buckets = 16usize;
    let mut a = vec![0u32; buckets * 8];
    let mut b = vec![0u32; buckets * 8];
    let mut rng = rand::rng();
    let mut seen: Vec<u64> = Vec::new();
    for i in 0..2000 {
        let hash: u64 = if i % 3 == 0 && !seen.is_empty() {
            seen[rng.random_range(0..seen.len())]
        } else {
            rng.random()
        };
        if rng.random::<bool>() {
            seen.push(hash);
            assert_eq!(
                avx2::insert(&mut a, buckets, hash),
                sse::insert(&mut b, buckets, hash)
            );
        } else {
            assert_eq!(
                avx2::contains(&a, buckets, hash),
                sse::contains(&b, buckets, hash)
            );
        }
        assert_eq!(a, b);
    }
}

#[test]
fn kernel_insert_sets_the_mask_bits() {
    let buckets = 4usize;
    let hash: u64 = 0x8000_0000_0000_0001;
    let mut buf = vec![0u32; buckets * 8];
    assert!(!avx2::contains(&buf, buckets, hash));
    assert!(!avx2::insert(&mut buf, buckets, hash));
    // bucket 2 of 4, mask of low half 1
    let mask = avx2::make_mask(1);
    assert_eq!(&buf[16..24], &mask[..]);
    assert!(buf[..16].iter().all(|&w| w == 0));
    assert!(buf[24..].iter().all(|&w| w == 0));
    assert!(avx2::contains(&buf, buckets, hash));
    assert!(avx2::insert(&mut buf, buckets, hash));

    let mut paired = vec![0u32; buckets * 8];
    assert!(!sse::insert(&mut paired, buckets, hash));
    assert_eq!(paired, buf);
    assert!(sse::insert(&mut paired, buckets, hash));
}
