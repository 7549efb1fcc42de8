//! The 128-bit-pair kernel: a bucket is handled as two halves of four
//! lanes, with each mask bit built as a power of two from its exponent.
use vstd::prelude::*;

use vstd::arithmetic::power2::pow2;
use vstd::bits::lemma_u32_shl_is_mul;

use crate::mask::{bucket_of, lane_shift, LANES};
use crate::model::{
    covers, half_mask, lanes_wf, lemma_bucket_in_range, paired_may_contain, paired_with_key,
    HALF_LANES,
};

verus! {

/// 2 to the power `b`.
pub fn power_of_two(b: u32) -> (r: u32)
    requires
        b < 32,
    ensures
        r as nat == pow2(b as nat),
{
    proof {
        vstd::bits::lemma_u32_pow2_no_overflow(b as nat);
        lemma_u32_shl_is_mul(1, b);
    }
    1u32 << b
}

/// One half of the mask of a hash whose low half is `hash`.
fn make_half(hash: u32, half: usize) -> (r: [u32; 4])
    requires
        half < 2,
    ensures
        forall|j: int| 0 <= j < HALF_LANES ==> #[trigger] r@[j] == half_mask(hash, half as int, j),
{
    let mut m: [u32; 4] = [0u32; 4];
    let mut j: usize = 0;
    while j < HALF_LANES
        invariant
            j <= HALF_LANES,
            half < 2,
            m@.len() == HALF_LANES,
            forall|k: int| 0 <= k < j ==> #[trigger] m@[k] == half_mask(hash, half as int, k),
        decreases HALF_LANES - j,
    {
        let e = lane_shift(hash, HALF_LANES * half + j);
        m[j] = power_of_two(e);
        j = j + 1;
    }
    m
}

/// The mask of a hash whose low half is `hash`, as two 128-bit halves.
pub fn make_mask(hash: u32) -> (r: ([u32; 4], [u32; 4]))
    ensures
        forall|j: int| 0 <= j < HALF_LANES ==> #[trigger] r.0@[j] == half_mask(hash, 0, j),
        forall|j: int| 0 <= j < HALF_LANES ==> #[trigger] r.1@[j] == half_mask(hash, 1, j),
{
    (make_half(hash, 0), make_half(hash, 1))
}

/// Whether the four lanes from `start` cover the mask half `m`.
fn half_test(buf: &[u32], start: usize, m: &[u32; 4]) -> (r: bool)
    requires
        start + HALF_LANES <= buf@.len(),
    ensures
        r == forall|j: int| 0 <= j < HALF_LANES ==> covers(#[trigger] buf@[start + j], m@[j]),
{
    let n: usize = buf.len();
    let mut j: usize = 0;
    while j < HALF_LANES
        invariant
            j <= HALF_LANES,
            n == buf@.len(),
            start + HALF_LANES <= n,
            forall|k: int| 0 <= k < j ==> covers(#[trigger] buf@[start + k], m@[k]),
        decreases HALF_LANES - j,
    {
        if buf[start + j] & m[j] != m[j] {
            assert(!covers(buf@[start + j as int], m@[j as int]));
            return false;
        }
        j = j + 1;
    }
    true
}

/// Whether every bit of the mask of `hash` is set in the bucket it selects.
pub fn contains(buf: &[u32], num_buckets: usize, hash: u64) -> (r: bool)
    requires
        lanes_wf(buf@, num_buckets as nat),
    ensures
        r == paired_may_contain(buf@, num_buckets as nat, hash),
{
    let len: usize = buf.len();
    let bucket = bucket_of(hash, num_buckets as u32);
    proof {
        lemma_bucket_in_range(hash, num_buckets as nat);
    }
    let low: u32 = (hash % 0x1_0000_0000) as u32;
    let mask = make_mask(low);
    let base: usize = bucket as usize * LANES;
    assert(base + LANES <= len);
    half_test(buf, base, &mask.0) && half_test(buf, base + HALF_LANES, &mask.1)
}

/// Ors the mask half `m` into the four lanes from `start`.
fn half_or(buf: &mut Vec<u32>, start: usize, m: &[u32; 4])
    requires
        start + HALF_LANES <= old(buf)@.len(),
    ensures
        final(buf)@.len() == old(buf)@.len(),
        forall|j: int|
            0 <= j < old(buf)@.len() && !(start <= j < start + HALF_LANES) ==> final(buf)@[j]
                == old(buf)@[j],
        forall|j: int|
            0 <= j < HALF_LANES ==> #[trigger] final(buf)@[start + j] == old(buf)@[start + j]
                | m@[j],
{
    let ghost before = buf@;
    let n: usize = buf.len();
    let mut j: usize = 0;
    while j < HALF_LANES
        invariant
            j <= HALF_LANES,
            n == buf@.len(),
            n == before.len(),
            start + HALF_LANES <= n,
            forall|i: int| 0 <= i < n && !(start <= i < start + j) ==> buf@[i] == before[i],
            forall|k: int| 0 <= k < j ==> #[trigger] buf@[start + k] == before[start + k] | m@[k],
        decreases HALF_LANES - j,
    {
        let word = buf[start + j];
        buf[start + j] = word | m[j];
        j = j + 1;
    }
}

/// Sets the mask of `hash` in the bucket it selects, and returns whether
/// it was all set before.
pub fn insert(buf: &mut Vec<u32>, num_buckets: usize, hash: u64) -> (r: bool)
    requires
        lanes_wf(old(buf)@, num_buckets as nat),
    ensures
        r == paired_may_contain(old(buf)@, num_buckets as nat, hash),
        final(buf)@ == paired_with_key(old(buf)@, num_buckets as nat, hash),
{
    let ghost before = buf@;
    let len: usize = buf.len();
    let bucket = bucket_of(hash, num_buckets as u32);
    proof {
        lemma_bucket_in_range(hash, num_buckets as nat);
    }
    let low: u32 = (hash % 0x1_0000_0000) as u32;
    let mask = make_mask(low);
    let base: usize = bucket as usize * LANES;
    assert(base + LANES <= len);
    let found = half_test(buf.as_slice(), base, &mask.0) && half_test(
        buf.as_slice(),
        base + HALF_LANES,
        &mask.1,
    );
    half_or(buf, base, &mask.0);
    let ghost middle = buf@;
    half_or(buf, base + HALF_LANES, &mask.1);
    assert forall|j: int| 0 <= j < buf@.len() implies buf@[j] == paired_with_key(
        before,
        num_buckets as nat,
        hash,
    )[j] by {
        if base <= j < base + HALF_LANES {
            let k = j - base;
            assert(middle[base + k] == before[base + k] | mask.0@[k]);
        } else if base + HALF_LANES <= j < base + LANES {
            let k = j - base - HALF_LANES;
            assert(buf@[base + HALF_LANES + k] == middle[base + HALF_LANES + k] | mask.1@[k]);
        }
    }
    assert(buf@ =~= paired_with_key(before, num_buckets as nat, hash));
    found
}

} // verus!
