//! The 256-bit kernel: the eight lanes of a bucket are handled as one
//! vector, with the mask built by a variable shift per lane.
use vstd::prelude::*;

use crate::mask::{bucket_mask, bucket_of, lane_mask, lane_shift, low_half, LANES};
use crate::model::{base_of, covers, lanes_wf, lemma_bucket_in_range, may_contain, with_key};

verus! {

/// The 256-bit mask of a hash whose low half is `hash`: one bit per lane.
pub fn make_mask(hash: u32) -> (r: [u32; 8])
    ensures
        r@ == bucket_mask(hash),
{
    let mut m: [u32; 8] = [0u32; 8];
    let mut lane: usize = 0;
    while lane < LANES
        invariant
            lane <= LANES,
            m@.len() == LANES,
            forall|k: int| 0 <= k < lane ==> m@[k] == lane_mask(hash, k),
        decreases LANES - lane,
    {
        let shift = lane_shift(hash, lane);
        m[lane] = 1u32 << shift;
        lane = lane + 1;
    }
    assert(m@ =~= bucket_mask(hash));
    m
}

/// Whether every bit of the mask of `hash` is set in the bucket it selects.
pub fn contains(buf: &[u32], num_buckets: usize, hash: u64) -> (r: bool)
    requires
        lanes_wf(buf@, num_buckets as nat),
    ensures
        r == may_contain(buf@, num_buckets as nat, hash),
{
    let len: usize = buf.len();
    let bucket = bucket_of(hash, num_buckets as u32);
    proof {
        lemma_bucket_in_range(hash, num_buckets as nat);
    }
    let low: u32 = (hash % 0x1_0000_0000) as u32;
    let mask = make_mask(low);
    let base: usize = bucket as usize * LANES;
    let mut lane: usize = 0;
    while lane < LANES
        invariant
            lane <= LANES,
            lanes_wf(buf@, num_buckets as nat),
            base == base_of(hash, num_buckets as nat),
            len == buf@.len(),
            base + LANES <= len,
            low == low_half(hash),
            mask@ == bucket_mask(low),
            forall|k: int| 0 <= k < lane ==> covers(#[trigger] buf@[base + k], lane_mask(low, k)),
        decreases LANES - lane,
    {
        let word = buf[base + lane];
        let m = mask[lane];
        if word & m != m {
            assert(!covers(buf@[base + lane as int], lane_mask(low, lane as int)));
            return false;
        }
        lane = lane + 1;
    }
    true
}

/// Sets the mask of `hash` in the bucket it selects, and returns whether
/// it was all set before.
pub fn insert(buf: &mut Vec<u32>, num_buckets: usize, hash: u64) -> (r: bool)
    requires
        lanes_wf(old(buf)@, num_buckets as nat),
    ensures
        r == may_contain(old(buf)@, num_buckets as nat, hash),
        final(buf)@ == with_key(old(buf)@, num_buckets as nat, hash),
{
    let ghost before = buf@;
    let len: usize = buf.len();
    let bucket = bucket_of(hash, num_buckets as u32);
    proof {
        lemma_bucket_in_range(hash, num_buckets as nat);
    }
    let low: u32 = (hash % 0x1_0000_0000) as u32;
    let mask = make_mask(low);
    let base: usize = bucket as usize * LANES;
    let mut found: bool = true;
    let ghost mut miss: int = 0;
    let mut lane: usize = 0;
    while lane < LANES
        invariant
            lane <= LANES,
            lanes_wf(before, num_buckets as nat),
            base == base_of(hash, num_buckets as nat),
            len == before.len(),
            base + LANES <= len,
            buf@.len() == before.len(),
            low == low_half(hash),
            mask@ == bucket_mask(low),
            forall|j: int|
                0 <= j < buf@.len() && !(base <= j < base + lane) ==> buf@[j] == before[j],
            forall|k: int|
                0 <= k < lane ==> #[trigger] buf@[base + k] == before[base + k] | lane_mask(
                    low,
                    k,
                ),
            found ==> forall|k: int|
                0 <= k < lane ==> covers(#[trigger] before[base + k], lane_mask(low, k)),
            !found ==> 0 <= miss < lane && !covers(before[base + miss], lane_mask(low, miss)),
        decreases LANES - lane,
    {
        let word = buf[base + lane];
        let m = mask[lane];
        if word & m != m {
            found = false;
            proof {
                miss = lane as int;
            }
        }
        buf[base + lane] = word | m;
        lane = lane + 1;
    }
    assert forall|j: int| 0 <= j < buf@.len() implies buf@[j] == with_key(
        before,
        num_buckets as nat,
        hash,
    )[j] by {
        if base <= j < base + LANES {
            let k = j - base;
            assert(buf@[base + k] == before[base + k] | lane_mask(low, k));
        }
    }
    assert(buf@ =~= with_key(before, num_buckets as nat, hash));
    found
}

} // verus!
