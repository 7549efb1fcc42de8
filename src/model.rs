//! The filter as a mathematical object: a sequence of 32-bit lanes, eight
//! per bucket, and what inserting and querying a hash do to it.
use vstd::prelude::*;

use vstd::arithmetic::power2::pow2;

use crate::mask::{bucket_index, lane_bit, lane_mask, low_half, LANES};

verus! {

/// `lanes` is the state of a filter of `buckets` buckets.
pub open spec fn lanes_wf(lanes: Seq<u32>, buckets: nat) -> bool {
    &&& 1 <= buckets <= u32::MAX
    &&& lanes.len() == LANES * buckets
}

/// The index of the first lane of the bucket that `hash` selects.
pub open spec fn base_of(hash: u64, buckets: nat) -> int {
    LANES * bucket_index(hash, buckets)
}

/// Every bit of `m` is set in `word`.
pub open spec fn covers(word: u32, m: u32) -> bool {
    word & m == m
}

/// Every bit of the mask of `hash` is set in the bucket it selects.
pub open spec fn may_contain(lanes: Seq<u32>, buckets: nat, hash: u64) -> bool {
    forall|lane: int|
        0 <= lane < LANES ==> covers(
            #[trigger] lanes[base_of(hash, buckets) + lane],
            lane_mask(low_half(hash), lane),
        )
}

/// The lanes after the mask of `hash` is or-ed into the bucket it selects.
pub open spec fn with_key(lanes: Seq<u32>, buckets: nat, hash: u64) -> Seq<u32> {
    let base = base_of(hash, buckets);
    Seq::new(
        lanes.len(),
        |j: int|
            if base <= j < base + LANES {
                lanes[j] | lane_mask(low_half(hash), j - base)
            } else {
                lanes[j]
            },
    )
}

/// Every bit set in `a` is set in `b`, lane by lane.
pub open spec fn bits_within(a: Seq<u32>, b: Seq<u32>) -> bool {
    &&& a.len() == b.len()
    &&& forall|j: int| 0 <= j < a.len() ==> covers(#[trigger] b[j], a[j])
}

/// Number of lanes in one 128-bit half of a bucket.
pub const HALF_LANES: usize = 4;

/// The word that a hash whose low half is `low` sets in lane `j` of half
/// `half` of its bucket, written as a power of two.
pub open spec fn half_mask(low: u32, half: int, j: int) -> u32 {
    pow2(lane_bit(low, HALF_LANES * half + j) as nat) as u32
}

/// Every bit of half `half` of the mask of `hash` is set in the four lanes
/// that start at `start`.
pub open spec fn half_covered(lanes: Seq<u32>, start: int, hash: u64, half: int) -> bool {
    forall|j: int|
        0 <= j < HALF_LANES ==> covers(
            #[trigger] lanes[start + j],
            half_mask(low_half(hash), half, j),
        )
}

/// The membership test of a bucket read as two 128-bit halves.
pub open spec fn paired_may_contain(lanes: Seq<u32>, buckets: nat, hash: u64) -> bool {
    let base = base_of(hash, buckets);
    half_covered(lanes, base, hash, 0) && half_covered(lanes, base + HALF_LANES, hash, 1)
}

/// The insertion into a bucket read as two 128-bit halves.
pub open spec fn paired_with_key(lanes: Seq<u32>, buckets: nat, hash: u64) -> Seq<u32> {
    let base = base_of(hash, buckets);
    Seq::new(
        lanes.len(),
        |j: int|
            if base <= j < base + HALF_LANES {
                lanes[j] | half_mask(low_half(hash), 0, j - base)
            } else if base + HALF_LANES <= j < base + LANES {
                lanes[j] | half_mask(low_half(hash), 1, j - base - HALF_LANES)
            } else {
                lanes[j]
            },
    )
}

/// One of the two interchangeable kernels.
pub enum Kernel {
    /// The eight lanes of a bucket as one 256-bit vector.
    Wide,
    /// A bucket as two 128-bit halves.
    Paired,
}

/// One call on a filter.
pub enum Op {
    Insert(u64),
    Query(u64),
}

/// The hash that an operation is about.
pub open spec fn op_hash(op: Op) -> u64 {
    match op {
        Op::Insert(h) => h,
        Op::Query(h) => h,
    }
}

/// The membership test of kernel `k`.
pub open spec fn kernel_contains(k: Kernel, lanes: Seq<u32>, buckets: nat, hash: u64) -> bool {
    match k {
        Kernel::Wide => may_contain(lanes, buckets, hash),
        Kernel::Paired => paired_may_contain(lanes, buckets, hash),
    }
}

/// The insertion of kernel `k`.
pub open spec fn kernel_insert(k: Kernel, lanes: Seq<u32>, buckets: nat, hash: u64) -> Seq<u32> {
    match k {
        Kernel::Wide => with_key(lanes, buckets, hash),
        Kernel::Paired => paired_with_key(lanes, buckets, hash),
    }
}

/// Runs `ops` in order with kernel `k` from the lanes `lanes`: the final
/// lanes, and the value that each call returned.
pub open spec fn replay(k: Kernel, lanes: Seq<u32>, buckets: nat, ops: Seq<Op>) -> (Seq<u32>, Seq<bool>)
    decreases ops.len(),
{
    if ops.len() == 0 {
        (lanes, Seq::empty())
    } else {
        let prev = replay(k, lanes, buckets, ops.drop_last());
        let hash = op_hash(ops.last());
        let answer = kernel_contains(k, prev.0, buckets, hash);
        let next = match ops.last() {
            Op::Insert(_) => kernel_insert(k, prev.0, buckets, hash),
            Op::Query(_) => prev.0,
        };
        (next, prev.1.push(answer))
    }
}

/// The bucket of any hash lies inside a filter of `buckets` buckets.
pub proof fn lemma_bucket_in_range(hash: u64, buckets: nat)
    requires
        1 <= buckets <= u32::MAX,
    ensures
        0 <= bucket_index(hash, buckets) < buckets,
        0 <= base_of(hash, buckets),
        base_of(hash, buckets) + LANES <= LANES * buckets,
{
    let x = crate::mask::high_half(hash);
    assert((x as int) * (buckets as int) < 0x1_0000_0000 * (buckets as int)) by (nonlinear_arith)
        requires
            x < 0x1_0000_0000,
            buckets > 0,
    ;
    vstd::arithmetic::div_mod::lemma_multiply_divide_lt(
        (x as int) * (buckets as int),
        0x1_0000_0000,
        buckets as int,
    );
}

} // verus!
