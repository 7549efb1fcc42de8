//! What holds of the filter across calls and across kernels.
use vstd::prelude::*;

use crate::mask::{lane_bit, lane_mask, low_half, LANES};
use crate::model::{
    base_of, covers, half_covered, half_mask, lanes_wf, lemma_bucket_in_range, may_contain,
    op_hash, paired_may_contain, paired_with_key, replay, with_key, Kernel, Op, HALF_LANES,
};
use crate::{byte_length_for, raw_bytes};

verus! {

proof fn lemma_or_covers(a: u32, m: u32)
    ensures
        covers(a | m, m),
        (a | m) | m == a | m,
{
    assert((a | m) & m == m) by (bit_vector);
    assert((a | m) | m == a | m) by (bit_vector);
}

proof fn lemma_covers_grows(a: u32, m: u32, x: u32)
    requires
        covers(a, m),
    ensures
        covers(a | x, m),
{
    assert((a | x) & m == m) by (bit_vector)
        requires
            a & m == m,
    ;
}

proof fn lemma_with_key_shape(lanes: Seq<u32>, buckets: nat, hash: u64)
    requires
        lanes_wf(lanes, buckets),
    ensures
        with_key(lanes, buckets, hash).len() == lanes.len(),
        lanes_wf(with_key(lanes, buckets, hash), buckets),
        0 <= base_of(hash, buckets),
        base_of(hash, buckets) + LANES <= lanes.len(),
{
    lemma_bucket_in_range(hash, buckets);
}

/// After `hash` is inserted, the filter reports it as present.
pub proof fn lemma_insert_then_contains(lanes: Seq<u32>, buckets: nat, hash: u64)
    requires
        lanes_wf(lanes, buckets),
    ensures
        may_contain(with_key(lanes, buckets, hash), buckets, hash),
{
    lemma_with_key_shape(lanes, buckets, hash);
    let base = base_of(hash, buckets);
    let after = with_key(lanes, buckets, hash);
    assert forall|lane: int| 0 <= lane < LANES implies covers(
        #[trigger] after[base + lane],
        lane_mask(low_half(hash), lane),
    ) by {
        lemma_or_covers(lanes[base + lane], lane_mask(low_half(hash), lane));
    }
}

/// Inserting any hash never makes a present hash absent: bits are only set.
pub proof fn lemma_insert_keeps_members(lanes: Seq<u32>, buckets: nat, present: u64, hash: u64)
    requires
        lanes_wf(lanes, buckets),
        may_contain(lanes, buckets, present),
    ensures
        may_contain(with_key(lanes, buckets, hash), buckets, present),
{
    lemma_with_key_shape(lanes, buckets, hash);
    lemma_bucket_in_range(present, buckets);
    let base = base_of(present, buckets);
    let after = with_key(lanes, buckets, hash);
    assert forall|lane: int| 0 <= lane < LANES implies covers(
        #[trigger] after[base + lane],
        lane_mask(low_half(present), lane),
    ) by {
        let j = base + lane;
        assert(covers(lanes[base + lane], lane_mask(low_half(present), lane)));
        let hb = base_of(hash, buckets);
        if hb <= j < hb + LANES {
            lemma_covers_grows(lanes[j], lane_mask(low_half(present), lane), lane_mask(low_half(hash), j - hb));
        }
    }
}

proof fn lemma_replay_len(k: Kernel, lanes: Seq<u32>, buckets: nat, ops: Seq<Op>)
    requires
        lanes_wf(lanes, buckets),
    ensures
        replay(k, lanes, buckets, ops).1.len() == ops.len(),
        lanes_wf(replay(k, lanes, buckets, ops).0, buckets),
    decreases ops.len(),
{
    if ops.len() > 0 {
        lemma_replay_len(k, lanes, buckets, ops.drop_last());
        let prev = replay(k, lanes, buckets, ops.drop_last()).0;
        lemma_with_key_shape(prev, buckets, op_hash(ops.last()));
        lemma_bucket_in_range(op_hash(ops.last()), buckets);
        if k == Kernel::Paired {
            lemma_kernels_agree(prev, buckets, op_hash(ops.last()));
        }
    }
}

proof fn lemma_replay_keeps(lanes: Seq<u32>, buckets: nat, ops: Seq<Op>, k: int)
    requires
        lanes_wf(lanes, buckets),
        0 <= k < ops.len(),
        ops[k] is Insert,
    ensures
        may_contain(replay(Kernel::Wide, lanes, buckets, ops).0, buckets, op_hash(ops[k])),
    decreases ops.len(),
{
    let prefix = ops.drop_last();
    lemma_replay_len(Kernel::Wide, lanes, buckets, prefix);
    let prev = replay(Kernel::Wide, lanes, buckets, prefix).0;
    if k == ops.len() - 1 {
        lemma_insert_then_contains(prev, buckets, op_hash(ops[k]));
    } else {
        assert(prefix[k] == ops[k]);
        lemma_replay_keeps(lanes, buckets, prefix, k);
        if let Op::Insert(g) = ops.last() {
            lemma_insert_keeps_members(prev, buckets, op_hash(ops[k]), g);
        }
    }
}

/// No false negatives: once `ops[k]` has inserted a hash, every later call
/// about that hash answers true, and the final filter holds it.
pub proof fn lemma_no_false_negatives(lanes: Seq<u32>, buckets: nat, ops: Seq<Op>, k: int, m: int)
    requires
        lanes_wf(lanes, buckets),
        0 <= k < m < ops.len(),
        ops[k] is Insert,
        op_hash(ops[m]) == op_hash(ops[k]),
    ensures
        replay(Kernel::Wide, lanes, buckets, ops).1[m],
        may_contain(replay(Kernel::Wide, lanes, buckets, ops).0, buckets, op_hash(ops[k])),
    decreases ops.len(),
{
    lemma_replay_keeps(lanes, buckets, ops, k);
    let prefix = ops.drop_last();
    lemma_replay_len(Kernel::Wide, lanes, buckets, prefix);
    if m == ops.len() - 1 {
        assert(prefix[k] == ops[k]);
        lemma_replay_keeps(lanes, buckets, prefix, k);
    } else {
        assert(prefix[k] == ops[k]);
        assert(prefix[m] == ops[m]);
        lemma_no_false_negatives(lanes, buckets, prefix, k, m);
    }
}

/// Inserting a hash twice leaves the same filter as inserting it once, and
/// the second insertion reports the hash as already present.
pub proof fn lemma_insert_idempotent(lanes: Seq<u32>, buckets: nat, hash: u64)
    requires
        lanes_wf(lanes, buckets),
    ensures
        with_key(with_key(lanes, buckets, hash), buckets, hash) == with_key(lanes, buckets, hash),
        may_contain(with_key(lanes, buckets, hash), buckets, hash),
        forall|other: u64|
            may_contain(with_key(with_key(lanes, buckets, hash), buckets, hash), buckets, other)
                == #[trigger] may_contain(with_key(lanes, buckets, hash), buckets, other),
{
    lemma_insert_then_contains(lanes, buckets, hash);
    lemma_with_key_shape(lanes, buckets, hash);
    let once = with_key(lanes, buckets, hash);
    let twice = with_key(once, buckets, hash);
    let base = base_of(hash, buckets);
    assert forall|j: int| 0 <= j < once.len() implies twice[j] == once[j] by {
        if base <= j < base + LANES {
            lemma_or_covers(lanes[j], lane_mask(low_half(hash), j - base));
        }
    }
    assert(twice =~= once);
}

/// Both kernels build the same mask: lane `j` of half `half` is lane
/// `4 * half + j` of the whole mask.
pub proof fn lemma_masks_agree(low: u32, half: int, j: int)
    requires
        0 <= half < 2,
        0 <= j < HALF_LANES,
    ensures
        half_mask(low, half, j) == lane_mask(low, HALF_LANES * half + j),
{
    let e = lane_bit(low, HALF_LANES * half + j);
    assert(e < 32) by {
        let p = (crate::mask::salt_of(HALF_LANES * half + j) as nat * low as nat) % 0x1_0000_0000;
        assert(p / 0x800_0000 < 32) by (nonlinear_arith)
            requires
                p < 0x1_0000_0000,
        ;
    }
    vstd::bits::lemma_u32_pow2_no_overflow(e as nat);
    vstd::bits::lemma_u32_shl_is_mul(1, e);
}

/// The two kernels agree on one bucket: the same answer and the same lanes.
pub proof fn lemma_kernels_agree(lanes: Seq<u32>, buckets: nat, hash: u64)
    requires
        lanes_wf(lanes, buckets),
    ensures
        paired_may_contain(lanes, buckets, hash) == may_contain(lanes, buckets, hash),
        paired_with_key(lanes, buckets, hash) == with_key(lanes, buckets, hash),
{
    lemma_bucket_in_range(hash, buckets);
    let low = low_half(hash);
    let base = base_of(hash, buckets);
    assert forall|lane: int| 0 <= lane < LANES implies #[trigger] lane_mask(low, lane) == if lane
        < HALF_LANES {
        half_mask(low, 0, lane)
    } else {
        half_mask(low, 1, lane - HALF_LANES)
    } by {
        if lane < HALF_LANES {
            lemma_masks_agree(low, 0, lane);
        } else {
            lemma_masks_agree(low, 1, lane - HALF_LANES);
        }
    }
    if may_contain(lanes, buckets, hash) {
        assert forall|j: int| 0 <= j < HALF_LANES implies covers(
            #[trigger] lanes[base + j],
            half_mask(low, 0, j),
        ) by {
            assert(lane_mask(low, j) == half_mask(low, 0, j));
        }
        assert forall|j: int| 0 <= j < HALF_LANES implies covers(
            #[trigger] lanes[base + HALF_LANES + j],
            half_mask(low, 1, j),
        ) by {
            assert(lane_mask(low, HALF_LANES + j) == half_mask(low, 1, j));
            assert(covers(lanes[base + (HALF_LANES + j)], lane_mask(low, HALF_LANES + j)));
        }
    }
    if paired_may_contain(lanes, buckets, hash) {
        assert forall|lane: int| 0 <= lane < LANES implies covers(
            #[trigger] lanes[base + lane],
            lane_mask(low, lane),
        ) by {
            if lane < HALF_LANES {
                assert(covers(lanes[base + lane], half_mask(low, 0, lane)));
            } else {
                let j = lane - HALF_LANES;
                assert(half_covered(lanes, base + HALF_LANES, hash, 1));
                assert(covers(lanes[base + HALF_LANES + j], half_mask(low, 1, j)));
                assert(base + HALF_LANES + j == base + lane);
            }
        }
    }
    assert forall|j: int| 0 <= j < lanes.len() implies paired_with_key(lanes, buckets, hash)[j]
        == with_key(lanes, buckets, hash)[j] by {
        if base <= j < base + LANES {
            assert(lane_mask(low, j - base) == lane_mask(low, j - base));
        }
    }
    assert(paired_with_key(lanes, buckets, hash) =~= with_key(lanes, buckets, hash));
}

/// Replaying one sequence of calls with either kernel from the same lanes
/// gives the same answers and the same final lanes.
pub proof fn lemma_cross_kernel(lanes: Seq<u32>, buckets: nat, ops: Seq<Op>)
    requires
        lanes_wf(lanes, buckets),
    ensures
        replay(Kernel::Wide, lanes, buckets, ops) == replay(Kernel::Paired, lanes, buckets, ops),
    decreases ops.len(),
{
    if ops.len() > 0 {
        lemma_cross_kernel(lanes, buckets, ops.drop_last());
        lemma_replay_len(Kernel::Wide, lanes, buckets, ops.drop_last());
        let prev = replay(Kernel::Wide, lanes, buckets, ops.drop_last()).0;
        lemma_kernels_agree(prev, buckets, op_hash(ops.last()));
    }
}

/// The buffer is always a positive whole number of cache lines, and within
/// half a cache line of the naive size.
pub proof fn lemma_geometry_aligned(bits: nat, keys: nat)
    ensures
        byte_length_for(raw_bytes(bits, keys)) > 0,
        byte_length_for(raw_bytes(bits, keys)) % 64 == 0,
        byte_length_for(raw_bytes(bits, keys)) + 32 > raw_bytes(bits, keys),
{
    let raw = raw_bytes(bits, keys);
    let rounded = (raw + 32) / 64 * 64;
    assert(rounded % 64 == 0 && rounded + 64 > raw + 32) by (nonlinear_arith)
        requires
            rounded == (raw + 32) / 64 * 64,
    ;
}

/// The buffer is at least the naive size, except where rounding to the
/// nearest cache line goes down: a naive size of one cache line or more
/// that exceeds a multiple of 64 by less than 32.
pub proof fn lemma_geometry_covers_raw(bits: nat, keys: nat)
    requires
        raw_bytes(bits, keys) < 64 || raw_bytes(bits, keys) % 64 == 0 || raw_bytes(bits, keys) % 64
            >= 32,
    ensures
        byte_length_for(raw_bytes(bits, keys)) >= raw_bytes(bits, keys),
{
    let raw = raw_bytes(bits, keys);
    let rounded = (raw + 32) / 64 * 64;
    assert(raw < 64 || rounded >= raw) by (nonlinear_arith)
        requires
            rounded == (raw + 32) / 64 * 64,
            raw < 64 || raw % 64 == 0 || raw % 64 >= 32,
    ;
}

} // verus!
