//! The index/mask algorithm: which bucket a hash lands in, and which bit
//! of each lane it claims.
use vstd::prelude::*;

verus! {

use vstd::arithmetic::div_mod::lemma_multiply_divide_lt;
use vstd::arithmetic::power2::lemma2_to64;
use vstd::bits::lemma_u64_shr_is_div;

/// Number of 32-bit lanes in one bucket.
pub const LANES: usize = 8;

/// The odd multiplier of lane `lane`.
pub open spec fn salt_of(lane: int) -> u32 {
    if lane == 0 {
        0x47b6137b
    } else if lane == 1 {
        0x44974d91
    } else if lane == 2 {
        0x8824ad5b
    } else if lane == 3 {
        0xa2b7289d
    } else if lane == 4 {
        0x705495c7
    } else if lane == 5 {
        0x2df1424b
    } else if lane == 6 {
        0x9efc4947
    } else {
        0x5c6bfb31
    }
}

/// The low 32 bits of a hash: they choose the bits inside the bucket.
pub open spec fn low_half(hash: u64) -> u32 {
    (hash % 0x1_0000_0000) as u32
}

/// The high 32 bits of a hash: they choose the bucket.
pub open spec fn high_half(hash: u64) -> u32 {
    (hash / 0x1_0000_0000) as u32
}

/// Fastrange: maps `x` uniformly onto `[0, n)` by a widened multiply.
pub open spec fn fastrange_spec(x: u32, n: u32) -> nat {
    (x as nat * n as nat / 0x1_0000_0000) as nat
}

/// The bucket that `hash` selects among `buckets` buckets.
pub open spec fn bucket_index(hash: u64, buckets: nat) -> nat {
    fastrange_spec(high_half(hash), buckets as u32)
}

/// The bit position, in `[0, 32)`, that a hash whose low half is `low`
/// claims in lane `lane`: the top five bits of the 32-bit product of the
/// lane's salt and `low`.
pub open spec fn lane_bit(low: u32, lane: int) -> u32 {
    ((salt_of(lane) as nat * low as nat) % 0x1_0000_0000 / 0x800_0000) as u32
}

/// The one-bit word that a hash whose low half is `low` sets in lane `lane`.
pub open spec fn lane_mask(low: u32, lane: int) -> u32 {
    1u32 << lane_bit(low, lane)
}

/// The whole 256-bit mask, lane by lane, of a hash whose low half is `low`.
pub open spec fn bucket_mask(low: u32) -> Seq<u32> {
    Seq::new(LANES as nat, |lane: int| lane_mask(low, lane))
}

/// The salt of lane `lane`.
pub fn salt(lane: usize) -> (r: u32)
    requires
        lane < LANES,
    ensures
        r == salt_of(lane as int),
{
    match lane {
        0 => 0x47b6137b,
        1 => 0x44974d91,
        2 => 0x8824ad5b,
        3 => 0xa2b7289d,
        4 => 0x705495c7,
        5 => 0x2df1424b,
        6 => 0x9efc4947,
        _ => 0x5c6bfb31,
    }
}

/// Maps `x` onto `[0, n)` as `(x * n) >> 32`, with the product taken in 64 bits.
pub fn fastrange(x: u32, n: u32) -> (r: u32)
    ensures
        r == fastrange_spec(x, n),
        n > 0 ==> r < n,
{
    proof {
        assert(x as nat * n as nat <= 0xffff_ffff * 0xffff_ffff) by (nonlinear_arith);
        if n > 0 {
            assert((x as int) * (n as int) < 0x1_0000_0000 * (n as int)) by (nonlinear_arith)
                requires
                    x < 0x1_0000_0000,
                    n > 0,
            ;
            lemma_multiply_divide_lt(x as int * n as int, 0x1_0000_0000, n as int);
        }
    }
    let wide: u64 = (x as u64) * (n as u64);
    proof {
        lemma_u64_shr_is_div(wide, 32);
        lemma2_to64();
        assert(wide as nat / 0x1_0000_0000 <= 0xffff_ffff) by (nonlinear_arith)
            requires
                wide < 0x1_0000_0000_0000_0000,
        ;
    }
    (wide >> 32) as u32
}

/// The bucket index of `hash` among `buckets` buckets.
pub fn bucket_of(hash: u64, buckets: u32) -> (r: u32)
    ensures
        r == bucket_index(hash, buckets as nat),
        buckets > 0 ==> r < buckets,
{
    proof {
        lemma_u64_shr_is_div(hash, 32);
        lemma2_to64();
    }
    let high: u32 = (hash >> 32u64) as u32;
    fastrange(high, buckets)
}

/// The bit position that the low half `low` of a hash claims in lane `lane`.
pub fn lane_shift(low: u32, lane: usize) -> (r: u32)
    requires
        lane < LANES,
    ensures
        r < 32,
        r == lane_bit(low, lane as int),
{
    let s = salt(lane);
    let prod: u32 = s.wrapping_mul(low);
    let r = prod >> 27;
    proof {
        assert(prod as nat == (s as nat * low as nat) % 0x1_0000_0000);
        assert(prod >> 27 == prod / 0x800_0000) by (bit_vector);
        assert(r < 32) by (bit_vector)
            requires
                r == prod >> 27,
        ;
    }
    r
}

} // verus!
