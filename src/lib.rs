//! A split-block Bloom filter over caller-supplied 64-bit hashes.
//!
//! Each hash selects one 32-byte bucket (eight 32-bit lanes) and sets one
//! bit in every lane of it. Membership tests read the same eight bits.
use vstd::prelude::*;

pub mod avx2;
pub mod laws;
pub mod mask;
pub mod model;
pub mod sse;

use crate::mask::LANES;
use crate::laws::{lemma_insert_keeps_members, lemma_insert_then_contains};
use crate::model::{lanes_wf, may_contain, with_key};

verus! {

/// Size in bytes of a cache line; the buffer is a whole number of them.
pub const ALIGNMENT: usize = 64;

/// Size in bytes of one bucket.
pub const BUCKET_SIZE: usize = 32;

/// The largest buffer, in bytes, whose bucket count fits the 32-bit index.
pub const MAX_BYTES: u64 = 0x20_0000_0000;

/// The naive size in bytes of `bits` bits for each of `keys` keys.
pub open spec fn raw_bytes(bits: nat, keys: nat) -> nat {
    bits * keys / 8
}

/// The buffer size for a naive size of `raw` bytes: `raw` rounded to the
/// nearest multiple of a cache line, and never less than one cache line.
pub open spec fn byte_length_for(raw: nat) -> nat {
    let rounded = (raw + 32) / 64 * 64;
    if rounded == 0 {
        64
    } else {
        rounded
    }
}

/// A split-block Bloom filter: a zero-initialised buffer of buckets of
/// eight 32-bit lanes, into which hashes are inserted and tested.
pub struct Filter {
    buf: Vec<u32>,
    size: usize,
    buckets: usize,
}

impl View for Filter {
    type V = Seq<u32>;

    /// The lanes of the buffer, eight per bucket.
    closed spec fn view(&self) -> Seq<u32> {
        self.buf@
    }
}

impl Filter {
    /// The size of the buffer in bytes.
    pub closed spec fn spec_byte_length(&self) -> nat {
        self.size as nat
    }

    /// The number of 32-byte buckets.
    pub closed spec fn spec_bucket_count(&self) -> nat {
        self.buckets as nat
    }

    /// The geometry of the buffer is consistent.
    pub open spec fn wf(&self) -> bool {
        &&& lanes_wf(self@, self.spec_bucket_count())
        &&& self.spec_byte_length() == BUCKET_SIZE * self.spec_bucket_count()
        &&& self.spec_byte_length() % ALIGNMENT as nat == 0
    }

    /// Builds an empty filter for `keys` keys of `bits` bits each; its size
    /// is `bits * keys / 8` bytes rounded to the nearest cache line.
    pub fn new(bits: usize, keys: usize) -> (r: Filter)
        requires
            1 <= bits,
            1 <= keys,
            bits * keys <= usize::MAX,
            raw_bytes(bits as nat, keys as nat) + 32 < MAX_BYTES,
        ensures
            r.wf(),
            r.spec_byte_length() == byte_length_for(raw_bytes(bits as nat, keys as nat)),
            r.spec_bucket_count() == r.spec_byte_length() / BUCKET_SIZE as nat,
            r@ == Seq::new(r@.len(), |i: int| 0u32),
    {
        let raw: usize = bits * keys / 8;
        let rounded: usize = ((raw + ALIGNMENT / 2) / ALIGNMENT) * ALIGNMENT;
        let size: usize = if rounded == 0 {
            ALIGNMENT
        } else {
            rounded
        };
        proof {
            assert((raw as int + 32) / 64 * 64 <= raw as int + 32) by (nonlinear_arith);
            assert(size % 64 == 0) by (nonlinear_arith)
                requires
                    size == rounded || size == 64,
                    rounded == (raw as int + 32) / 64 * 64,
            ;
        }
        let buckets: usize = size / BUCKET_SIZE;
        let n: usize = buckets * LANES;
        let mut buf: Vec<u32> = Vec::with_capacity(n);
        while buf.len() < n
            invariant
                n == buckets * LANES,
                buf@.len() <= n,
                forall|i: int| 0 <= i < buf@.len() ==> buf@[i] == 0u32,
            decreases n - buf@.len(),
        {
            buf.push(0u32);
        }
        let r = Filter { buf, size, buckets };
        assert(r@ =~= Seq::new(r@.len(), |i: int| 0u32));
        r
    }

    /// Sets the eight bits of `hash` and returns whether all of them were
    /// already set.
    pub fn insert(&mut self, hash: u64) -> (r: bool)
        requires
            old(self).wf(),
        ensures
            final(self).wf(),
            r == may_contain(old(self)@, old(self).spec_bucket_count(), hash),
            final(self)@ == with_key(old(self)@, old(self).spec_bucket_count(), hash),
            final(self).spec_bucket_count() == old(self).spec_bucket_count(),
            final(self).spec_byte_length() == old(self).spec_byte_length(),
            may_contain(final(self)@, final(self).spec_bucket_count(), hash),
            forall|other: u64|
                may_contain(old(self)@, old(self).spec_bucket_count(), other) ==> #[trigger] may_contain(
                    final(self)@,
                    final(self).spec_bucket_count(),
                    other,
                ),
    {
        let ghost before = self@;
        let r = avx2::insert(&mut self.buf, self.buckets, hash);
        proof {
            lemma_insert_then_contains(before, self.buckets as nat, hash);
            assert forall|other: u64|
                may_contain(before, self.buckets as nat, other) implies #[trigger] may_contain(
                self@,
                self.buckets as nat,
                other,
            ) by {
                lemma_insert_keeps_members(before, self.buckets as nat, other, hash);
            }
        }
        r
    }

    /// Whether every one of the eight bits of `hash` is set.
    pub fn contains(&self, hash: u64) -> (r: bool)
        requires
            self.wf(),
        ensures
            r == may_contain(self@, self.spec_bucket_count(), hash),
    {
        avx2::contains(self.buf.as_slice(), self.buckets, hash)
    }

    /// The size of the buffer in bytes.
    pub fn byte_length(&self) -> (r: usize)
        ensures
            r == self.spec_byte_length(),
    {
        self.size
    }

    /// The number of 32-byte buckets.
    pub fn bucket_count(&self) -> (r: usize)
        ensures
            r == self.spec_bucket_count(),
    {
        self.buckets
    }
}

} // verus!
