//! The per-file bloom filter over field ids.

use vstd::prelude::*;

verus! {

pub const BLOOM_FILTER_BITS: u64 = 512;

pub const BLOOM_FILTER_BYTES: usize = 64;

/// A fixed-size bit set in which each field id sets two bits.
pub struct BloomFilter {
    bits: Vec<u8>,
}

pub open spec fn bit_set(bits: Seq<u8>, i: int) -> bool {
    (bits[i / 8] >> ((i % 8) as u8)) & 1u8 == 1u8
}

pub open spec fn first_pos(fid: u64) -> int {
    (fid % BLOOM_FILTER_BITS) as int
}

pub open spec fn second_pos(fid: u64) -> int {
    ((fid / BLOOM_FILTER_BITS) % BLOOM_FILTER_BITS) as int
}

pub open spec fn may_hold(bits: Seq<u8>, fid: u64) -> bool {
    bit_set(bits, first_pos(fid)) && bit_set(bits, second_pos(fid))
}

proof fn lemma_or_bit(b: u8, k: u8, j: u8)
    requires
        k < 8,
        j < 8,
    ensures
        ((b | (1u8 << k)) >> k) & 1u8 == 1u8,
        (b >> j) & 1u8 == 1u8 ==> ((b | (1u8 << k)) >> j) & 1u8 == 1u8,
{
    assert(((b | (1u8 << k)) >> k) & 1u8 == 1u8) by (bit_vector)
        requires
            k < 8,
    ;
    assert((b >> j) & 1u8 == 1u8 ==> ((b | (1u8 << k)) >> j) & 1u8 == 1u8) by (bit_vector)
        requires
            k < 8,
            j < 8,
    ;
}

impl BloomFilter {
    pub open spec fn wf(&self) -> bool {
        self.bits().len() == BLOOM_FILTER_BYTES
    }

    pub closed spec fn bits(&self) -> Seq<u8> {
        self.bits@
    }

    /// Whether the filter may hold `fid`: false means it surely does not.
    pub open spec fn may_contain(&self, fid: u64) -> bool {
        may_hold(self.bits(), fid)
    }

    /// An empty filter.
    pub fn new() -> (r: BloomFilter)
        ensures
            r.wf(),
            r.bits() == Seq::new(BLOOM_FILTER_BYTES as nat, |i: int| 0u8),
    {
        let bits = vec![0u8; BLOOM_FILTER_BYTES];
        assert(bits@ =~= Seq::new(BLOOM_FILTER_BYTES as nat, |i: int| 0u8));
        BloomFilter { bits }
    }

    /// A filter whose bits are the given bytes.
    pub fn from_bytes(bytes: Vec<u8>) -> (r: BloomFilter)
        requires
            bytes@.len() == BLOOM_FILTER_BYTES,
        ensures
            r.wf(),
            r.bits() == bytes@,
    {
        BloomFilter { bits: bytes }
    }

    pub fn bytes(&self) -> (r: &Vec<u8>)
        ensures
            r@ == self.bits(),
    {
        &self.bits
    }

    pub fn copy(&self) -> (r: BloomFilter)
        ensures
            r.bits() == self.bits(),
    {
        let bits = self.bits.clone();
        assert(bits@ =~= self.bits@);
        BloomFilter { bits }
    }

    fn set_bit(&mut self, i: u64)
        requires
            old(self).wf(),
            i < BLOOM_FILTER_BITS,
        ensures
            final(self).wf(),
            bit_set(final(self).bits(), i as int),
            forall|j: int| 0 <= j < BLOOM_FILTER_BITS && bit_set(old(self).bits(), j) ==> bit_set(final(self).bits(), j),
    {
        let byte = (i / 8) as usize;
        let k = (i % 8) as u8;
        let old_b = self.bits[byte];
        let new_b = old_b | (1u8 << k);
        self.bits.set(byte, new_b);
        proof {
            lemma_or_bit(old_b, k, 0);
            assert forall|j: int| 0 <= j < BLOOM_FILTER_BITS && bit_set(old(self).bits(), j) implies bit_set(self.bits(), j) by {
                if j / 8 == byte as int {
                    lemma_or_bit(old_b, k, (j % 8) as u8);
                }
            }
        }
    }

    /// Records `fid`; afterwards the filter may contain it, and still may
    /// contain every id it could before.
    pub fn insert(&mut self, fid: u64)
        requires
            old(self).wf(),
        ensures
            final(self).wf(),
            final(self).may_contain(fid),
            forall|f: u64| old(self).may_contain(f) ==> final(self).may_contain(f),
    {
        self.set_bit(fid % BLOOM_FILTER_BITS);
        self.set_bit((fid / BLOOM_FILTER_BITS) % BLOOM_FILTER_BITS);
    }

    fn test_bit(&self, i: u64) -> (r: bool)
        requires
            self.wf(),
            i < BLOOM_FILTER_BITS,
        ensures
            r == bit_set(self.bits(), i as int),
    {
        (self.bits[(i / 8) as usize] >> ((i % 8) as u8)) & 1u8 == 1u8
    }

    pub fn contains(&self, fid: u64) -> (r: bool)
        requires
            self.wf(),
        ensures
            r == self.may_contain(fid),
    {
        self.test_bit(fid % BLOOM_FILTER_BITS) && self.test_bit((fid / BLOOM_FILTER_BITS) % BLOOM_FILTER_BITS)
    }
}

} // verus!
