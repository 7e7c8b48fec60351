//! The persistence witness: a hash chain folded over sampled roots, with
//! the number of samples folded in.

use vstd::prelude::*;
use crate::error::HashDigest;
use crate::bytes::{u64_le, u64_to_le_bytes};
use crate::digest::{keccak256, keccak256_digest};

verus! {

/// A compact persistence witness.
#[derive(Clone, Debug)]
pub struct PersistenceWitness {
    /// The aggregated hash root.
    pub aggregate_root: HashDigest,
    /// The number of samples folded into this witness.
    pub sample_count: usize,
}

/// Number of bytes in a `usize`.
pub open spec fn usize_bytes() -> nat {
    (usize::BITS / 8) as nat
}

/// The byte form of a witness: the aggregate root followed by the sample
/// count in little-endian order, as wide as a `usize`.
pub open spec fn witness_bytes(root: Seq<u8>, count: usize) -> Seq<u8> {
    root + u64_le(count as u64).subrange(0, usize_bytes() as int)
}

impl PersistenceWitness {
    /// The empty witness: an all-zero root and no samples.
    pub fn new() -> (w: Self)
        ensures
            w.aggregate_root@ == Seq::new(32, |i: int| 0u8),
            w.sample_count == 0,
    {
        let w = PersistenceWitness { aggregate_root: [0u8; 32], sample_count: 0 };
        assert(w.aggregate_root@ =~= Seq::new(32, |i: int| 0u8));
        w
    }

    /// Folds one sample root into the witness.
    pub fn accumulate(&mut self, sample_root: HashDigest)
        requires
            old(self).sample_count < usize::MAX,
        ensures
            final(self).aggregate_root@ == keccak256_digest(old(self).aggregate_root@ + sample_root@),
            final(self).sample_count == old(self).sample_count + 1,
    {
        let mut message: Vec<u8> = Vec::new();
        message.extend_from_slice(self.aggregate_root.as_slice());
        message.extend_from_slice(sample_root.as_slice());
        assert(message@ =~= self.aggregate_root@ + sample_root@);
        self.aggregate_root = keccak256(message.as_slice());
        self.sample_count = self.sample_count + 1;
    }

    /// The witness's byte form.
    pub fn to_bytes(&self) -> (r: Vec<u8>)
        ensures
            r@ == witness_bytes(self.aggregate_root@, self.sample_count),
    {
        let mut bytes: Vec<u8> = Vec::new();
        bytes.extend_from_slice(self.aggregate_root.as_slice());
        let count = u64_to_le_bytes(self.sample_count as u64);
        let width: usize = (usize::BITS / 8) as usize;
        let mut i: usize = 0;
        while i < width
            invariant
                width == usize_bytes(),
                width <= 8,
                0 <= i <= width,
                count@ == u64_le(self.sample_count as u64),
                bytes@ == self.aggregate_root@ + count@.subrange(0, i as int),
            decreases width - i,
        {
            bytes.push(count[i]);
            assert(count@.subrange(0, i + 1) =~= count@.subrange(0, i as int).push(count@[i as int]));
            i = i + 1;
        }
        bytes
    }
}

impl Default for PersistenceWitness {
    fn default() -> (w: Self)
        ensures
            w.aggregate_root@ == Seq::new(32, |i: int| 0u8),
            w.sample_count == 0,
    {
        Self::new()
    }
}

} // verus!
