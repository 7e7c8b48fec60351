//! Hardware-bound evolutionary synthesis.

use vstd::prelude::*;
use crate::error::HashDigest;
use crate::digest::{sha3_256, sha3_256_digest};
use crate::bytes::{u64_be, u64_to_be_bytes, concat_digests, concat_digest_list};

verus! {

/// Synthesis kernel. The temperature in kelvin is held as its IEEE-754 bit
/// pattern (`f64::to_bits`): only its bytes enter the attestation.
pub struct HardwareBoundSynthesis {
    pub current_temperature_bits: u64,
    pub evolutionary_generation: u64,
}

/// Bit pattern of the base temperature 1.0 K.
pub const BASE_TEMPERATURE_BITS: u64 = 0x3FF0000000000000;

/// Domain separator of autonomous identities.
pub open spec fn autonomous_identity_domain() -> Seq<u8> {
    seq![82u8, 67, 79, 45, 65, 85, 84, 79, 78, 79, 77, 79, 85, 83, 45, 73, 68, 69, 78, 84, 73, 84, 89, 45, 118, 52]
}

impl HardwareBoundSynthesis {
    /// Base temperature 1.0 K, generation 0.
    pub fn new() -> (s: Self)
        ensures
            s.current_temperature_bits == BASE_TEMPERATURE_BITS,
            s.evolutionary_generation == 0,
    {
        HardwareBoundSynthesis { current_temperature_bits: BASE_TEMPERATURE_BITS, evolutionary_generation: 0 }
    }

    /// Attestation of physical invariance: SHA3-256 of the state hash, the
    /// temperature's big-endian bytes and the generation's big-endian bytes.
    pub fn attest_physical_invariance(&self, state_hash: &HashDigest) -> (r: [u8; 32])
        ensures
            r@ == sha3_256_digest(state_hash@ + u64_be(self.current_temperature_bits) + u64_be(self.evolutionary_generation)),
    {
        let mut message: Vec<u8> = Vec::new();
        message.extend_from_slice(state_hash.as_slice());
        let t = u64_to_be_bytes(self.current_temperature_bits);
        message.extend_from_slice(t.as_slice());
        let g = u64_to_be_bytes(self.evolutionary_generation);
        message.extend_from_slice(g.as_slice());
        assert(message@ =~= state_hash@ + u64_be(self.current_temperature_bits) + u64_be(self.evolutionary_generation));
        sha3_256(message.as_slice())
    }

    /// Simulated hardware entropy: byte `i` is the low byte of the generation XOR `i`.
    pub fn get_hardware_entropy(&self) -> (r: [u8; 32])
        ensures
            forall|i: int| 0 <= i < 32 ==> #[trigger] r@[i] == (self.evolutionary_generation ^ (i as u64)) as u8,
    {
        let mut entropy = [0u8; 32];
        let mut i: usize = 0;
        while i < 32
            invariant
                0 <= i <= 32,
                forall|k: int| 0 <= k < i ==> #[trigger] entropy@[k] == (self.evolutionary_generation ^ (k as u64)) as u8,
            decreases 32 - i,
        {
            entropy[i] = (self.evolutionary_generation ^ i as u64) as u8;
            i = i + 1;
        }
        entropy
    }

    /// The global root of several clusters: SHA3-256 of their roots in order.
    pub fn synthesize_multi_cluster(&self, cluster_roots: &[[u8; 32]]) -> (r: [u8; 32])
        ensures
            r@ == sha3_256_digest(concat_digests(cluster_roots@)),
    {
        let message = concat_digest_list(cluster_roots);
        sha3_256(message.as_slice())
    }

    /// A manifold-bound identity: SHA3-256 of the domain separator and the root.
    pub fn generate_autonomous_identity(&self, manifold_root: &[u8; 32]) -> (r: [u8; 32])
        ensures
            r@ == sha3_256_digest(autonomous_identity_domain() + manifold_root@),
    {
        let mut message: Vec<u8> = vec![82, 67, 79, 45, 65, 85, 84, 79, 78, 79, 77, 79, 85, 83, 45, 73, 68, 69, 78, 84, 73, 84, 89, 45, 118, 52];
        message.extend_from_slice(manifold_root.as_slice());
        assert(message@ =~= autonomous_identity_domain() + manifold_root@);
        sha3_256(message.as_slice())
    }
}

} // verus!
