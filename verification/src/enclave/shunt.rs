//! Secure telemetry shunt: the memory regions shared between the host, the
//! ingestion enclave and the root-of-trust enclave, and who may touch them.
//!
//! The regions are held by value; a write takes the shunt mutably.

use vstd::prelude::*;
use crate::error::HashDigest;

verus! {

/// The shared memory regions.
pub struct MemoryMap {
    /// Root hash register: written by the root of trust, read by the ingestion enclave.
    pub rte_root_register: HashDigest,
    /// Simplex data buffer: written by the ingestion enclave.
    pub ie_simplex_buffer: Vec<u8>,
    /// Attestation challenge slot: written by the host, read by the enclaves.
    pub attestation_slot: [u8; 32],
}

impl MemoryMap {
    /// All regions zeroed and the buffer empty.
    pub fn new() -> (m: Self)
        ensures
            m.rte_root_register@ == Seq::new(32, |i: int| 0u8),
            m.ie_simplex_buffer@.len() == 0,
            m.attestation_slot@ == Seq::new(32, |i: int| 0u8),
    {
        let m = MemoryMap { rte_root_register: [0u8; 32], ie_simplex_buffer: Vec::new(), attestation_slot: [0u8; 32] };
        assert(m.rte_root_register@ =~= Seq::new(32, |i: int| 0u8));
        assert(m.attestation_slot@ =~= Seq::new(32, |i: int| 0u8));
        m
    }
}

/// The shunt connecting the enclaves.
pub struct SecureShunt {
    memory_map: MemoryMap,
}

impl SecureShunt {
    /// The challenge slot's content.
    pub closed spec fn challenge(&self) -> Seq<u8> {
        self.memory_map.attestation_slot@
    }

    /// The root register's content.
    pub closed spec fn root_register(&self) -> Seq<u8> {
        self.memory_map.rte_root_register@
    }

    pub fn new() -> (s: Self)
        ensures
            s.challenge() == Seq::new(32, |i: int| 0u8),
            s.root_register() == Seq::new(32, |i: int| 0u8),
    {
        SecureShunt { memory_map: MemoryMap::new() }
    }

    /// The host writes an attestation challenge.
    pub fn host_write_challenge(&mut self, challenge: &[u8; 32])
        ensures
            final(self).challenge() == challenge@,
            final(self).root_register() == old(self).root_register(),
    {
        self.memory_map.attestation_slot = *challenge;
    }

    /// An enclave reads the attestation challenge.
    pub fn enclave_read_challenge(&self) -> (c: [u8; 32])
        ensures
            c@ == self.challenge(),
    {
        self.memory_map.attestation_slot
    }

    /// The root of trust writes the enclave-bound manifold root.
    pub fn rte_write_root(&mut self, root: &HashDigest)
        ensures
            final(self).root_register() == root@,
            final(self).challenge() == old(self).challenge(),
    {
        self.memory_map.rte_root_register = *root;
    }

    /// The host may not read the root register: always a hardware exception.
    pub fn host_read_rte_root(&self) -> (r: Result<HashDigest, &'static str>)
        ensures
            r == Err::<HashDigest, &'static str>("Hardware Exception: Host cannot read PRM/RTE memory directly."),
    {
        Err("Hardware Exception: Host cannot read PRM/RTE memory directly.")
    }
}

} // verus!
