//! Root-of-trust enclave: hardware keys, the enclave-bound manifold root and
//! the entropy pool.

use vstd::prelude::*;
use crate::error::{HashDigest, RcoError};
use crate::digest::{keccak256, keccak256_digest};
use crate::entropy::hwrng::{fill_hardware_entropy, source_failure};

verus! {

/// The hardware manufacturer identity and PUF key.
pub struct HardwareIdentity {
    /// Physical unclonable function key.
    pub puf_key: [u8; 32],
    /// Manufacturer attestation key identifier.
    pub manufacturer_cert_id: u64,
}

/// Context under which the manifold root is bound to the hardware key.
pub open spec fn manifold_binding_context() -> Seq<u8> {
    seq![82u8, 67, 79, 95, 77, 65, 78, 73, 70, 79, 76, 68, 95, 66, 73, 78, 68, 73, 78, 71]
}

/// The hardware key for a context: Keccak-256 of the PUF key and the context.
pub open spec fn hardware_key(puf_key: Seq<u8>, context: Seq<u8>) -> Seq<u8> {
    keccak256_digest(puf_key + context)
}

/// The enclave-bound manifold root of a topological root.
pub open spec fn bound_root(puf_key: Seq<u8>, topological_root: Seq<u8>) -> Seq<u8> {
    keccak256_digest(hardware_key(puf_key, manifold_binding_context()) + topological_root)
}

impl HardwareIdentity {
    /// Derives the hardware key for `context`.
    pub fn derive_hardware_key(&self, context: &[u8]) -> (r: [u8; 32])
        ensures
            r@ == hardware_key(self.puf_key@, context@),
    {
        let mut message: Vec<u8> = Vec::new();
        message.extend_from_slice(self.puf_key.as_slice());
        message.extend_from_slice(context);
        assert(message@ =~= self.puf_key@ + context@);
        keccak256(message.as_slice())
    }
}

/// The root-of-trust enclave.
pub struct RootOfTrustEnclave {
    pub identity: HardwareIdentity,
    pub entropy_pool: [u8; 32],
    /// The current enclave-bound manifold root.
    pub omega_rve: HashDigest,
}

impl RootOfTrustEnclave {
    /// A fresh enclave with a random PUF key and entropy pool, both drawn
    /// from the operating system's random source, and an all-zero manifold
    /// root. Fails only when that source fails.
    pub fn new(manufacturer_cert_id: u64) -> (r: Result<Self, RcoError>)
        ensures
            r matches Err(err) ==> err == source_failure(),
            r matches Ok(e) ==> e.identity.manufacturer_cert_id == manufacturer_cert_id
                && e.omega_rve@ == Seq::new(32, |i: int| 0u8),
    {
        let mut puf_key = [0u8; 32];
        match fill_hardware_entropy(&mut puf_key) {
            Ok(()) => {},
            Err(e) => {
                return Err(e);
            },
        }
        let mut entropy_pool = [0u8; 32];
        match fill_hardware_entropy(&mut entropy_pool) {
            Ok(()) => {},
            Err(e) => {
                return Err(e);
            },
        }
        let e = RootOfTrustEnclave {
            identity: HardwareIdentity { puf_key, manufacturer_cert_id },
            entropy_pool,
            omega_rve: [0u8; 32],
        };
        assert(e.omega_rve@ =~= Seq::new(32, |i: int| 0u8));
        Ok(e)
    }

    /// Binds a topological root to the hardware: the new manifold root is the
    /// Keccak-256 of the binding key and the topological root.
    pub fn update_manifold_root(&mut self, topological_root: &HashDigest)
        ensures
            final(self).omega_rve@ == bound_root(old(self).identity.puf_key@, topological_root@),
            final(self).identity == old(self).identity,
            final(self).entropy_pool == old(self).entropy_pool,
    {
        let context: Vec<u8> = vec![82, 67, 79, 95, 77, 65, 78, 73, 70, 79, 76, 68, 95, 66, 73, 78, 68, 73, 78, 71];
        assert(context@ =~= manifold_binding_context());
        let k_hw = self.identity.derive_hardware_key(context.as_slice());
        let mut message: Vec<u8> = Vec::new();
        message.extend_from_slice(k_hw.as_slice());
        message.extend_from_slice(topological_root.as_slice());
        assert(message@ =~= k_hw@ + topological_root@);
        self.omega_rve = keccak256(message.as_slice());
    }

    /// XORs the given bytes into the entropy pool.
    pub fn mix_into_pool(&mut self, fresh: &[u8; 32])
        ensures
            final(self).identity == old(self).identity,
            final(self).omega_rve == old(self).omega_rve,
            forall|i: int| 0 <= i < 32 ==> #[trigger] final(self).entropy_pool@[i] == old(self).entropy_pool@[i] ^ fresh@[i],
    {
        let mut i: usize = 0;
        while i < 32
            invariant
                0 <= i <= 32,
                self.identity == old(self).identity,
                self.omega_rve == old(self).omega_rve,
                forall|k: int| 0 <= k < i ==> #[trigger] self.entropy_pool@[k] == old(self).entropy_pool@[k] ^ fresh@[k],
                forall|k: int| i <= k < 32 ==> #[trigger] self.entropy_pool@[k] == old(self).entropy_pool@[k],
            decreases 32 - i,
        {
            self.entropy_pool[i] = self.entropy_pool[i] ^ fresh[i];
            i = i + 1;
        }
    }

    /// Mixes 32 fresh bytes from the operating system's random source into
    /// the entropy pool by XOR. When the source fails, the pool is left as
    /// it was and the failure is returned.
    pub fn mix_entropy(&mut self) -> (r: Result<(), RcoError>)
        ensures
            final(self).identity == old(self).identity,
            final(self).omega_rve == old(self).omega_rve,
            r matches Err(e) ==> e == source_failure() && final(self).entropy_pool == old(self).entropy_pool,
            r is Ok ==> exists|fresh: Seq<u8>| fresh.len() == 32 && forall|i: int| 0 <= i < 32
                ==> #[trigger] final(self).entropy_pool@[i] == old(self).entropy_pool@[i] ^ fresh[i],
    {
        let mut fresh = [0u8; 32];
        match fill_hardware_entropy(&mut fresh) {
            Ok(()) => {},
            Err(e) => {
                return Err(e);
            },
        }
        self.mix_into_pool(&fresh);
        assert(fresh@.len() == 32);
        Ok(())
    }
}

} // verus!
