//! Export and reassembly of the autonomous identity root for migration.

use vstd::prelude::*;
use crate::digest::{sha3_256, sha3_256_digest};
use crate::enclave::closure::SelfAttestingRoot;

verus! {

/// An encrypted identity package.
#[derive(Debug, Clone)]
pub struct SovereignIdentityPackage {
    /// The shuffled root payload.
    pub payload: Vec<u8>,
    /// Public identifier of the identity.
    pub identity_id: [u8; 32],
    /// Quorum threshold required for reassembly.
    pub threshold: u32,
}

/// Controller for identity export.
pub struct IdentityExportController {
    /// The current self-attesting root.
    pub root: SelfAttestingRoot,
}

/// The shuffling mask of payload byte `i` under a threshold: the threshold's
/// low byte plus the index's low byte, modulo 256.
pub open spec fn shuffle_mask(threshold: u32, i: int) -> u8 {
    (((threshold as u8) as int + (i as u8) as int) % 256) as u8
}

/// Root hash and signature, concatenated.
pub open spec fn root_payload(root: SelfAttestingRoot) -> Seq<u8> {
    root.root_hash@ + root.signature@
}

fn mask_byte(threshold: u32, i: usize) -> (m: u8)
    ensures
        m == shuffle_mask(threshold, i as int),
{
    (threshold as u8).wrapping_add(i as u8)
}

proof fn lemma_xor_twice(b: u8, m: u8)
    ensures
        (b ^ m) ^ m == b,
{
    assert((b ^ m) ^ m == b) by (bit_vector);
}

impl IdentityExportController {
    pub fn new(root: SelfAttestingRoot) -> (c: Self)
        ensures
            c.root == root,
    {
        IdentityExportController { root }
    }

    /// Exports the root: its identifier is the SHA3-256 of root hash and
    /// signature, and its payload is those bytes XOR the shuffling mask.
    pub fn export_sovereign_identity(&self, threshold: u32) -> (p: SovereignIdentityPackage)
        ensures
            p.threshold == threshold,
            p.identity_id@ == sha3_256_digest(root_payload(self.root)),
            p.payload@.len() == 96,
            forall|i: int| 0 <= i < 96 ==> #[trigger] p.payload@[i] == root_payload(self.root)[i] ^ shuffle_mask(threshold, i),
    {
        let mut payload: Vec<u8> = Vec::new();
        payload.extend_from_slice(self.root.root_hash.as_slice());
        payload.extend_from_slice(self.root.signature.as_slice());
        assert(payload@ =~= root_payload(self.root));
        let identity_id = sha3_256(payload.as_slice());
        let ghost plain = payload@;
        let mut i: usize = 0;
        while i < payload.len()
            invariant
                0 <= i <= payload@.len(),
                payload@.len() == 96,
                plain.len() == 96,
                forall|k: int| 0 <= k < i ==> #[trigger] payload@[k] == plain[k] ^ shuffle_mask(threshold, k),
                forall|k: int| i <= k < 96 ==> #[trigger] payload@[k] == plain[k],
            decreases payload.len() - i,
        {
            let m = mask_byte(threshold, i);
            let b = payload[i] ^ m;
            payload.set(i, b);
            i = i + 1;
        }
        SovereignIdentityPackage { payload, identity_id, threshold }
    }

    /// Reassembles a root from a package: the payload is unshuffled, its first
    /// 32 bytes are the root hash and the next 64 the signature; the
    /// timestamp is reset to 0. A payload shorter than 96 bytes cannot be
    /// reassembled.
    pub fn reassemble_identity(package: &SovereignIdentityPackage) -> (root: SelfAttestingRoot)
        requires
            package.payload@.len() >= 96,
        ensures
            root.timestamp == 0,
            forall|i: int| 0 <= i < 32 ==> #[trigger] root.root_hash@[i] == package.payload@[i] ^ shuffle_mask(package.threshold, i),
            forall|i: int| 0 <= i < 64 ==> #[trigger] root.signature@[i] == package.payload@[32 + i] ^ shuffle_mask(package.threshold, 32 + i),
    {
        let mut root_hash = [0u8; 32];
        let mut signature = [0u8; 64];
        let mut i: usize = 0;
        while i < 32
            invariant
                0 <= i <= 32,
                package.payload@.len() >= 96,
                forall|k: int| 0 <= k < i ==> #[trigger] root_hash@[k] == package.payload@[k] ^ shuffle_mask(package.threshold, k),
            decreases 32 - i,
        {
            root_hash[i] = package.payload[i] ^ mask_byte(package.threshold, i);
            i = i + 1;
        }
        let mut j: usize = 0;
        while j < 64
            invariant
                0 <= j <= 64,
                package.payload@.len() >= 96,
                forall|k: int| 0 <= k < 32 ==> #[trigger] root_hash@[k] == package.payload@[k] ^ shuffle_mask(package.threshold, k),
                forall|k: int| 0 <= k < j ==> #[trigger] signature@[k] == package.payload@[32 + k] ^ shuffle_mask(package.threshold, 32 + k),
            decreases 64 - j,
        {
            signature[j] = package.payload[32 + j] ^ mask_byte(package.threshold, 32 + j);
            j = j + 1;
        }
        SelfAttestingRoot { root_hash, signature, timestamp: 0 }
    }
}

/// Law: reassembling an exported package gives back the root hash and the
/// signature, with the timestamp reset.
pub proof fn law_export_reassemble(root: SelfAttestingRoot, package: SovereignIdentityPackage, back: SelfAttestingRoot)
    requires
        package.payload@.len() == 96,
        forall|i: int| 0 <= i < 96 ==> #[trigger] package.payload@[i] == root_payload(root)[i] ^ shuffle_mask(package.threshold, i),
        back.timestamp == 0,
        forall|i: int| 0 <= i < 32 ==> #[trigger] back.root_hash@[i] == package.payload@[i] ^ shuffle_mask(package.threshold, i),
        forall|i: int| 0 <= i < 64 ==> #[trigger] back.signature@[i] == package.payload@[32 + i] ^ shuffle_mask(package.threshold, 32 + i),
    ensures
        back.root_hash == root.root_hash,
        back.signature == root.signature,
        back.timestamp == 0,
{
    assert forall|i: int| 0 <= i < 32 implies back.root_hash@[i] == root.root_hash@[i] by {
        lemma_xor_twice(root_payload(root)[i], shuffle_mask(package.threshold, i));
        assert(package.payload@[i] == root_payload(root)[i] ^ shuffle_mask(package.threshold, i));
    }
    assert forall|i: int| 0 <= i < 64 implies back.signature@[i] == root.signature@[i] by {
        lemma_xor_twice(root_payload(root)[32 + i], shuffle_mask(package.threshold, 32 + i));
        assert(package.payload@[32 + i] == root_payload(root)[32 + i] ^ shuffle_mask(package.threshold, 32 + i));
    }
    assert(back.root_hash@ =~= root.root_hash@);
    assert(back.signature@ =~= root.signature@);
}

} // verus!
