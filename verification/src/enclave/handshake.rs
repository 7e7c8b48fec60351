//! Genesis handshake: hardware-bound admission to the manifold.

use vstd::prelude::*;
use crate::error::HashDigest;
use crate::bytes::digest_equal;
use crate::enclave::ie::AttestationQuote;

verus! {

/// A node's hardware identity.
pub struct HardwareIdentity {
    pub bios_uuid: String,
    pub mrenclave: HashDigest,
}

/// Genesis handshake state.
pub struct GenesisHandshake {
    pub server_nonce: [u8; 32],
}

impl GenesisHandshake {
    /// A handshake with the fixed nonce `0x42` repeated.
    pub fn new() -> (h: Self)
        ensures
            h.server_nonce@ == Seq::new(32, |i: int| 0x42u8),
    {
        let h = GenesisHandshake { server_nonce: [0x42u8; 32] };
        assert(h.server_nonce@ =~= Seq::new(32, |i: int| 0x42u8));
        h
    }

    /// Admits a node with a BIOS UUID whose quote names its enclave binary.
    pub fn perform_handshake(&self, identity: &HardwareIdentity, quote: &AttestationQuote) -> (r: bool)
        ensures
            r == (identity.bios_uuid@.len() > 0 && quote.mrenclave@ == identity.mrenclave@),
    {
        if identity.bios_uuid.as_str().is_empty() {
            return false;
        }
        if !digest_equal(&quote.mrenclave, &identity.mrenclave) {
            return false;
        }
        true
    }
}

} // verus!
