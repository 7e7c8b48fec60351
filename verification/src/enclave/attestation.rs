//! Attestation quote generation and verification.

use vstd::prelude::*;
use crate::error::HashDigest;
use crate::digest::{keccak256, keccak256_digest};
use crate::bytes::digest_equal;

verus! {

/// A simulated hardware quote.
#[derive(Clone, Copy, Debug)]
pub struct HardwareQuote {
    /// Hash of the enclave binary.
    pub mr_enclave: HashDigest,
    /// Hash of the signing authority.
    pub mr_signer: HashDigest,
    /// Data bound to the quote: challenge and enclave root.
    pub report_data: HashDigest,
    /// Simulated manufacturer signature.
    pub signature: [u8; 64],
}

/// The expected enclave binary hash: `0xEE` repeated.
pub open spec fn expected_mr_enclave() -> Seq<u8> {
    Seq::new(32, |i: int| 0xEEu8)
}

/// The expected signer hash: `0x55` repeated.
pub open spec fn expected_mr_signer() -> Seq<u8> {
    Seq::new(32, |i: int| 0x55u8)
}

/// Report data binding a challenge to an enclave root.
pub open spec fn report_data_of(challenge: Seq<u8>, omega_rve: Seq<u8>) -> Seq<u8> {
    keccak256_digest(challenge + omega_rve)
}

/// What `generate` produces for a challenge, an enclave root and a PUF key.
pub open spec fn quote_generated(q: HardwareQuote, challenge: Seq<u8>, omega_rve: Seq<u8>, puf_key: Seq<u8>) -> bool {
    &&& q.mr_enclave@ == expected_mr_enclave()
    &&& q.mr_signer@ == expected_mr_signer()
    &&& q.report_data@ == report_data_of(challenge, omega_rve)
    &&& q.signature@.subrange(0, 32) == keccak256_digest(q.report_data@ + puf_key)
    &&& q.signature@.subrange(32, 64) == Seq::new(32, |i: int| 0u8)
}

/// What `verify` accepts for a challenge and an expected enclave root.
pub open spec fn quote_accepted(q: HardwareQuote, challenge: Seq<u8>, omega_rve: Seq<u8>) -> bool {
    &&& q.mr_enclave@ == expected_mr_enclave()
    &&& q.mr_signer@ == expected_mr_signer()
    &&& q.report_data@ == report_data_of(challenge, omega_rve)
}

fn hash_pair(a: &[u8; 32], b: &[u8; 32]) -> (r: [u8; 32])
    ensures
        r@ == keccak256_digest(a@ + b@),
{
    let mut message: Vec<u8> = Vec::new();
    message.extend_from_slice(a.as_slice());
    message.extend_from_slice(b.as_slice());
    assert(message@ =~= a@ + b@);
    keccak256(message.as_slice())
}

impl HardwareQuote {
    /// Generates a quote binding the challenge to the enclave root, signed
    /// with a digest of the report data and the PUF key.
    pub fn generate(challenge: &[u8; 32], omega_rve: &HashDigest, puf_key: &[u8; 32]) -> (q: Self)
        ensures
            quote_generated(q, challenge@, omega_rve@, puf_key@),
    {
        let report_data = hash_pair(challenge, omega_rve);
        let sig_hash = hash_pair(&report_data, puf_key);
        let mut signature = [0u8; 64];
        let mut i: usize = 0;
        while i < 32
            invariant
                0 <= i <= 32,
                forall|k: int| 0 <= k < i ==> signature@[k] == sig_hash@[k],
                forall|k: int| 32 <= k < 64 ==> signature@[k] == 0,
            decreases 32 - i,
        {
            signature[i] = sig_hash[i];
            i = i + 1;
        }
        let q = HardwareQuote { mr_enclave: [0xEEu8; 32], mr_signer: [0x55u8; 32], report_data, signature };
        assert(q.mr_enclave@ =~= expected_mr_enclave());
        assert(q.mr_signer@ =~= expected_mr_signer());
        assert(q.signature@.subrange(0, 32) =~= sig_hash@);
        assert(q.signature@.subrange(32, 64) =~= Seq::new(32, |i: int| 0u8));
        q
    }

    /// Accepts a quote from the expected binary and signer whose report data
    /// binds this challenge to this enclave root. The signature is not checked.
    pub fn verify(&self, challenge: &[u8; 32], expected_omega_rve: &HashDigest) -> (r: bool)
        ensures
            r == quote_accepted(*self, challenge@, expected_omega_rve@),
    {
        let ee = [0xEEu8; 32];
        let ss = [0x55u8; 32];
        assert(ee@ =~= expected_mr_enclave());
        assert(ss@ =~= expected_mr_signer());
        if !digest_equal(&self.mr_enclave, &ee) || !digest_equal(&self.mr_signer, &ss) {
            return false;
        }
        let expected_report_data = hash_pair(challenge, expected_omega_rve);
        if !digest_equal(&self.report_data, &expected_report_data) {
            return false;
        }
        true
    }
}

/// Law: a quote generated for a challenge and an enclave root verifies
/// against that same challenge and root, whatever the PUF key.
pub proof fn law_generated_quote_verifies(q: HardwareQuote, challenge: Seq<u8>, omega_rve: Seq<u8>, puf_key: Seq<u8>)
    requires
        quote_generated(q, challenge, omega_rve, puf_key),
    ensures
        quote_accepted(q, challenge, omega_rve),
{
}

} // verus!
