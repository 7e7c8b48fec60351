//! The multi-source whitening gate: the operating system's random bytes,
//! jitter entropy and the Keccak-256 digest of the auxiliary input are
//! xored, and the result is conditioned through Keccak-256:
//! `E = Keccak-256(HRNG xor E_jitter xor H(aux))`.

use vstd::prelude::*;
use crate::error::RcoError;
use crate::digest::{keccak256, keccak256_digest};
use crate::entropy::hwrng::{generate_hwrng_32, source_failure};
use crate::entropy::jitter::{collect_jitter_entropy, jitter_transcript, JITTER_ITERATIONS};

verus! {

/// Bytewise xor of three 32-byte strings.
pub open spec fn xor3(a: Seq<u8>, b: Seq<u8>, c: Seq<u8>) -> Seq<u8> {
    Seq::new(32, |i: int| a[i] ^ b[i] ^ c[i])
}

/// The genesis entropy produced from given source outputs:
/// `Keccak-256(hrng xor jitter xor Keccak-256(aux))`.
pub open spec fn whitened(hrng: Seq<u8>, jitter: Seq<u8>, aux: Seq<u8>) -> Seq<u8> {
    keccak256_digest(xor3(hrng, jitter, keccak256_digest(aux)))
}

/// Combines the outputs of the two entropy sources with the auxiliary
/// input.
pub fn whiten_sources(hrng: &[u8; 32], jitter: &[u8; 32], auxiliary_entropy: &[u8]) -> (r: [u8; 32])
    ensures
        r@ == whitened(hrng@, jitter@, auxiliary_entropy@),
{
    let aux_hash: [u8; 32] = keccak256(auxiliary_entropy);
    let mut xored = [0u8; 32];
    let mut i: usize = 0;
    while i < 32
        invariant
            0 <= i <= 32,
            aux_hash@ == keccak256_digest(auxiliary_entropy@),
            forall|k: int| 0 <= k < i ==> xored@[k] == hrng@[k] ^ jitter@[k] ^ aux_hash@[k],
        decreases 32 - i,
    {
        xored[i] = hrng[i] ^ jitter[i] ^ aux_hash[i];
        i = i + 1;
    }
    assert(xored@ =~= xor3(hrng@, jitter@, aux_hash@));
    keccak256(xored.as_slice())
}

/// Generates the 32-byte genesis entropy vector from fresh operating-system
/// randomness, fresh jitter entropy and the auxiliary input. Fails only
/// when the operating system's random source fails.
pub fn generate_genesis_entropy(auxiliary_entropy: &[u8]) -> (r: Result<[u8; 32], RcoError>)
    ensures
        r matches Err(e) ==> e == source_failure(),
        r matches Ok(v) ==> exists|hrng: Seq<u8>, deltas: Seq<u64>|
            hrng.len() == 32 && deltas.len() == JITTER_ITERATIONS
            && v@ == whitened(hrng, keccak256_digest(jitter_transcript(deltas)), auxiliary_entropy@),
{
    let hrng = match generate_hwrng_32() {
        Ok(h) => h,
        Err(e) => return Err(e),
    };
    let jitter = collect_jitter_entropy();
    let out = whiten_sources(&hrng, &jitter, auxiliary_entropy);
    proof {
        let deltas = choose|deltas: Seq<u64>| deltas.len() == JITTER_ITERATIONS
            && jitter@ == keccak256_digest(jitter_transcript(deltas));
        assert(hrng@.len() == 32);
    }
    Ok(out)
}

/// Deterministic entropy from a seed, for reproducible tests: the
/// Keccak-256 digest of the seed.
pub fn generate_deterministic_entropy(seed: &[u8]) -> (r: [u8; 32])
    ensures
        r@ == keccak256_digest(seed@),
{
    keccak256(seed)
}

} // verus!
