//! Decentralized governance quorum: truth reconstruction from fragments and
//! recursive proof-of-trust checks.

use vstd::prelude::*;
use crate::digest::{sha3_256, sha3_256_digest};
use crate::bytes::{digest_equal, concat_digests, concat_digest_list};

verus! {

/// A secret-sharing fragment.
pub struct SecretFragment {
    pub index: u8,
    pub data: [u8; 32],
}

/// Byte `k` of the XOR of the data of the first `n` fragments.
pub open spec fn xor_prefix(fs: Seq<SecretFragment>, n: int, k: int) -> u8
    decreases n,
{
    if n <= 0 {
        0
    } else {
        xor_prefix(fs, n - 1, k) ^ fs[n - 1].data@[k]
    }
}

/// Decentralized governance quorum.
pub struct DecentralizedGovernanceQuorum {
    pub quorum_threshold: usize,
    pub total_nodes: usize,
}

impl DecentralizedGovernanceQuorum {
    pub fn new(threshold: usize, total: usize) -> (q: Self)
        ensures
            q.quorum_threshold == threshold,
            q.total_nodes == total,
    {
        DecentralizedGovernanceQuorum { quorum_threshold: threshold, total_nodes: total }
    }

    /// Reconstructs the truth as the XOR of all fragments, provided at least
    /// the threshold number of fragments is given.
    pub fn reconstruct_truth(&self, fragments: Vec<SecretFragment>) -> (r: Option<[u8; 32]>)
        ensures
            fragments@.len() < self.quorum_threshold ==> r is None,
            fragments@.len() >= self.quorum_threshold ==> (r matches Some(t) && forall|k: int|
                0 <= k < 32 ==> t@[k] == xor_prefix(fragments@, fragments@.len() as int, k)),
    {
        if fragments.len() < self.quorum_threshold {
            return None;
        }
        let mut truth = [0u8; 32];
        let mut n: usize = 0;
        while n < fragments.len()
            invariant
                0 <= n <= fragments@.len(),
                forall|k: int| 0 <= k < 32 ==> truth@[k] == xor_prefix(fragments@, n as int, k),
            decreases fragments.len() - n,
        {
            let mut i: usize = 0;
            while i < 32
                invariant
                    0 <= i <= 32,
                    n < fragments@.len(),
                    forall|k: int| 0 <= k < i ==> truth@[k] == xor_prefix(fragments@, n + 1, k),
                    forall|k: int| i <= k < 32 ==> truth@[k] == xor_prefix(fragments@, n as int, k),
                decreases 32 - i,
            {
                truth[i] = truth[i] ^ fragments[n].data[i];
                i = i + 1;
            }
            n = n + 1;
        }
        Some(truth)
    }

    /// Recursive proof-of-trust check: the proof's SHA3-256 digest must be
    /// the state hash.
    pub fn verify_rpot(&self, state_hash: &[u8; 32], proof: &[u8]) -> (r: bool)
        ensures
            r == (sha3_256_digest(proof@) == state_hash@),
    {
        let digest = sha3_256(proof);
        digest_equal(&digest, state_hash)
    }

    /// Aggregates proofs into one hyper-root: the SHA3-256 digest of all
    /// proofs concatenated in order.
    pub fn aggregate_hyper_proofs(&self, proofs: Vec<[u8; 32]>) -> (r: [u8; 32])
        ensures
            r@ == sha3_256_digest(concat_digests(proofs@)),
    {
        let message = concat_digest_list(proofs.as_slice());
        sha3_256(message.as_slice())
    }

    /// Reverts the current root to the safe root.
    pub fn causal_reset(&self, current_root: &mut [u8; 32], safe_root: &[u8; 32])
        ensures
            *final(current_root) == *safe_root,
    {
        *current_root = *safe_root;
    }
}

proof fn lemma_xor_prefix_extend(fs: Seq<SecretFragment>, g: SecretFragment, n: int, k: int)
    requires
        0 <= n <= fs.len(),
    ensures
        xor_prefix(fs.push(g), n, k) == xor_prefix(fs, n, k),
    decreases n,
{
    if n > 0 {
        lemma_xor_prefix_extend(fs, g, n - 1, k);
        assert(fs.push(g)[n - 1] == fs[n - 1]);
    }
}

/// Law: the reconstructed truth is the bytewise XOR of the fragments' data.
/// Byte `k` of the truth of one fragment is that fragment's byte `k`; adding
/// a fragment XORs its byte `k` into byte `k`; a fragment given twice
/// cancels; and no fragments give zero.
pub proof fn law_truth_is_bytewise_xor(fs: Seq<SecretFragment>, g: SecretFragment)
    ensures
        forall|k: int| 0 <= k < 32 ==> #[trigger] xor_prefix(Seq::<SecretFragment>::empty().push(g), 1, k) == g.data@[k],
        forall|k: int| 0 <= k < 32 ==> #[trigger] xor_prefix(fs.push(g), (fs.len() + 1) as int, k)
            == xor_prefix(fs, fs.len() as int, k) ^ g.data@[k],
        forall|k: int| 0 <= k < 32 ==> #[trigger] xor_prefix(Seq::<SecretFragment>::empty().push(g).push(g), 2, k) == 0,
        forall|k: int| 0 <= k < 32 ==> #[trigger] xor_prefix(Seq::<SecretFragment>::empty(), 0, k) == 0,
{
    assert forall|k: int| 0 <= k < 32 implies #[trigger] xor_prefix(Seq::<SecretFragment>::empty().push(g), 1, k) == g.data@[k] by {
        let one = Seq::<SecretFragment>::empty().push(g);
        let x = g.data@[k];
        assert(one[0] == g);
        assert(xor_prefix(one, 0, k) == 0);
        assert(xor_prefix(one, 1, k) == xor_prefix(one, 0, k) ^ one[0].data@[k]);
        assert(0u8 ^ x == x) by (bit_vector);
    }
    assert forall|k: int| 0 <= k < 32 implies #[trigger] xor_prefix(fs.push(g), (fs.len() + 1) as int, k)
        == xor_prefix(fs, fs.len() as int, k) ^ g.data@[k] by {
        lemma_xor_prefix_extend(fs, g, fs.len() as int, k);
        assert(fs.push(g)[fs.len() as int] == g);
    }
    assert forall|k: int| 0 <= k < 32 implies #[trigger] xor_prefix(Seq::<SecretFragment>::empty().push(g).push(g), 2, k) == 0 by {
        let x = g.data@[k];
        let two = Seq::<SecretFragment>::empty().push(g).push(g);
        assert(two[0] == g && two[1] == g);
        assert(xor_prefix(two, 0, k) == 0);
        assert(xor_prefix(two, 1, k) == xor_prefix(two, 0, k) ^ two[0].data@[k]);
        assert(xor_prefix(two, 2, k) == xor_prefix(two, 1, k) ^ two[1].data@[k]);
        assert((0u8 ^ x) ^ x == 0) by (bit_vector);
    }
}

} // verus!
