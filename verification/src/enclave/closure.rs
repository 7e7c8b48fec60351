//! Total sovereign closure: a self-contained root of trust derived from the
//! invariance of the manifold root.

use vstd::prelude::*;
use crate::digest::{sha3_256, sha3_256_digest};
use crate::bytes::{u64_be, u64_to_be_bytes, digest_equal};

verus! {

/// A self-attesting root: a root hash with its signature and the time it was
/// produced.
#[derive(Debug, Clone, Copy)]
pub struct SelfAttestingRoot {
    pub root_hash: [u8; 32],
    pub signature: [u8; 64],
    pub timestamp: u64,
}

/// Domain separator of the self-attesting root.
pub open spec fn closure_domain() -> Seq<u8> {
    seq![82u8, 67, 79, 45, 83, 79, 86, 69, 82, 69, 73, 71, 78, 45, 67, 76, 79, 83, 85, 82, 69, 45, 118, 52]
}

/// Big-endian bytes of each value, concatenated in order.
pub open spec fn be_concat(xs: Seq<u64>) -> Seq<u8>
    decreases xs.len(),
{
    if xs.len() == 0 {
        Seq::empty()
    } else {
        be_concat(xs.drop_last()) + u64_be(xs.last())
    }
}

/// The message hashed into a self-attesting root: the domain separator, then
/// every state value's bytes.
pub open spec fn closure_message(state_bits: Seq<u64>) -> Seq<u8> {
    closure_domain() + be_concat(state_bits)
}

/// Sovereign closure kernel.
pub struct SovereignClosure {
    pub closure_achieved: bool,
    pub recursive_root: [u8; 32],
}

impl SovereignClosure {
    /// A kernel without closure and with an all-zero root.
    pub fn new() -> (s: Self)
        ensures
            !s.closure_achieved,
            s.recursive_root@ == Seq::new(32, |i: int| 0u8),
    {
        let s = SovereignClosure { closure_achieved: false, recursive_root: [0u8; 32] };
        assert(s.recursive_root@ =~= Seq::new(32, |i: int| 0u8));
        s
    }

    /// Derives the self-attesting root from the manifold state, given as the
    /// IEEE-754 bit patterns of its values (`f64::to_bits`), stores it and
    /// returns it.
    pub fn generate_self_attesting_root(&mut self, manifold_state_bits: &[u64]) -> (r: [u8; 32])
        ensures
            r@ == sha3_256_digest(closure_message(manifold_state_bits@)),
            final(self).recursive_root == r,
            final(self).closure_achieved == old(self).closure_achieved,
    {
        let mut message: Vec<u8> = vec![82, 67, 79, 45, 83, 79, 86, 69, 82, 69, 73, 71, 78, 45, 67, 76, 79, 83, 85, 82, 69, 45, 118, 52];
        assert(message@ =~= closure_domain() + be_concat(manifold_state_bits@.subrange(0, 0)));
        let mut i: usize = 0;
        while i < manifold_state_bits.len()
            invariant
                0 <= i <= manifold_state_bits@.len(),
                message@ == closure_domain() + be_concat(manifold_state_bits@.subrange(0, i as int)),
            decreases manifold_state_bits.len() - i,
        {
            let bytes = u64_to_be_bytes(manifold_state_bits[i]);
            assert(manifold_state_bits@.subrange(0, i + 1).drop_last() =~= manifold_state_bits@.subrange(0, i as int));
            message.extend_from_slice(bytes.as_slice());
            assert(message@ =~= closure_domain() + be_concat(manifold_state_bits@.subrange(0, i + 1)));
            i = i + 1;
        }
        assert(manifold_state_bits@.subrange(0, i as int) =~= manifold_state_bits@);
        let root = sha3_256(message.as_slice());
        self.recursive_root = root;
        root
    }

    /// Closure is achieved when the new root equals the stored one; the
    /// outcome is recorded and returned.
    pub fn audit_invariance(&mut self, new_root: &[u8; 32]) -> (r: bool)
        ensures
            r == (new_root@ == old(self).recursive_root@),
            final(self).closure_achieved == r,
            final(self).recursive_root == old(self).recursive_root,
    {
        let r = digest_equal(new_root, &self.recursive_root);
        self.closure_achieved = r;
        r
    }

    /// Sovereignty level: 10 with closure, 5 without.
    pub fn get_sovereignty_level(&self) -> (level: u8)
        ensures
            level == if self.closure_achieved { 10u8 } else { 5u8 },
    {
        if self.closure_achieved {
            10
        } else {
            5
        }
    }
}

} // verus!
