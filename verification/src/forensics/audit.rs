//! The path of finality: a SHA-256 chain over the recorded history.

use vstd::prelude::*;
use crate::digest::{sha256, sha256_digest};

verus! {

/// The chained root after hashing `history` step by step, starting from an
/// all-zero root: each step hashes the previous root followed by the step.
pub open spec fn finality_root(history: Seq<[u8; 32]>) -> Seq<u8>
    decreases history.len(),
{
    if history.len() == 0 {
        Seq::new(32, |i: int| 0u8)
    } else {
        sha256_digest(finality_root(history.drop_last()) + history.last()@)
    }
}

/// Whether every byte of `s` is zero.
pub open spec fn all_zero(s: Seq<u8>) -> bool {
    forall|i: int| 0 <= i < s.len() ==> s[i] == 0
}

/// The audit controller.
pub struct AuditSentinel;

impl AuditSentinel {
    /// Verifies the path of finality: the SHA-256 chain over `history` must
    /// end in a root that is not all zero.
    pub fn verify_path_of_finality(history: &[[u8; 32]]) -> (r: bool)
        ensures
            r == !all_zero(finality_root(history@)),
    {
        let mut current_root = [0u8; 32];
        assert(current_root@ =~= finality_root(history@.subrange(0, 0)));
        let mut i: usize = 0;
        while i < history.len()
            invariant
                0 <= i <= history@.len(),
                current_root@ == finality_root(history@.subrange(0, i as int)),
            decreases history.len() - i,
        {
            let mut message: Vec<u8> = Vec::new();
            message.extend_from_slice(current_root.as_slice());
            message.extend_from_slice(history[i].as_slice());
            proof {
                let next = history@.subrange(0, i + 1);
                assert(next.drop_last() =~= history@.subrange(0, i as int));
                assert(message@ =~= current_root@ + history@[i as int]@);
            }
            current_root = sha256(message.as_slice());
            i = i + 1;
        }
        assert(history@.subrange(0, i as int) =~= history@);
        let mut j: usize = 0;
        while j < 32
            invariant
                0 <= j <= 32,
                current_root@ == finality_root(history@),
                forall|k: int| 0 <= k < j ==> current_root@[k] == 0,
            decreases 32 - j,
        {
            if current_root[j] != 0 {
                return true;
            }
            j = j + 1;
        }
        false
    }
}

} // verus!
