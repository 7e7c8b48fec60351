//! Decentralized Jacobian oracle: sovereign root anchors and the
//! homological signature of a manifold. The oracle's truth gradient and
//! its stability checks are floating-point and live outside this library.

use vstd::prelude::*;
use std::collections::HashMap;
use crate::error::HashDigest;
use crate::bytes::digest_equal;
use vstd::std_specs::iter::IteratorSpec;

verus! {

broadcast use vstd::std_specs::hash::group_hash_axioms;

/// Homological signature: Betti numbers characterizing a manifold.
pub struct HomologicalSignature {
    pub betti_numbers: Vec<u64>,
}

/// The clusters whose anchor equals `root`.
pub open spec fn matching_clusters(anchors: Map<u64, HashDigest>, root: Seq<u8>) -> Set<u64> {
    anchors.dom().filter(|k: u64| anchors[k]@ == root)
}

/// Sovereign root consistency: with no anchors the root is accepted;
/// otherwise at least two thirds of the clusters must anchor it.
pub fn verify_root_consistency(root_anchors: &HashMap<u64, HashDigest>, local_root: &HashDigest) -> (r: bool)
    ensures
        r == (root_anchors@.len() == 0
            || 3 * matching_clusters(root_anchors@, local_root@).len() >= 2 * root_anchors@.len()),
{
    if root_anchors.len() == 0 {
        return true;
    }
    let ghost m = root_anchors@;
    let ghost p = |k: u64| m[k]@ == local_root@;
    let mut match_count: usize = 0;
    let ghost mut seen: Set<u64> = Set::empty();
    let total = root_anchors.len();
    let iter = root_anchors.iter();
    let ghost pairs = iter.remaining();
    proof {
        assert(seen.filter(p) =~= Set::empty());
        assert(seen =~= Set::new(|k: u64| exists|j: int| 0 <= j < 0 && *pairs[j].0 == k));
    }
    for entry in it: iter
        invariant
            m == root_anchors@,
            p == (|k: u64| m[k]@ == local_root@),
            it.seq() == pairs,
            pairs.no_duplicates(),
            pairs.len() == m.dom().len(),
            pairs.len() == total,
            forall|i: int| 0 <= i < pairs.len() ==> m.contains_key(*#[trigger] pairs[i].0) && m[*pairs[i].0] == *pairs[i].1,
            forall|k: u64| #[trigger] m.contains_key(k) ==> pairs.contains((&k, &m[k])),
            seen == Set::new(|k: u64| exists|j: int| 0 <= j < it.index() && *pairs[j].0 == k),
            seen.finite(),
            match_count == seen.filter(p).len(),
            match_count <= it.index(),
    {
        let (k, anchor) = entry;
        let ghost idx = it.index();
        let ghost key = *k;
        proof {
            assert(entry == pairs[idx]);
            assert(!seen.contains(key)) by {
                if seen.contains(key) {
                    let j = choose|j: int| 0 <= j < idx && *pairs[j].0 == key;
                    assert(m[*pairs[j].0] == *pairs[j].1);
                    assert(pairs[j] == pairs[idx]);
                }
            }
            assert(!seen.filter(p).contains(key));
            if p(key) {
                assert(seen.insert(key).filter(p) =~= seen.filter(p).insert(key));
            } else {
                assert(seen.insert(key).filter(p) =~= seen.filter(p));
            }
            seen = seen.insert(key);
            assert(seen =~= Set::new(|x: u64| exists|j: int| 0 <= j < idx + 1 && *pairs[j].0 == x)) by {
                assert forall|x: u64| #[trigger] seen.contains(x) implies exists|j: int| 0 <= j < idx + 1 && *pairs[j].0 == x by {
                    if x == key {
                        assert(*pairs[idx].0 == x);
                    }
                }
            }
        }
        if digest_equal(anchor, local_root) {
            match_count = match_count + 1;
        }
    }
    proof {
        assert(seen =~= m.dom()) by {
            assert forall|x: u64| #[trigger] m.contains_key(x) implies seen.contains(x) by {
                assert(pairs.contains((&x, &m[x])));
                let j = choose|j: int| 0 <= j < pairs.len() && pairs[j] == (&x, &m[x]);
                assert(*pairs[j].0 == x);
            }
        }
        assert(matching_clusters(m, local_root@) =~= seen.filter(p));
    }
    (match_count as u128) * 3 >= (total as u128) * 2
}

/// Records the root anchor of a cluster, replacing any earlier one.
pub fn update_root_anchor(root_anchors: &mut HashMap<u64, HashDigest>, cluster_id: u64, root_hash: HashDigest)
    ensures
        final(root_anchors)@ == old(root_anchors)@.insert(cluster_id, root_hash),
{
    root_anchors.insert(cluster_id, root_hash);
}

} // verus!
