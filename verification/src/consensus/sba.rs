//! Simplicial Byzantine agreement: votes on topological roots and the
//! supermajority check.

use vstd::prelude::*;
use crate::error::HashDigest;
use crate::bytes::digest_equal;

verus! {

/// Result of an agreement round.
pub struct SBAResult {
    /// Agreed Betti numbers.
    pub betti_numbers: Vec<usize>,
    /// Finality certificate.
    pub certificate: Vec<u8>,
}

/// Votes recorded for `root` in a list of (root, count) pairs.
pub open spec fn tally_of(votes: Seq<(HashDigest, usize)>, root: Seq<u8>) -> nat
    decreases votes.len(),
{
    if votes.len() == 0 {
        0
    } else {
        tally_of(votes.drop_last(), root) + if votes.last().0@ == root { votes.last().1 as nat } else { 0 }
    }
}

/// No root appears twice.
pub open spec fn roots_distinct(votes: Seq<(HashDigest, usize)>) -> bool {
    forall|i: int, j: int| 0 <= i < j < votes.len() ==> votes[i].0@ != votes[j].0@
}

/// The supermajority threshold: a root needs more than two thirds of `n` votes.
pub open spec fn supermajority_threshold(n: int) -> int {
    (2 * n) / 3
}

proof fn lemma_tally_entry(votes: Seq<(HashDigest, usize)>, root: Seq<u8>)
    requires
        roots_distinct(votes),
    ensures
        forall|i: int| 0 <= i < votes.len() && votes[i].0@ == root ==> tally_of(votes, root) == votes[i].1,
        (forall|i: int| 0 <= i < votes.len() ==> votes[i].0@ != root) ==> tally_of(votes, root) == 0,
    decreases votes.len(),
{
    if votes.len() > 0 {
        let init = votes.drop_last();
        assert(roots_distinct(init));
        lemma_tally_entry(init, root);
        assert forall|i: int| 0 <= i < votes.len() && votes[i].0@ == root implies tally_of(votes, root) == votes[i].1 by {
            if i < votes.len() - 1 {
                assert(init[i] == votes[i]);
                assert(votes.last().0@ != root);
            }
        }
        assert((forall|i: int| 0 <= i < votes.len() ==> votes[i].0@ != root) ==> tally_of(votes, root) == 0) by {
            if forall|i: int| 0 <= i < votes.len() ==> votes[i].0@ != root {
                assert forall|i: int| 0 <= i < init.len() implies init[i].0@ != root by {
                    assert(init[i] == votes[i]);
                }
                assert(votes[votes.len() - 1].0@ != root);
            }
        }
    }
}

proof fn lemma_tally_bump(votes: Seq<(HashDigest, usize)>, i: int, root: Seq<u8>)
    requires
        0 <= i < votes.len(),
        votes[i].1 < usize::MAX,
    ensures
        tally_of(votes.update(i, (votes[i].0, (votes[i].1 + 1) as usize)), root)
            == tally_of(votes, root) + if votes[i].0@ == root { 1int } else { 0int },
    decreases votes.len(),
{
    let new = votes.update(i, (votes[i].0, (votes[i].1 + 1) as usize));
    if i < votes.len() - 1 {
        lemma_tally_bump(votes.drop_last(), i, root);
        assert(new.drop_last() =~= votes.drop_last().update(i, (votes[i].0, (votes[i].1 + 1) as usize)));
    } else {
        assert(new.drop_last() =~= votes.drop_last());
    }
}

/// The agreement protocol's state.
pub struct SBAProtocol {
    num_nodes: usize,
    votes: Vec<(HashDigest, usize)>,
}

impl SBAProtocol {
    #[verifier::type_invariant]
    spec fn distinct_roots(&self) -> bool {
        roots_distinct(self.votes@)
    }

    /// Size of the quorum.
    pub closed spec fn nodes(&self) -> nat {
        self.num_nodes as nat
    }

    /// Votes cast for a root.
    pub closed spec fn tally(&self, root: Seq<u8>) -> nat {
        tally_of(self.votes@, root)
    }

    /// A protocol for `num_nodes` nodes with no votes.
    pub fn new(num_nodes: usize) -> (p: Self)
        ensures
            p.nodes() == num_nodes,
            forall|root: Seq<u8>| p.tally(root) == 0,
    {
        SBAProtocol { num_nodes, votes: Vec::new() }
    }

    /// Casts one vote for `root`.
    pub fn cast_vote(&mut self, node_id: u64, root: HashDigest)
        requires
            old(self).tally(root@) < usize::MAX,
        ensures
            final(self).nodes() == old(self).nodes(),
            forall|x: Seq<u8>| #[trigger] final(self).tally(x) == old(self).tally(x) + if x == root@ { 1int } else { 0int },
    {
        proof {
            use_type_invariant(&*self);
        }
        let mut votes: Vec<(HashDigest, usize)> = Vec::new();
        std::mem::swap(&mut votes, &mut self.votes);
        let ghost before = votes@;
        let mut i: usize = 0;
        while i < votes.len()
            invariant
                0 <= i <= votes@.len(),
                votes@ == before,
                before == old(self).votes@,
                self.num_nodes == old(self).num_nodes,
                roots_distinct(before),
                tally_of(before, root@) < usize::MAX,
                forall|k: int| 0 <= k < i ==> before[k].0@ != root@,
            decreases votes.len() - i,
        {
            if digest_equal(&votes[i].0, &root) {
                proof {
                    lemma_tally_entry(before, root@);
                }
                let entry = votes[i];
                votes.set(i, (entry.0, entry.1 + 1));
                proof {
                    assert(votes@ =~= before.update(i as int, (before[i as int].0, (before[i as int].1 + 1) as usize)));
                    assert forall|x: Seq<u8>| #[trigger] tally_of(votes@, x) == tally_of(before, x) + if x == root@ { 1int } else { 0int } by {
                        lemma_tally_bump(before, i as int, x);
                    }
                    assert forall|a: int, b: int| 0 <= a < b < votes@.len() implies votes@[a].0@ != votes@[b].0@ by {
                        assert(before[a].0@ != before[b].0@);
                    }
                }
                self.votes = votes;
                return;
            }
            i = i + 1;
        }
        votes.push((root, 1));
        proof {
            assert(votes@.drop_last() =~= before);
            assert forall|x: Seq<u8>| #[trigger] tally_of(votes@, x) == tally_of(before, x) + if x == root@ { 1int } else { 0int } by {
            }
            assert forall|a: int, b: int| 0 <= a < b < votes@.len() implies votes@[a].0@ != votes@[b].0@ by {
                if b < before.len() {
                    assert(before[a].0@ != before[b].0@);
                } else {
                    assert(before[a].0@ != root@);
                }
            }
        }
        self.votes = votes;
    }

    /// A root voted for by more than two thirds of the nodes, if any.
    pub fn check_consensus(&self) -> (r: Option<HashDigest>)
        requires
            2 * self.nodes() <= usize::MAX,
        ensures
            r matches Some(root) ==> self.tally(root@) > supermajority_threshold(self.nodes() as int),
            r is None ==> forall|root: Seq<u8>| self.tally(root) <= supermajority_threshold(self.nodes() as int),
    {
        proof {
            use_type_invariant(self);
        }
        let threshold = (2 * self.num_nodes) / 3;
        let mut i: usize = 0;
        while i < self.votes.len()
            invariant
                0 <= i <= self.votes@.len(),
                roots_distinct(self.votes@),
                threshold == supermajority_threshold(self.num_nodes as int),
                forall|k: int| 0 <= k < i ==> self.votes@[k].1 <= threshold,
            decreases self.votes.len() - i,
        {
            if self.votes[i].1 > threshold {
                proof {
                    lemma_tally_entry(self.votes@, self.votes@[i as int].0@);
                }
                return Some(self.votes[i].0);
            }
            i = i + 1;
        }
        proof {
            assert forall|root: Seq<u8>| self.tally(root) <= supermajority_threshold(self.nodes() as int) by {
                lemma_tally_entry(self.votes@, root);
            }
        }
        None
    }

    /// The finality result for a root: Betti numbers `[1, 1]` and the root as
    /// certificate.
    pub fn generate_result(&self, root: HashDigest) -> (r: SBAResult)
        ensures
            r.betti_numbers@ == seq![1usize, 1usize],
            r.certificate@ == root@,
    {
        let certificate = vstd::slice::slice_to_vec(root.as_slice());
        SBAResult { betti_numbers: vec![1, 1], certificate }
    }
}

} // verus!
