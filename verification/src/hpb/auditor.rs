//! Sparse auditing of the forest: a pseudo-random stream seeded by the
//! latest root hash picks earlier batches, whose root hashes are
//! recomputed.

use vstd::prelude::*;
use rand_chacha::ChaCha8Rng;
use crate::hpb::smf::{SmfStore, SmfNode, verify_node, node_consistent, store_well_formed};

verus! {

/// Names the outcome of one `Rng::gen_range(0..bound)` draw from a ChaCha8
/// generator keyed by `seed` (stream 0) and positioned `word_pos` 32-bit
/// words into its stream: the value drawn and the stream position after it.
/// A seeded ChaCha stream is a function of the key and the position alone.
pub uninterp spec fn chacha8_range_draw(seed: Seq<u8>, word_pos: u128, bound: u64) -> (u64, u128);

/// One draw from the ChaCha8 stream keyed by `seed` at position `word_pos`:
/// builds the generator (`SeedableRng::from_seed` for `ChaCha8Rng`), moves
/// it to the position (`ChaCha8Rng::set_word_pos`), draws with
/// `Rng::gen_range(0..bound)` and reads the new position
/// (`ChaCha8Rng::get_word_pos`). Claimed: the outcome is the named draw, and
/// the value lies in the range, as `gen_range` documents; `bound > 0` keeps
/// out the empty range, on which `gen_range` panics.
#[verifier::external_body]
fn chacha8_draw_at(seed: &[u8; 32], word_pos: u128, bound: u64) -> (r: (u64, u128))
    requires
        bound > 0,
    ensures
        r == chacha8_range_draw(seed@, word_pos, bound),
        r.0 < bound,
{
    let mut rng = <ChaCha8Rng as rand::SeedableRng>::from_seed(*seed);
    rng.set_word_pos(word_pos);
    let value = rand::Rng::gen_range(&mut rng, 0..bound);
    (value, rng.get_word_pos())
}

/// The first `k` draws below `bound` of the ChaCha8 stream keyed by `seed`,
/// from its start, and the stream position after them.
pub open spec fn chacha8_run(seed: Seq<u8>, bound: u64, k: nat) -> (Seq<u64>, u128)
    decreases k,
{
    if k == 0 {
        (Seq::empty(), 0u128)
    } else {
        let prev = chacha8_run(seed, bound, (k - 1) as nat);
        let d = chacha8_range_draw(seed, prev.1, bound);
        (prev.0.push(d.0), d.1)
    }
}

/// The first `k` draws below `bound` of the ChaCha8 stream keyed by `seed`.
pub open spec fn chacha8_samples(seed: Seq<u8>, bound: u64, k: nat) -> Seq<u64> {
    chacha8_run(seed, bound, k).0
}

/// Whether a node is stored at `index` and its root hash recomputes.
pub open spec fn sample_passes(nodes: Map<u64, SmfNode>, index: u64) -> bool {
    nodes.contains_key(index) && node_consistent(nodes[index])
}

/// Whether every drawn index passes.
pub open spec fn samples_pass(nodes: Map<u64, SmfNode>, samples: Seq<u64>) -> bool {
    forall|j: int| 0 <= j < samples.len() ==> sample_passes(nodes, #[trigger] samples[j])
}

/// The outcome of a sparse audit of `k` samples below `latest`: true at
/// index 0; otherwise the latest node must be stored, and every index drawn
/// from the ChaCha8 stream keyed by its root hash must pass.
pub open spec fn sparse_audit(nodes: Map<u64, SmfNode>, latest: u64, k: nat) -> bool {
    latest == 0 || (nodes.contains_key(latest)
        && samples_pass(nodes, chacha8_samples(nodes[latest].root_hash@, latest, k)))
}

/// In a store whose nodes are all consistent, as every store built by
/// appending is, a set of samples passes exactly when every drawn index is
/// stored.
pub proof fn law_audit_checks_presence(nodes: Map<u64, SmfNode>, samples: Seq<u64>)
    requires
        store_well_formed(nodes),
    ensures
        samples_pass(nodes, samples) == forall|j: int| 0 <= j < samples.len() ==> nodes.contains_key(#[trigger] samples[j]),
{
    assert forall|j: int| 0 <= j < samples.len() implies sample_passes(nodes, #[trigger] samples[j]) == nodes.contains_key(samples[j]) by {
        if nodes.contains_key(samples[j]) {
            assert(node_consistent(nodes[samples[j]]));
        }
    }
}

/// Law: a store built by appending the indices `0..n` one after another
/// (`states[i + 1]` is `states[i]` after appending index `i`) holds exactly
/// those indices. An audit at any later index then fails and an audit at 0
/// passes; an audit at `n - 1` passes, since `verify_sparse` passes whenever
/// every index up to the latest is stored.
pub proof fn law_audit_of_appended_store(states: Seq<Map<u64, SmfNode>>, n: nat, k: nat)
    requires
        states.len() == n + 1,
        n <= u64::MAX,
        states[0].dom() == Set::<u64>::empty(),
        forall|i: int| 0 <= i < n ==> #[trigger] states[i + 1].dom() == states[i].dom().insert(i as u64),
    ensures
        forall|j: u64| #[trigger] states[n as int].contains_key(j) <==> j < n,
        forall|m: u64| m >= n && m != 0 ==> !#[trigger] sparse_audit(states[n as int], m, k),
        sparse_audit(states[n as int], 0, k),
{
    lemma_appended_prefix(states, n, n);
}

proof fn lemma_appended_prefix(states: Seq<Map<u64, SmfNode>>, n: nat, c: nat)
    requires
        states.len() == n + 1,
        n <= u64::MAX,
        c <= n,
        states[0].dom() == Set::<u64>::empty(),
        forall|i: int| 0 <= i < n ==> #[trigger] states[i + 1].dom() == states[i].dom().insert(i as u64),
    ensures
        forall|j: u64| #[trigger] states[c as int].contains_key(j) <==> j < c,
    decreases c,
{
    if c > 0 {
        lemma_appended_prefix(states, n, (c - 1) as nat);
        let i = c - 1;
        assert(states[i + 1].dom() == states[i].dom().insert(i as u64));
        assert forall|j: u64| #[trigger] states[c as int].contains_key(j) <==> j < c by {
            assert(states[c as int].dom().contains(j) <==> states[i].dom().contains(j) || j == i as u64);
        }
    }
}

/// Audits a forest store by sampling.
pub struct Auditor {
    store: SmfStore,
}

impl Auditor {
    /// The audited store's contents.
    pub closed spec fn nodes(&self) -> Map<u64, SmfNode> {
        self.store@
    }

    /// An auditor of `store`.
    pub fn new(store: SmfStore) -> (a: Self)
        ensures
            a.nodes() == store@,
    {
        Auditor { store }
    }

    /// Checks one drawn index: the node is stored and its root hash
    /// recomputes.
    pub fn check_sample(&self, index: u64) -> (r: bool)
        ensures
            r == sample_passes(self.nodes(), index),
    {
        match self.store.get(index) {
            Some(node) => verify_node(node),
            None => false,
        }
    }

    /// Verifies the trajectory up to `latest_index` with `k` samples: true
    /// at index 0; false when the latest node is missing; otherwise `k`
    /// indices below `latest_index` are drawn from a ChaCha8 stream seeded
    /// with the latest root hash, and the audit passes when every drawn
    /// node is stored and its root hash recomputes.
    pub fn verify_sparse(&self, latest_index: u64, k: usize) -> (r: bool)
        ensures
            r == sparse_audit(self.nodes(), latest_index, k as nat),
            (forall|i: u64| i <= latest_index ==> #[trigger] self.nodes().contains_key(i)) ==> r,
    {
        if latest_index == 0 {
            return true;
        }
        let latest_root = match self.store.get(latest_index) {
            Some(node) => node.root_hash,
            None => return false,
        };
        let ghost seed = latest_root@;
        let mut pos: u128 = 0;
        let mut n: usize = 0;
        while n < k
            invariant
                latest_index > 0,
                self.nodes().contains_key(latest_index),
                seed == self.nodes()[latest_index].root_hash@,
                latest_root@ == seed,
                0 <= n <= k,
                pos == chacha8_run(seed, latest_index, n as nat).1,
                chacha8_samples(seed, latest_index, n as nat).len() == n,
                samples_pass(self.nodes(), chacha8_samples(seed, latest_index, n as nat)),
                store_well_formed(self.nodes()),
            decreases k - n,
        {
            let ghost before = chacha8_samples(seed, latest_index, n as nat);
            let (index, next) = chacha8_draw_at(&latest_root, pos, latest_index);
            let ghost after = chacha8_samples(seed, latest_index, (n + 1) as nat);
            assert(after == before.push(index));
            if !self.check_sample(index) {
                proof {
                    if forall|i: u64| i <= latest_index ==> #[trigger] self.nodes().contains_key(i) {
                        assert(self.nodes().contains_key(index));
                        assert(node_consistent(self.nodes()[index]));
                    }
                    lemma_samples_prefix(seed, latest_index, (n + 1) as nat, k as nat);
                    assert(!sample_passes(self.nodes(), after[n as int]));
                    let all = chacha8_samples(seed, latest_index, k as nat);
                    assert(all[n as int] == after[n as int]);
                }
                return false;
            }
            proof {
                assert forall|j: int| 0 <= j < after.len() implies sample_passes(self.nodes(), #[trigger] after[j]) by {
                    if j < n {
                        assert(after[j] == before[j]);
                    }
                }
            }
            pos = next;
            n = n + 1;
        }
        true
    }
}

/// The first draws of a longer run are the draws of the shorter run.
proof fn lemma_samples_prefix(seed: Seq<u8>, bound: u64, n: nat, m: nat)
    requires
        n <= m,
    ensures
        chacha8_samples(seed, bound, m).len() == m,
        forall|j: int| 0 <= j < n ==> #[trigger] chacha8_samples(seed, bound, m)[j] == chacha8_samples(seed, bound, n)[j],
    decreases m,
{
    if m > 0 {
        if n == m {
            lemma_samples_prefix(seed, bound, (m - 1) as nat, (m - 1) as nat);
        } else {
            lemma_samples_prefix(seed, bound, n, (m - 1) as nat);
        }
    }
}

} // verus!
