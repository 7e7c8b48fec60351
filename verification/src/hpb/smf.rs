//! The stretched Merkle forest: each batch's root hash commits to its batch
//! hash and to the roots found at distances 1, 2, 4, ... behind it.

use vstd::prelude::*;
use std::collections::HashMap;
use crate::error::HashDigest;
use crate::bytes::{concat_digests, concat_digest_list};
use crate::digest::{keccak256, keccak256_digest};
use vstd::arithmetic::power2::{pow2, lemma_pow2, lemma_pow2_unfold};
use vstd::arithmetic::power::pow;

verus! {

broadcast use vstd::std_specs::hash::group_hash_axioms;

/// A node of the forest.
#[derive(Clone, Debug)]
pub struct SmfNode {
    /// The batch index.
    pub index: u64,
    /// The hash of the telemetry batch at this index.
    pub batch_hash: HashDigest,
    /// The node's composite root hash.
    pub root_hash: HashDigest,
    /// The root hashes found at the jump targets, nearest first.
    pub jump_links: Vec<HashDigest>,
}

/// The root hash of a node with the given batch hash and jump links.
pub open spec fn node_root(batch_hash: Seq<u8>, links: Seq<HashDigest>) -> Seq<u8> {
    keccak256_digest(batch_hash + concat_digests(links))
}

/// Whether a node's root hash is the one its batch hash and links give.
pub open spec fn node_consistent(node: SmfNode) -> bool {
    node.root_hash@ == node_root(node.batch_hash@, node.jump_links@)
}

/// The distance of the `k`-th jump: 2 to the power `k`.
pub open spec fn jump_distance(k: nat) -> nat
    decreases k,
{
    if k == 0 {
        1
    } else {
        2 * jump_distance((k - 1) as nat)
    }
}

/// The root hashes reached by the first `k` jumps back from `index` that
/// stay at or above 0 and land on a stored node, nearest first.
pub open spec fn links_upto(nodes: Map<u64, SmfNode>, index: u64, k: nat) -> Seq<HashDigest>
    decreases k,
{
    if k == 0 {
        Seq::empty()
    } else {
        let d = jump_distance((k - 1) as nat);
        let earlier = links_upto(nodes, index, (k - 1) as nat);
        if d <= index && nodes.contains_key((index - d) as u64) {
            earlier.push(nodes[(index - d) as u64].root_hash)
        } else {
            earlier
        }
    }
}

/// The jump links of a node appended at `index`: every jump of distance
/// 2^k (k < 64) that stays at or above 0 and lands on a stored node.
pub open spec fn jump_links_for(nodes: Map<u64, SmfNode>, index: u64) -> Seq<HashDigest> {
    links_upto(nodes, index, 64)
}

proof fn lemma_jump_distance_grows(a: nat, b: nat)
    requires
        a <= b,
    ensures
        jump_distance(a) <= jump_distance(b),
        jump_distance(a) >= 1,
    decreases b - a,
{
    if a < b {
        lemma_jump_distance_grows(a, (b - 1) as nat);
    } else {
        lemma_jump_distance_positive(a);
    }
}

proof fn lemma_jump_distance_positive(a: nat)
    ensures
        jump_distance(a) >= 1,
    decreases a,
{
    if a > 0 {
        lemma_jump_distance_positive((a - 1) as nat);
    }
}

proof fn lemma_links_settle(nodes: Map<u64, SmfNode>, index: u64, k: nat, n: nat)
    requires
        k <= n,
        jump_distance(k) > index,
    ensures
        links_upto(nodes, index, n) == links_upto(nodes, index, k),
    decreases n - k,
{
    if k < n {
        lemma_links_settle(nodes, index, k, (n - 1) as nat);
        lemma_jump_distance_grows(k, (n - 1) as nat);
    }
}

proof fn lemma_distance_63()
    ensures
        jump_distance(63) == 0x8000_0000_0000_0000,
{
    reveal_with_fuel(jump_distance, 64);
}

/// The exponents `k < n`, in increasing order, whose jump of 2^k from
/// `index` stays at or above 0 and lands on a stored node.
spec fn stored_jumps(nodes: Map<u64, SmfNode>, index: u64, n: nat) -> Seq<nat>
    decreases n,
{
    if n == 0 {
        Seq::empty()
    } else {
        let k = (n - 1) as nat;
        let earlier = stored_jumps(nodes, index, k);
        if pow2(k) <= index && nodes.contains_key((index - pow2(k)) as u64) {
            earlier.push(k)
        } else {
            earlier
        }
    }
}

proof fn lemma_distance_is_pow2(k: nat)
    ensures
        jump_distance(k) == pow2(k),
    decreases k,
{
    if k > 0 {
        lemma_distance_is_pow2((k - 1) as nat);
        lemma_pow2_unfold(k);
    } else {
        lemma_pow2(0);
        reveal(pow);
    }
}

/// Whether the jump of 2^k back from `index` stays at or above 0 and lands
/// on a stored node.
pub open spec fn jump_lands(nodes: Map<u64, SmfNode>, index: u64, k: nat) -> bool {
    pow2(k) <= index && nodes.contains_key((index - pow2(k)) as u64)
}

proof fn lemma_links_enumerate(nodes: Map<u64, SmfNode>, index: u64, n: nat)
    ensures
        ({
            let ks = stored_jumps(nodes, index, n);
            let links = links_upto(nodes, index, n);
            &&& ks.len() == links.len()
            &&& forall|j: int, l: int| 0 <= j < l < ks.len() ==> ks[j] < ks[l]
            &&& forall|j: int| 0 <= j < ks.len() ==> #[trigger] ks[j] < n && jump_lands(nodes, index, ks[j])
                && links[j] == nodes[(index - pow2(ks[j])) as u64].root_hash
            &&& forall|k: nat| k < n && #[trigger] jump_lands(nodes, index, k) ==> ks.contains(k)
        }),
    decreases n,
{
    if n > 0 {
        let k = (n - 1) as nat;
        lemma_links_enumerate(nodes, index, k);
        lemma_distance_is_pow2(k);
        let ks0 = stored_jumps(nodes, index, k);
        let ks = stored_jumps(nodes, index, n);
        let links0 = links_upto(nodes, index, k);
        let links = links_upto(nodes, index, n);
        if jump_lands(nodes, index, k) {
            assert(ks == ks0.push(k));
            assert(links == links0.push(nodes[(index - pow2(k)) as u64].root_hash));
            assert forall|j: int| 0 <= j < ks.len() implies #[trigger] ks[j] < n && jump_lands(nodes, index, ks[j])
                && links[j] == nodes[(index - pow2(ks[j])) as u64].root_hash by {
                if j < ks0.len() {
                    assert(ks[j] == ks0[j] && links[j] == links0[j]);
                }
            }
            assert forall|kk: nat| kk < n && #[trigger] jump_lands(nodes, index, kk) implies ks.contains(kk) by {
                if kk < k {
                    let j = choose|j: int| 0 <= j < ks0.len() && ks0[j] == kk;
                    assert(ks[j] == kk);
                } else {
                    assert(ks[ks0.len() as int] == kk);
                }
            }
        } else {
            assert(ks == ks0);
            assert(links == links0);
        }
    }
}

/// Whether `links` lists, nearest first, the roots at the jumps `ks`, and
/// `ks` lists in increasing order exactly the exponents `k < 64` whose jump
/// of 2^k back from `index` lands on a stored node.
pub open spec fn enumerates_jumps(nodes: Map<u64, SmfNode>, index: u64, ks: Seq<nat>, links: Seq<HashDigest>) -> bool {
    &&& ks.len() == links.len()
    &&& forall|j: int, l: int| 0 <= j < l < ks.len() ==> ks[j] < ks[l]
    &&& forall|j: int| 0 <= j < ks.len() ==> #[trigger] ks[j] < 64 && jump_lands(nodes, index, ks[j])
        && links[j] == nodes[(index - pow2(ks[j])) as u64].root_hash
    &&& forall|k: nat| k < 64 && #[trigger] jump_lands(nodes, index, k) ==> ks.contains(k)
}

/// Law: the jump links of a node appended at `index` are the roots stored
/// at `index - 2^k`, for every `k < 64` with `2^k <= index` whose target is
/// stored, each once, nearest first (in increasing `k`); there are no
/// others.
pub proof fn law_jump_links_enumerate(nodes: Map<u64, SmfNode>, index: u64)
    ensures
        exists|ks: Seq<nat>| #[trigger] enumerates_jumps(nodes, index, ks, jump_links_for(nodes, index)),
{
    lemma_links_enumerate(nodes, index, 64);
    let ks = stored_jumps(nodes, index, 64);
    assert(enumerates_jumps(nodes, index, ks, jump_links_for(nodes, index)));
}

/// Every stored node sits under its own index and is consistent.
pub open spec fn store_well_formed(nodes: Map<u64, SmfNode>) -> bool {
    forall|i: u64| nodes.contains_key(i) ==> nodes[i].index == i && node_consistent(#[trigger] nodes[i])
}

/// An in-memory store of forest nodes, keyed by batch index.
pub struct SmfStore {
    nodes: HashMap<u64, SmfNode>,
}

impl View for SmfStore {
    type V = Map<u64, SmfNode>;

    closed spec fn view(&self) -> Map<u64, SmfNode> {
        self.nodes@
    }
}

impl SmfStore {
    #[verifier::type_invariant]
    spec fn consistent_nodes(&self) -> bool {
        store_well_formed(self.nodes@)
    }

    /// An empty store.
    pub fn new() -> (s: Self)
        ensures
            s@ == Map::<u64, SmfNode>::empty(),
            store_well_formed(s@),
    {
        SmfStore { nodes: HashMap::new() }
    }

    /// Appends the batch at `index`: its jump links are the roots stored at
    /// `index - 2^k`, and its root hash is Keccak-256 of the batch hash
    /// followed by those roots. A node already stored at `index` is
    /// replaced. Returns the new root hash.
    pub fn append(&mut self, index: u64, batch_hash: HashDigest) -> (root: HashDigest)
        requires
            index < 0x8000_0000_0000_0000,
        ensures
            root@ == node_root(batch_hash@, jump_links_for(old(self)@, index)),
            final(self)@.dom() == old(self)@.dom().insert(index),
            forall|i: u64| i != index && old(self)@.contains_key(i) ==> #[trigger] final(self)@[i] == old(self)@[i],
            final(self)@[index].index == index,
            final(self)@[index].batch_hash == batch_hash,
            final(self)@[index].root_hash == root,
            final(self)@[index].jump_links@ == jump_links_for(old(self)@, index),
            store_well_formed(final(self)@),
    {
        proof {
            use_type_invariant(&*self);
        }
        let mut nodes: HashMap<u64, SmfNode> = HashMap::new();
        std::mem::swap(&mut nodes, &mut self.nodes);
        let ghost before = nodes@;
        let mut jump_links: Vec<HashDigest> = Vec::new();
        let mut k: u64 = 0;
        let mut step: u64 = 1;
        while step <= index
            invariant
                nodes@ == before,
                index < 0x8000_0000_0000_0000,
                k <= 63,
                step == jump_distance(k as nat),
                jump_links@ == links_upto(before, index, k as nat),
            decreases 64 - k,
        {
            let target = index - step;
            match nodes.get(&target) {
                Some(node) => {
                    jump_links.push(node.root_hash);
                }
                None => {}
            }
            proof {
                if k == 63 {
                    lemma_distance_63();
                    assert(false);
                }
            }
            k = k + 1;
            step = step * 2;
        }
        proof {
            lemma_links_settle(before, index, k as nat, 64);
        }
        let links = concat_digest_list(jump_links.as_slice());
        let mut message: Vec<u8> = Vec::new();
        message.extend_from_slice(batch_hash.as_slice());
        message.extend_from_slice(links.as_slice());
        assert(message@ =~= batch_hash@ + concat_digests(jump_links@));
        let root_hash = keccak256(message.as_slice());
        let node = SmfNode { index, batch_hash, root_hash, jump_links };
        nodes.insert(index, node);
        proof {
            assert(nodes@.dom() =~= before.dom().insert(index));
            assert forall|i: u64| nodes@.contains_key(i) implies nodes@[i].index == i && node_consistent(#[trigger] nodes@[i]) by {
                if i != index {
                    assert(nodes@[i] == before[i]);
                }
            }
        }
        self.nodes = nodes;
        root_hash
    }

    /// The node stored at `index`, if any.
    pub fn get(&self, index: u64) -> (r: Option<&SmfNode>)
        ensures
            r == if self@.contains_key(index) { Some(&self@[index]) } else { None },
            store_well_formed(self@),
    {
        proof {
            use_type_invariant(self);
        }
        self.nodes.get(&index)
    }
}

impl Default for SmfStore {
    fn default() -> (s: Self)
        ensures
            s@ == Map::<u64, SmfNode>::empty(),
    {
        Self::new()
    }
}

/// Recomputes a node's root hash from its batch hash and jump links and
/// compares it with the stored one.
pub fn verify_node(node: &SmfNode) -> (r: bool)
    ensures
        r == node_consistent(*node),
{
    let links = concat_digest_list(node.jump_links.as_slice());
    let mut message: Vec<u8> = Vec::new();
    message.extend_from_slice(node.batch_hash.as_slice());
    message.extend_from_slice(links.as_slice());
    assert(message@ =~= node.batch_hash@ + concat_digests(node.jump_links@));
    let computed = keccak256(message.as_slice());
    crate::bytes::digest_equal(&computed, &node.root_hash)
}

} // verus!
