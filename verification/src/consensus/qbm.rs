//! Quorum-bound manifold: only simplices supported by a supermajority of the
//! nodes enter the global manifold.

use vstd::prelude::*;
use crate::error::HashDigest;
use crate::consensus::sba::supermajority_threshold;

verus! {

/// A simplex of the manifold.
#[derive(Clone, Debug, PartialEq, Eq, Hash)]
pub struct Simplex {
    /// Dimension of the simplex.
    pub dim: usize,
    /// Indices of its vertices.
    pub vertices: Vec<u64>,
}

/// What identifies a simplex: its dimension and its vertex list.
pub type SimplexView = (usize, Seq<u64>);

impl View for Simplex {
    type V = SimplexView;

    open spec fn view(&self) -> SimplexView {
        (self.dim, self.vertices@)
    }
}

/// Whether two simplices are the same.
pub fn simplex_eq(a: &Simplex, b: &Simplex) -> (r: bool)
    ensures
        r == (a@ == b@),
{
    if a.dim != b.dim || a.vertices.len() != b.vertices.len() {
        return false;
    }
    let mut i: usize = 0;
    while i < a.vertices.len()
        invariant
            a.vertices@.len() == b.vertices@.len(),
            0 <= i <= a.vertices@.len(),
            forall|k: int| 0 <= k < i ==> a.vertices@[k] == b.vertices@[k],
        decreases a.vertices.len() - i,
    {
        if a.vertices[i] != b.vertices[i] {
            return false;
        }
        i = i + 1;
    }
    assert(a.vertices@ =~= b.vertices@);
    true
}

/// A copy of a simplex.
fn copy_simplex(s: &Simplex) -> (r: Simplex)
    ensures
        r@ == s@,
{
    let mut vertices: Vec<u64> = Vec::new();
    let mut i: usize = 0;
    while i < s.vertices.len()
        invariant
            0 <= i <= s.vertices@.len(),
            vertices@ == s.vertices@.subrange(0, i as int),
        decreases s.vertices.len() - i,
    {
        vertices.push(s.vertices[i]);
        i = i + 1;
    }
    assert(vertices@ =~= s.vertices@);
    Simplex { dim: s.dim, vertices }
}

/// Support recorded for `x` in a list of (simplex, count) pairs.
pub open spec fn support_of(votes: Seq<(Simplex, usize)>, x: SimplexView) -> nat
    decreases votes.len(),
{
    if votes.len() == 0 {
        0
    } else {
        support_of(votes.drop_last(), x) + if votes.last().0@ == x { votes.last().1 as nat } else { 0 }
    }
}

/// No simplex is listed twice.
pub open spec fn simplices_distinct(s: Seq<Simplex>) -> bool {
    forall|i: int, j: int| 0 <= i < j < s.len() ==> s[i]@ != s[j]@
}

/// Whether `x` is one of the simplices of `s`.
pub open spec fn listed(s: Seq<Simplex>, x: SimplexView) -> bool {
    exists|k: int| 0 <= k < s.len() && s[k]@ == x
}

spec fn passing(votes: Seq<(Simplex, usize)>, i: int, threshold: int, x: SimplexView) -> bool {
    exists|j: int| 0 <= j < i && votes[j].0@ == x && votes[j].1 > threshold
}

spec fn keys_distinct(votes: Seq<(Simplex, usize)>) -> bool {
    forall|i: int, j: int| 0 <= i < j < votes.len() ==> votes[i].0@ != votes[j].0@
}

proof fn lemma_support_entry(votes: Seq<(Simplex, usize)>, x: SimplexView)
    requires
        keys_distinct(votes),
    ensures
        forall|i: int| 0 <= i < votes.len() && votes[i].0@ == x ==> support_of(votes, x) == votes[i].1,
        (forall|i: int| 0 <= i < votes.len() ==> votes[i].0@ != x) ==> support_of(votes, x) == 0,
    decreases votes.len(),
{
    if votes.len() > 0 {
        let init = votes.drop_last();
        assert(keys_distinct(init));
        lemma_support_entry(init, x);
        assert forall|i: int| 0 <= i < votes.len() && votes[i].0@ == x implies support_of(votes, x) == votes[i].1 by {
            if i < votes.len() - 1 {
                assert(init[i] == votes[i]);
                assert(votes.last().0@ != x);
            }
        }
        assert((forall|i: int| 0 <= i < votes.len() ==> votes[i].0@ != x) ==> support_of(votes, x) == 0) by {
            if forall|i: int| 0 <= i < votes.len() ==> votes[i].0@ != x {
                assert forall|i: int| 0 <= i < init.len() implies init[i].0@ != x by {
                    assert(init[i] == votes[i]);
                }
                assert(votes[votes.len() - 1].0@ != x);
            }
        }
    }
}

proof fn lemma_support_bump(votes: Seq<(Simplex, usize)>, i: int, entry: (Simplex, usize), x: SimplexView)
    requires
        0 <= i < votes.len(),
        entry.0@ == votes[i].0@,
        entry.1 == votes[i].1 + 1,
    ensures
        support_of(votes.update(i, entry), x) == support_of(votes, x) + if votes[i].0@ == x { 1int } else { 0int },
    decreases votes.len(),
{
    let new = votes.update(i, entry);
    if i < votes.len() - 1 {
        lemma_support_bump(votes.drop_last(), i, entry, x);
        assert(new.drop_last() =~= votes.drop_last().update(i, entry));
    } else {
        assert(new.drop_last() =~= votes.drop_last());
    }
}

/// Adds one vote for `s` to a list of (simplex, count) pairs.
fn add_vote(votes: &mut Vec<(Simplex, usize)>, s: Simplex)
    requires
        keys_distinct(old(votes)@),
        support_of(old(votes)@, s@) < usize::MAX,
    ensures
        keys_distinct(final(votes)@),
        forall|x: SimplexView| #[trigger] support_of(final(votes)@, x) == support_of(old(votes)@, x) + if x == s@ { 1int } else { 0int },
{
    let ghost before = votes@;
    let mut i: usize = 0;
    while i < votes.len()
        invariant
            0 <= i <= votes@.len(),
            votes@ == before,
            before == old(votes)@,
            keys_distinct(before),
            support_of(before, s@) < usize::MAX,
            forall|k: int| 0 <= k < i ==> before[k].0@ != s@,
        decreases votes.len() - i,
    {
        if simplex_eq(&votes[i].0, &s) {
            proof {
                lemma_support_entry(before, s@);
            }
            let entry = (copy_simplex(&votes[i].0), votes[i].1 + 1);
            votes.set(i, entry);
            proof {
                assert(votes@ =~= before.update(i as int, entry));
                assert forall|x: SimplexView| #[trigger] support_of(votes@, x) == support_of(before, x) + if x == s@ { 1int } else { 0int } by {
                    lemma_support_bump(before, i as int, entry, x);
                }
                assert forall|a: int, b: int| 0 <= a < b < votes@.len() implies votes@[a].0@ != votes@[b].0@ by {
                    assert(before[a].0@ != before[b].0@);
                }
            }
            return;
        }
        i = i + 1;
    }
    votes.push((s, 1));
    proof {
        assert(votes@.drop_last() =~= before);
        assert forall|x: SimplexView| #[trigger] support_of(votes@, x) == support_of(before, x) + if x == s@ { 1int } else { 0int } by {
        }
        assert forall|a: int, b: int| 0 <= a < b < votes@.len() implies votes@[a].0@ != votes@[b].0@ by {
            if b < before.len() {
                assert(before[a].0@ != before[b].0@);
            } else {
                assert(before[a].0@ != s@);
            }
        }
    }
}

/// Builds the quorum-bound manifold from the nodes' contributions.
pub struct QBMConstructor {
    num_nodes: usize,
    simplex_votes: Vec<(Simplex, usize)>,
}

impl QBMConstructor {
    #[verifier::type_invariant]
    spec fn distinct_simplices(&self) -> bool {
        keys_distinct(self.simplex_votes@)
    }

    /// Size of the quorum.
    pub closed spec fn nodes(&self) -> nat {
        self.num_nodes as nat
    }

    /// Number of contributions that included the simplex `x`.
    pub closed spec fn support(&self, x: SimplexView) -> nat {
        support_of(self.simplex_votes@, x)
    }

    /// A constructor for a quorum of `num_nodes` nodes, with no support yet.
    pub fn new(num_nodes: usize) -> (c: Self)
        ensures
            c.nodes() == num_nodes,
            forall|x: SimplexView| c.support(x) == 0,
    {
        QBMConstructor { num_nodes, simplex_votes: Vec::new() }
    }

    /// Registers the simplices contributed by one node: the node votes once
    /// for each simplex it lists, however often it lists it.
    pub fn register_node_contribution(&mut self, simplices: Vec<Simplex>)
        requires
            forall|x: SimplexView| listed(simplices@, x) ==> #[trigger] old(self).support(x) < usize::MAX,
        ensures
            final(self).nodes() == old(self).nodes(),
            forall|x: SimplexView| #[trigger] final(self).support(x)
                == old(self).support(x) + if listed(simplices@, x) { 1int } else { 0int },
    {
        proof {
            use_type_invariant(&*self);
        }
        let mut votes: Vec<(Simplex, usize)> = Vec::new();
        std::mem::swap(&mut votes, &mut self.simplex_votes);
        let ghost start = votes@;
        let ghost input = simplices@;
        let mut done: usize = 0;
        assert forall|x: SimplexView| listed(input, x) implies #[trigger] support_of(start, x) < usize::MAX by {
            assert(old(self).support(x) == support_of(start, x));
        }
        assert(input.subrange(0, 0) =~= Seq::<Simplex>::empty());
        while done < simplices.len()
            invariant
                self.num_nodes == old(self).num_nodes,
                start == old(self).simplex_votes@,
                simplices@ == input,
                keys_distinct(votes@),
                0 <= done <= input.len(),
                forall|x: SimplexView| listed(input, x) ==> #[trigger] support_of(start, x) < usize::MAX,
                forall|x: SimplexView| #[trigger] support_of(votes@, x) == support_of(start, x)
                    + if listed(input.subrange(0, done as int), x) { 1int } else { 0int },
            decreases simplices.len() - done,
        {
            let ghost sv = input[done as int]@;
            proof {
                assert forall|x: SimplexView| #[trigger] listed(input.subrange(0, done + 1), x)
                    <==> (listed(input.subrange(0, done as int), x) || x == sv) by {
                    lemma_listed_prefix(input, done + 1, x);
                }
                assert(listed(input, sv)) by {
                    assert(input[done as int]@ == sv);
                }
            }
            if !listed_before(&simplices, done) {
                let s = copy_simplex(&simplices[done]);
                proof {
                    assert(!listed(input.subrange(0, done as int), sv)) by {
                        if listed(input.subrange(0, done as int), sv) {
                            let k = choose|k: int| 0 <= k < done && input.subrange(0, done as int)[k]@ == sv;
                            assert(input[k]@ == sv);
                        }
                    }
                    assert(support_of(start, sv) < usize::MAX);
                }
                add_vote(&mut votes, s);
            } else {
                proof {
                    let k = choose|k: int| 0 <= k < done && input[k]@ == sv;
                    assert(input.subrange(0, done as int)[k]@ == sv);
                }
            }
            done = done + 1;
        }
        proof {
            assert(input.subrange(0, done as int) =~= input);
        }
        self.simplex_votes = votes;
    }

    /// The simplices supported by more than two thirds of the nodes, each
    /// listed once.
    pub fn finalize_qbm(&self) -> (r: Vec<Simplex>)
        requires
            2 * self.nodes() <= usize::MAX,
        ensures
            simplices_distinct(r@),
            forall|x: SimplexView| #[trigger] listed(r@, x)
                <==> self.support(x) > supermajority_threshold(self.nodes() as int),
    {
        proof {
            use_type_invariant(self);
        }
        let threshold = (2 * self.num_nodes) / 3;
        let ghost votes = self.simplex_votes@;
        let mut out: Vec<Simplex> = Vec::new();
        let mut i: usize = 0;
        while i < self.simplex_votes.len()
            invariant
                votes == self.simplex_votes@,
                0 <= i <= votes.len(),
                keys_distinct(votes),
                threshold == supermajority_threshold(self.num_nodes as int),
                simplices_distinct(out@),
                forall|k: int| 0 <= k < out@.len() ==> passing(votes, i as int, threshold as int, #[trigger] out@[k]@),
                forall|j: int| 0 <= j < i && (#[trigger] votes[j]).1 > threshold ==> listed(out@, votes[j].0@),
            decreases self.simplex_votes.len() - i,
        {
            if self.simplex_votes[i].1 > threshold {
                let s = copy_simplex(&self.simplex_votes[i].0);
                let ghost old_out = out@;
                out.push(s);
                proof {
                    assert forall|a: int, b: int| 0 <= a < b < out@.len() implies out@[a]@ != out@[b]@ by {
                        if b == old_out.len() {
                            assert(old_out[a] == out@[a]);
                            assert(passing(votes, i as int, threshold as int, old_out[a]@));
                            let j = choose|j: int| 0 <= j < i && votes[j].0@ == old_out[a]@ && votes[j].1 > threshold;
                            assert(votes[j].0@ != votes[i as int].0@);
                        } else {
                            assert(old_out[a] == out@[a] && old_out[b] == out@[b]);
                        }
                    }
                    assert forall|k: int| 0 <= k < out@.len() implies passing(votes, i + 1, threshold as int, #[trigger] out@[k]@) by {
                        if k == old_out.len() {
                            assert(votes[i as int].0@ == out@[k]@);
                        } else {
                            assert(old_out[k] == out@[k]);
                            assert(passing(votes, i as int, threshold as int, old_out[k]@));
                        }
                    }
                    assert forall|j: int| 0 <= j < i + 1 && (#[trigger] votes[j]).1 > threshold implies listed(out@, votes[j].0@) by {
                        if j == i {
                            assert(out@[old_out.len() as int]@ == votes[j].0@);
                        } else {
                            assert(listed(old_out, votes[j].0@));
                            let k = choose|k: int| 0 <= k < old_out.len() && old_out[k]@ == votes[j].0@;
                            assert(out@[k] == old_out[k]);
                        }
                    }
                }
            } else {
                proof {
                    assert forall|k: int| 0 <= k < out@.len() implies passing(votes, i + 1, threshold as int, #[trigger] out@[k]@) by {
                        assert(passing(votes, i as int, threshold as int, out@[k]@));
                    }
                }
            }
            i = i + 1;
        }
        proof {
            assert forall|x: SimplexView| #[trigger] listed(out@, x)
                <==> self.support(x) > supermajority_threshold(self.nodes() as int) by {
                lemma_support_entry(votes, x);
                if listed(out@, x) {
                    let k = choose|k: int| 0 <= k < out@.len() && out@[k]@ == x;
                    assert(passing(votes, i as int, threshold as int, out@[k]@));
                    let j = choose|j: int| 0 <= j < i && votes[j].0@ == out@[k]@ && votes[j].1 > threshold;
                    assert(votes[j].0@ == x);
                }
                if self.support(x) > supermajority_threshold(self.nodes() as int) {
                    if forall|j: int| 0 <= j < votes.len() ==> votes[j].0@ != x {
                    } else {
                        let j = choose|j: int| 0 <= j < votes.len() && !(votes[j].0@ != x);
                        assert(votes[j].1 > threshold);
                    }
                }
            }
        }
        out
    }

    /// The root digest of a finalized manifold: all zero, but for its first
    /// byte, which holds the number of simplices (modulo 256) when there are
    /// any.
    pub fn compute_qbm_root(&self, qbm: &[Simplex]) -> (root: HashDigest)
        ensures
            root@ == qbm_root(qbm@.len()),
    {
        let mut root = [0u8; 32];
        if qbm.len() > 0 {
            root[0] = (qbm.len() % 256) as u8;
        }
        assert(root@ =~= qbm_root(qbm@.len()));
        root
    }
}

/// The root digest of a manifold of `n` simplices.
pub open spec fn qbm_root(n: nat) -> Seq<u8> {
    Seq::new(32, |i: int| if i == 0 && n > 0 { (n % 256) as u8 } else { 0u8 })
}

/// Number of contributions, among `cs`, that list the simplex `x`.
pub open spec fn node_votes(cs: Seq<Seq<Simplex>>, x: SimplexView) -> nat
    decreases cs.len(),
{
    if cs.len() == 0 {
        0
    } else {
        node_votes(cs.drop_last(), x) + if listed(cs.last(), x) { 1nat } else { 0nat }
    }
}

/// Law: a constructor that starts with no support and then registers the
/// contributions `cs` one after another (`states[i + 1]` is `states[i]`
/// after registering `cs[i]`) supports each simplex by exactly the number of
/// nodes that listed it; and a manifold finalized from it (`manifold`, as
/// `finalize_qbm` describes its result) holds exactly the simplices listed by
/// more than two thirds of the nodes.
pub proof fn law_manifold_counts_nodes(
    states: Seq<QBMConstructor>,
    cs: Seq<Seq<Simplex>>,
    manifold: Seq<Simplex>,
)
    requires
        states.len() == cs.len() + 1,
        forall|x: SimplexView| #[trigger] states[0].support(x) == 0,
        forall|i: int, x: SimplexView| 0 <= i < cs.len() ==> #[trigger] states[i + 1].support(x)
            == states[i].support(x) + if listed(cs[i], x) { 1int } else { 0int },
        forall|x: SimplexView| #[trigger] listed(manifold, x)
            <==> states.last().support(x) > supermajority_threshold(states.last().nodes() as int),
    ensures
        forall|x: SimplexView| #[trigger] states.last().support(x) == node_votes(cs, x),
        forall|x: SimplexView| #[trigger] listed(manifold, x)
            <==> node_votes(cs, x) > supermajority_threshold(states.last().nodes() as int),
{
    assert forall|x: SimplexView| #[trigger] states.last().support(x) == node_votes(cs, x) by {
        lemma_support_counts_nodes(states, cs, x, cs.len() as int);
        assert(states.last() == states[cs.len() as int]);
        assert(cs.subrange(0, cs.len() as int) =~= cs);
    }
}

proof fn lemma_support_counts_nodes(states: Seq<QBMConstructor>, cs: Seq<Seq<Simplex>>, x: SimplexView, n: int)
    requires
        states.len() == cs.len() + 1,
        0 <= n <= cs.len(),
        states[0].support(x) == 0,
        forall|i: int, y: SimplexView| 0 <= i < cs.len() ==> #[trigger] states[i + 1].support(y)
            == states[i].support(y) + if listed(cs[i], y) { 1int } else { 0int },
    ensures
        states[n].support(x) == node_votes(cs.subrange(0, n), x),
    decreases n,
{
    if n == 0 {
        assert(cs.subrange(0, 0).len() == 0);
    } else {
        lemma_support_counts_nodes(states, cs, x, n - 1);
        assert(cs.subrange(0, n).drop_last() =~= cs.subrange(0, n - 1));
        let i = n - 1;
        assert(states[i + 1].support(x) == states[i].support(x) + if listed(cs[i], x) { 1int } else { 0int });
    }
}

/// Whether the simplex at position `n` already occurs before it.
fn listed_before(simplices: &Vec<Simplex>, n: usize) -> (r: bool)
    requires
        n < simplices@.len(),
    ensures
        r == exists|k: int| 0 <= k < n && simplices@[k]@ == simplices@[n as int]@,
{
    let mut k: usize = 0;
    while k < n
        invariant
            0 <= k <= n < simplices@.len(),
            forall|j: int| 0 <= j < k ==> simplices@[j]@ != simplices@[n as int]@,
        decreases n - k,
    {
        if simplex_eq(&simplices[k], &simplices[n]) {
            return true;
        }
        k = k + 1;
    }
    false
}

proof fn lemma_listed_prefix(s: Seq<Simplex>, n: int, x: SimplexView)
    requires
        0 < n <= s.len(),
    ensures
        listed(s.subrange(0, n), x) <==> (listed(s.subrange(0, n - 1), x) || s[n - 1]@ == x),
{
    let a = s.subrange(0, n);
    let b = s.subrange(0, n - 1);
    if listed(a, x) {
        let k = choose|k: int| 0 <= k < a.len() && a[k]@ == x;
        if k < n - 1 {
            assert(b[k] == a[k]);
        }
    }
    if listed(b, x) {
        let k = choose|k: int| 0 <= k < b.len() && b[k]@ == x;
        assert(a[k] == b[k]);
    }
    if s[n - 1]@ == x {
        assert(a[n - 1] == s[n - 1]);
    }
}

} // verus!
