//! Verifiable secret sharing for distributed key generation: commitments
//! to the coefficients in G1 and the check of a share against them.

use vstd::prelude::*;
use vstd::arithmetic::div_mod::{lemma_small_mod, lemma_mul_mod_noop_left, lemma_mul_mod_noop_right, lemma_add_mod_noop};
use crate::crypto::field::{Scalar, scalar_modulus};
use crate::crypto::group::{G1Point, g1_mul, g1_add, g1_generator_bytes, g1_identity_bytes};
use crate::crypto::sss::{power, poly_sum, poly_eval, values};

verus! {

/// A commitment to one polynomial coefficient.
#[derive(Clone, Debug)]
pub struct Commitment(pub G1Point);

/// The encodings of a list of commitments.
pub open spec fn commitment_points(cs: Seq<Commitment>) -> Seq<Seq<u8>> {
    cs.map_values(|c: Commitment| c.0@)
}

/// The commitments to the coefficients: each coefficient times the
/// generator of G1.
pub fn generate_commitments(coeffs: &[Scalar]) -> (r: Vec<Commitment>)
    ensures
        r@.len() == coeffs@.len(),
        forall|i: int| 0 <= i < coeffs@.len() ==> (#[trigger] r@[i]).0@ == g1_mul(g1_generator_bytes(), coeffs@[i]@),
        commits_to(r@, values(coeffs@)),
{
    let g = G1Point::generator();
    let mut out: Vec<Commitment> = Vec::new();
    let mut i: usize = 0;
    while i < coeffs.len()
        invariant
            g@ == g1_generator_bytes(),
            0 <= i <= coeffs@.len(),
            out@.len() == i,
            forall|k: int| 0 <= k < i ==> (#[trigger] out@[k]).0@ == g1_mul(g1_generator_bytes(), coeffs@[k]@),
            forall|k: int| 0 <= k < i ==> (#[trigger] coeffs@[k])@ < scalar_modulus(),
        decreases coeffs.len() - i,
    {
        coeffs[i].value_below_modulus();
        out.push(Commitment(g.mul(&coeffs[i])));
        i = i + 1;
    }
    proof {
        let cs = values(coeffs@);
        assert forall|k: int| 0 <= k < cs.len() implies #[trigger] cs[k] < scalar_modulus()
            && out@[k].0@ == g1_mul(g1_generator_bytes(), cs[k]) by {
            assert(cs[k] == coeffs@[k]@);
        }
    }
    out
}

/// The combination of the first `n` commitments at `x`: the sum, from the
/// identity, of `C_k * x^k`.
pub open spec fn commitment_sum(points: Seq<Seq<u8>>, x: nat, n: nat) -> Seq<u8>
    decreases n,
{
    if n == 0 {
        g1_identity_bytes()
    } else {
        g1_add(
            commitment_sum(points, x, (n - 1) as nat),
            g1_mul(points[n - 1], power(x, (n - 1) as nat) % scalar_modulus()),
        )
    }
}

/// Whether `commitments` commit to the coefficients `cs`: each is the
/// generator of G1 times its coefficient.
pub open spec fn commits_to(commitments: Seq<Commitment>, cs: Seq<nat>) -> bool {
    &&& cs.len() == commitments.len()
    &&& forall|k: int| 0 <= k < cs.len() ==> #[trigger] cs[k] < scalar_modulus()
        && commitments[k].0@ == g1_mul(g1_generator_bytes(), cs[k])
}

/// Checks the share `(share_x, share_y)` against the commitments: the
/// share value times the generator must equal the combination of the
/// commitments at `share_x`.
pub fn verify_share(share_x: &Scalar, share_y: &Scalar, commitments: &[Commitment]) -> (r: bool)
    ensures
        r == (g1_mul(g1_generator_bytes(), share_y@)
            == commitment_sum(commitment_points(commitments@), share_x@, commitments@.len())),
        forall|cs: Seq<nat>| #[trigger] commits_to(commitments@, cs) && share_y@ == poly_eval(cs, share_x@) ==> r,
{
    let g = G1Point::generator();
    let lhs = g.mul(share_y);
    let ghost points = commitment_points(commitments@);
    let ghost q = scalar_modulus();
    let mut rhs = G1Point::identity();
    let mut x_pow = Scalar::one();
    proof {
        lemma_small_mod(1, q);
    }
    let mut i: usize = 0;
    while i < commitments.len()
        invariant
            points == commitment_points(commitments@),
            q == scalar_modulus(),
            0 <= i <= commitments@.len(),
            rhs@ == commitment_sum(points, share_x@, i as nat),
            x_pow@ == power(share_x@, i as nat) % q,
            forall|cs: Seq<nat>| #[trigger] commits_to(commitments@, cs)
                ==> rhs@ == g1_mul(g1_generator_bytes(), poly_sum(cs, share_x@, i as nat) % q),
        decreases commitments.len() - i,
    {
        proof {
            assert(commitments@[i as int].0@ == points[i as int]);
            lemma_mul_mod_noop_left(power(share_x@, i as nat) as int, share_x@ as int, q as int);
        }
        let term = commitments[i].0.mul(&x_pow);
        let ghost before = rhs@;
        rhs = rhs.add(&term);
        proof {
            assert forall|cs: Seq<nat>| #[trigger] commits_to(commitments@, cs)
                implies rhs@ == g1_mul(g1_generator_bytes(), poly_sum(cs, share_x@, (i + 1) as nat) % q) by {
                let c = cs[i as int];
                let s = poly_sum(cs, share_x@, i as nat);
                let pw = power(share_x@, i as nat);
                assert(c < q && commitments@[i as int].0@ == g1_mul(g1_generator_bytes(), c));
                assert(term@ == g1_mul(g1_generator_bytes(), (c * x_pow@) % q));
                assert(before == g1_mul(g1_generator_bytes(), s % q));
                lemma_small_mod(c, q);
                lemma_mul_mod_noop_right(c as int, pw as int, q as int);
                lemma_add_mod_noop(s as int, (c * pw) as int, q as int);
                lemma_small_mod((c * pw) % q, q);
                assert(rhs@ == g1_mul(g1_generator_bytes(), ((s % q) + (c * x_pow@) % q) % q));
            }
        }
        x_pow = x_pow.mul(share_x);
        i = i + 1;
    }
    proof {
        assert forall|cs: Seq<nat>| #[trigger] commits_to(commitments@, cs) && share_y@ == poly_eval(cs, share_x@)
            implies lhs@ == rhs@ by {
        }
    }
    let a = lhs.to_compressed();
    let b = rhs.to_compressed();
    crate::bytes::bytes_equal(a.as_slice(), b.as_slice())
}

} // verus!
