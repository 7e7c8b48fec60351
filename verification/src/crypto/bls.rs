//! BLS signatures with non-interactive aggregation: private shares are
//! scalars, public shares live in G1 and signatures in G2.

use vstd::prelude::*;
use crate::crypto::field::{Scalar, scalar_modulus, le_value};
use crate::crypto::group::{G1Point, G2Point, g1_mul, g1_add, g2_mul, g2_add, g2_valid, g1_generator_bytes, g1_identity_bytes, g2_identity_bytes};

verus! {

/// A private key share.
#[derive(Clone, Debug)]
pub struct PrivateShare(pub Scalar);

/// A public key share.
#[derive(Clone, Debug)]
pub struct PublicShare(pub G1Point);

/// A signature.
#[derive(Clone, Debug)]
pub struct Signature(pub G2Point);

impl PrivateShare {
    /// A random private share from 64 random bytes, as a random generator
    /// fills them: their little-endian value reduced by the modulus.
    pub fn random(random_bytes: &[u8; 64]) -> (s: Self)
        ensures
            s.0@ == le_value(random_bytes@) % scalar_modulus(),
    {
        PrivateShare(Scalar::from_bytes_wide(random_bytes))
    }

    /// The public share: the private scalar times the generator of G1.
    pub fn public_share(&self) -> (p: PublicShare)
        ensures
            p.0@ == g1_mul(g1_generator_bytes(), self.0@),
            self.0@ < scalar_modulus(),
    {
        self.0.value_below_modulus();
        PublicShare(G1Point::generator().mul(&self.0))
    }

    /// Signs a message already mapped to a point of G2: the point times the
    /// private scalar.
    pub fn sign(&self, message_hash_point: &G2Point) -> (s: Signature)
        ensures
            s.0@ == g2_mul(message_hash_point@, self.0@),
            self.0@ < scalar_modulus(),
            g2_valid(message_hash_point@),
    {
        self.0.value_below_modulus();
        Signature(message_hash_point.mul(&self.0))
    }
}

/// The sum, from the identity of G2, of the signatures in order.
pub open spec fn signature_sum(sigs: Seq<Signature>) -> Seq<u8>
    decreases sigs.len(),
{
    if sigs.len() == 0 {
        g2_identity_bytes()
    } else {
        g2_add(signature_sum(sigs.drop_last()), sigs.last().0@)
    }
}

/// The sum, from the identity of G1, of the public shares in order.
pub open spec fn public_share_sum(shares: Seq<PublicShare>) -> Seq<u8>
    decreases shares.len(),
{
    if shares.len() == 0 {
        g1_identity_bytes()
    } else {
        g1_add(public_share_sum(shares.drop_last()), shares.last().0@)
    }
}

/// The sum of private keys in the field.
pub open spec fn key_sum(ks: Seq<nat>) -> nat
    decreases ks.len(),
{
    if ks.len() == 0 {
        0
    } else {
        (key_sum(ks.drop_last()) + ks.last()) % scalar_modulus()
    }
}

/// Whether each signature is `message` signed with the matching key of `ks`.
pub open spec fn signed_with(sigs: Seq<Signature>, message: Seq<u8>, ks: Seq<nat>) -> bool {
    &&& ks.len() == sigs.len()
    &&& forall|i: int| 0 <= i < ks.len() ==> #[trigger] ks[i] < scalar_modulus() && sigs[i].0@ == g2_mul(message, ks[i])
}

/// Whether each public share is the public share of the matching key of `ks`.
pub open spec fn shares_of(shares: Seq<PublicShare>, ks: Seq<nat>) -> bool {
    &&& ks.len() == shares.len()
    &&& forall|i: int| 0 <= i < ks.len() ==> #[trigger] ks[i] < scalar_modulus()
        && shares[i].0@ == g1_mul(g1_generator_bytes(), ks[i])
}

/// Aggregates signatures into one: their sum in G2.
pub fn aggregate_signatures(signatures: &[Signature]) -> (agg: Signature)
    ensures
        agg.0@ == signature_sum(signatures@),
        forall|m: Seq<u8>, ks: Seq<nat>| g2_valid(m) && #[trigger] signed_with(signatures@, m, ks)
            ==> agg.0@ == g2_mul(m, key_sum(ks)),
{
    let mut agg = G2Point::identity();
    let mut i: usize = 0;
    while i < signatures.len()
        invariant
            0 <= i <= signatures@.len(),
            agg@ == signature_sum(signatures@.subrange(0, i as int)),
            forall|m: Seq<u8>, ks: Seq<nat>| g2_valid(m) && #[trigger] signed_with(signatures@, m, ks)
                ==> agg@ == g2_mul(m, key_sum(ks.subrange(0, i as int))),
        decreases signatures.len() - i,
    {
        proof {
            assert(signatures@.subrange(0, i + 1).drop_last() =~= signatures@.subrange(0, i as int));
        }
        let ghost before = agg@;
        agg = agg.add(&signatures[i].0);
        proof {
            assert forall|m: Seq<u8>, ks: Seq<nat>| g2_valid(m) && #[trigger] signed_with(signatures@, m, ks)
                implies agg@ == g2_mul(m, key_sum(ks.subrange(0, i + 1))) by {
                let prefix = ks.subrange(0, i + 1);
                assert(prefix.drop_last() =~= ks.subrange(0, i as int));
                assert(ks[i as int] < scalar_modulus() && signatures@[i as int].0@ == g2_mul(m, ks[i as int]));
                lemma_key_sum_below(ks.subrange(0, i as int));
                assert(before == g2_mul(m, key_sum(ks.subrange(0, i as int))));
            }
        }
        i = i + 1;
    }
    proof {
        assert forall|m: Seq<u8>, ks: Seq<nat>| g2_valid(m) && #[trigger] signed_with(signatures@, m, ks)
            implies agg@ == g2_mul(m, key_sum(ks)) by {
            assert(ks.subrange(0, i as int) =~= ks);
        }
    }
    assert(signatures@.subrange(0, i as int) =~= signatures@);
    Signature(agg)
}

/// Aggregates public shares into one aggregate public key: their sum in G1.
pub fn aggregate_public_shares(shares: &[PublicShare]) -> (agg: PublicShare)
    ensures
        agg.0@ == public_share_sum(shares@),
        forall|ks: Seq<nat>| #[trigger] shares_of(shares@, ks) ==> agg.0@ == g1_mul(g1_generator_bytes(), key_sum(ks)),
{
    let mut agg = G1Point::identity();
    let mut i: usize = 0;
    while i < shares.len()
        invariant
            0 <= i <= shares@.len(),
            agg@ == public_share_sum(shares@.subrange(0, i as int)),
            forall|ks: Seq<nat>| #[trigger] shares_of(shares@, ks)
                ==> agg@ == g1_mul(g1_generator_bytes(), key_sum(ks.subrange(0, i as int))),
        decreases shares.len() - i,
    {
        proof {
            assert(shares@.subrange(0, i + 1).drop_last() =~= shares@.subrange(0, i as int));
        }
        let ghost before = agg@;
        agg = agg.add(&shares[i].0);
        proof {
            assert forall|ks: Seq<nat>| #[trigger] shares_of(shares@, ks)
                implies agg@ == g1_mul(g1_generator_bytes(), key_sum(ks.subrange(0, i + 1))) by {
                let prefix = ks.subrange(0, i + 1);
                assert(prefix.drop_last() =~= ks.subrange(0, i as int));
                assert(ks[i as int] < scalar_modulus() && shares@[i as int].0@ == g1_mul(g1_generator_bytes(), ks[i as int]));
                lemma_key_sum_below(ks.subrange(0, i as int));
                assert(before == g1_mul(g1_generator_bytes(), key_sum(ks.subrange(0, i as int))));
            }
        }
        i = i + 1;
    }
    proof {
        assert forall|ks: Seq<nat>| #[trigger] shares_of(shares@, ks)
            implies agg@ == g1_mul(g1_generator_bytes(), key_sum(ks)) by {
            assert(ks.subrange(0, i as int) =~= ks);
        }
    }
    assert(shares@.subrange(0, i as int) =~= shares@);
    PublicShare(agg)
}

proof fn lemma_key_sum_below(ks: Seq<nat>)
    ensures
        key_sum(ks) < scalar_modulus(),
{
}

} // verus!
