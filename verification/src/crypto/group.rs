//! The groups G1 and G2 of BLS12-381, each point held as its canonical
//! compressed encoding; the group law is computed by the `bls12_381` crate.

use vstd::prelude::*;
use bls12_381::{G1Affine, G1Projective, G2Affine, G2Projective};
use crate::crypto::field::{Scalar, scalar_modulus};

verus! {

/// Whether `bytes` is the compressed encoding of a point of G1
/// (`G1Affine::from_compressed` accepts it).
pub uninterp spec fn g1_valid(bytes: Seq<u8>) -> bool;

/// Whether `bytes` is the compressed encoding of a point of G2
/// (`G2Affine::from_compressed` accepts it).
pub uninterp spec fn g2_valid(bytes: Seq<u8>) -> bool;

/// The compressed encoding of a G1 point multiplied by a scalar.
pub uninterp spec fn g1_mul(point: Seq<u8>, scalar: nat) -> Seq<u8>;

/// The compressed encoding of the sum of two G1 points.
pub uninterp spec fn g1_add(a: Seq<u8>, b: Seq<u8>) -> Seq<u8>;

/// The compressed encoding of a G2 point multiplied by a scalar.
pub uninterp spec fn g2_mul(point: Seq<u8>, scalar: nat) -> Seq<u8>;

/// The compressed encoding of the sum of two G2 points.
pub uninterp spec fn g2_add(a: Seq<u8>, b: Seq<u8>) -> Seq<u8>;

/// The compressed encoding of the identity of G1: the compression and
/// infinity flags, then zeros.
pub open spec fn g1_identity_bytes() -> Seq<u8> {
    Seq::new(48, |i: int| if i == 0 { 0xc0u8 } else { 0u8 })
}

/// The compressed encoding of the identity of G2.
pub open spec fn g2_identity_bytes() -> Seq<u8> {
    Seq::new(96, |i: int| if i == 0 { 0xc0u8 } else { 0u8 })
}

/// The compressed encoding of the standard generator of G1.
pub open spec fn g1_generator_bytes() -> Seq<u8> {
    seq![
        0x97u8, 0xf1, 0xd3, 0xa7, 0x31, 0x97, 0xd7, 0x94, 0x26, 0x95, 0x63, 0x8c, 0x4f, 0xa9, 0xac, 0x0f,
        0xc3, 0x68, 0x8c, 0x4f, 0x97, 0x74, 0xb9, 0x05, 0xa1, 0x4e, 0x3a, 0x3f, 0x17, 0x1b, 0xac, 0x58,
        0x6c, 0x55, 0xe8, 0x3f, 0xf9, 0x7a, 0x1a, 0xef, 0xfb, 0x3a, 0xf0, 0x0a, 0xdb, 0x22, 0xc6, 0xbb,
    ]
}

/// A point of G1.
#[derive(Clone, Copy, Debug, PartialEq, Eq)]
pub struct G1Point {
    pub(crate) bytes: [u8; 48],
}

/// A point of G2.
#[derive(Clone, Copy, Debug, PartialEq, Eq)]
pub struct G2Point {
    pub(crate) bytes: [u8; 96],
}

impl View for G1Point {
    type V = Seq<u8>;

    /// The point's compressed encoding.
    closed spec fn view(&self) -> Seq<u8> {
        self.bytes@
    }
}

impl View for G2Point {
    type V = Seq<u8>;

    /// The point's compressed encoding.
    closed spec fn view(&self) -> Seq<u8> {
        self.bytes@
    }
}

/// Calls `G1Affine::from_compressed` and reports whether it accepts the
/// bytes.
#[verifier::external_body]
fn g1_decodes(bytes: &[u8; 48]) -> (r: bool)
    ensures
        r == g1_valid(bytes@),
{
    bool::from(G1Affine::from_compressed(bytes).is_some())
}

/// Calls `G2Affine::from_compressed` and reports whether it accepts the
/// bytes.
#[verifier::external_body]
fn g2_decodes(bytes: &[u8; 96]) -> (r: bool)
    ensures
        r == g2_valid(bytes@),
{
    bool::from(G2Affine::from_compressed(bytes).is_some())
}

/// Calls `G1Projective::identity` and compresses it: the crate's own
/// test vectors show these bytes, a compressed point decodes, and the
/// identity is zero times the generator.
#[verifier::external_body]
fn g1_identity_encoding() -> (r: [u8; 48])
    ensures
        r@ == g1_identity_bytes(),
        g1_valid(r@),
        r@ == g1_mul(g1_generator_bytes(), 0),
{
    G1Affine::from(G1Projective::identity()).to_compressed()
}

/// Calls `G2Projective::identity` and compresses it; the identity is zero
/// times any point.
#[verifier::external_body]
fn g2_identity_encoding() -> (r: [u8; 96])
    ensures
        r@ == g2_identity_bytes(),
        g2_valid(r@),
        forall|p: Seq<u8>| g2_valid(p) ==> r@ == #[trigger] g2_mul(p, 0),
{
    G2Affine::from(G2Projective::identity()).to_compressed()
}

/// Calls `G1Projective::generator` and compresses it: the crate's own test
/// vectors show these bytes.
#[verifier::external_body]
fn g1_generator_encoding() -> (r: [u8; 48])
    ensures
        r@ == g1_generator_bytes(),
        g1_valid(r@),
{
    G1Affine::from(G1Projective::generator()).to_compressed()
}

/// Calls `Mul<Scalar>` on `G1Projective`; the result is named `g1_mul`.
/// As the group has prime order, a multiple of the generator times a
/// scalar is the generator times the product of the scalars.
#[verifier::external_body]
fn g1_mul_encoding(p: &G1Point, s: &Scalar) -> (r: [u8; 48])
    ensures
        r@ == g1_mul(p@, s@),
        g1_valid(r@),
        forall|c: nat| c < scalar_modulus() && p@ == #[trigger] g1_mul(g1_generator_bytes(), c)
            ==> r@ == g1_mul(g1_generator_bytes(), (c * s@) % scalar_modulus()),
{
    let point = G1Projective::from(G1Affine::from_compressed(&p.bytes).unwrap());
    let scalar = bls12_381::Scalar::from_bytes(&s.repr).unwrap();
    G1Affine::from(point * scalar).to_compressed()
}

/// Calls `Add` on `G1Projective`; the result is named `g1_add`. The sum of
/// two multiples of the generator is the generator times the sum of the
/// scalars.
#[verifier::external_body]
fn g1_add_encoding(a: &G1Point, b: &G1Point) -> (r: [u8; 48])
    ensures
        r@ == g1_add(a@, b@),
        g1_valid(r@),
        forall|c: nat, d: nat| c < scalar_modulus() && d < scalar_modulus()
            && a@ == #[trigger] g1_mul(g1_generator_bytes(), c) && b@ == #[trigger] g1_mul(g1_generator_bytes(), d)
            ==> r@ == g1_mul(g1_generator_bytes(), (c + d) % scalar_modulus()),
{
    let x = G1Projective::from(G1Affine::from_compressed(&a.bytes).unwrap());
    let y = G1Projective::from(G1Affine::from_compressed(&b.bytes).unwrap());
    G1Affine::from(x + y).to_compressed()
}

/// Calls `Mul<Scalar>` on `G2Projective`; the result is named `g2_mul`.
#[verifier::external_body]
fn g2_mul_encoding(p: &G2Point, s: &Scalar) -> (r: [u8; 96])
    ensures
        r@ == g2_mul(p@, s@),
        g2_valid(r@),
{
    let point = G2Projective::from(G2Affine::from_compressed(&p.bytes).unwrap());
    let scalar = bls12_381::Scalar::from_bytes(&s.repr).unwrap();
    G2Affine::from(point * scalar).to_compressed()
}

/// Calls `Add` on `G2Projective`; the result is named `g2_add`. As the
/// group has prime order, the sum of two multiples of a point is the point
/// times the sum of the scalars.
#[verifier::external_body]
fn g2_add_encoding(a: &G2Point, b: &G2Point) -> (r: [u8; 96])
    ensures
        r@ == g2_add(a@, b@),
        g2_valid(r@),
        forall|p: Seq<u8>, c: nat, d: nat| g2_valid(p) && c < scalar_modulus() && d < scalar_modulus()
            && a@ == #[trigger] g2_mul(p, c) && b@ == #[trigger] g2_mul(p, d)
            ==> r@ == g2_mul(p, (c + d) % scalar_modulus()),
{
    let x = G2Projective::from(G2Affine::from_compressed(&a.bytes).unwrap());
    let y = G2Projective::from(G2Affine::from_compressed(&b.bytes).unwrap());
    G2Affine::from(x + y).to_compressed()
}

impl G1Point {
    #[verifier::type_invariant]
    spec fn decodes(&self) -> bool {
        g1_valid(self.bytes@)
    }

    /// The point with the given compressed encoding, if it is one.
    pub fn from_compressed(bytes: &[u8; 48]) -> (r: Option<G1Point>)
        ensures
            r is Some <==> g1_valid(bytes@),
            r matches Some(p) ==> p@ == bytes@,
    {
        if g1_decodes(bytes) {
            Some(G1Point { bytes: *bytes })
        } else {
            None
        }
    }

    /// The compressed encoding.
    pub fn to_compressed(&self) -> (r: [u8; 48])
        ensures
            r@ == self@,
    {
        self.bytes
    }

    /// The identity.
    pub fn identity() -> (p: G1Point)
        ensures
            p@ == g1_identity_bytes(),
            p@ == g1_mul(g1_generator_bytes(), 0),
    {
        G1Point { bytes: g1_identity_encoding() }
    }

    /// The standard generator.
    pub fn generator() -> (p: G1Point)
        ensures
            p@ == g1_generator_bytes(),
    {
        G1Point { bytes: g1_generator_encoding() }
    }

    /// Scalar multiplication.
    pub fn mul(&self, s: &Scalar) -> (r: G1Point)
        ensures
            r@ == g1_mul(self@, s@),
            forall|c: nat| c < scalar_modulus() && self@ == #[trigger] g1_mul(g1_generator_bytes(), c)
                ==> r@ == g1_mul(g1_generator_bytes(), (c * s@) % scalar_modulus()),
    {
        G1Point { bytes: g1_mul_encoding(self, s) }
    }

    /// The group law.
    pub fn add(&self, other: &G1Point) -> (r: G1Point)
        ensures
            r@ == g1_add(self@, other@),
            forall|c: nat, d: nat| c < scalar_modulus() && d < scalar_modulus()
                && self@ == #[trigger] g1_mul(g1_generator_bytes(), c) && other@ == #[trigger] g1_mul(g1_generator_bytes(), d)
                ==> r@ == g1_mul(g1_generator_bytes(), (c + d) % scalar_modulus()),
    {
        G1Point { bytes: g1_add_encoding(self, other) }
    }
}

impl G2Point {
    #[verifier::type_invariant]
    spec fn decodes(&self) -> bool {
        g2_valid(self.bytes@)
    }

    /// The point with the given compressed encoding, if it is one.
    pub fn from_compressed(bytes: &[u8; 96]) -> (r: Option<G2Point>)
        ensures
            r is Some <==> g2_valid(bytes@),
            r matches Some(p) ==> p@ == bytes@,
    {
        if g2_decodes(bytes) {
            Some(G2Point { bytes: *bytes })
        } else {
            None
        }
    }

    /// The compressed encoding.
    pub fn to_compressed(&self) -> (r: [u8; 96])
        ensures
            r@ == self@,
    {
        self.bytes
    }

    /// The identity.
    pub fn identity() -> (p: G2Point)
        ensures
            p@ == g2_identity_bytes(),
            forall|q: Seq<u8>| g2_valid(q) ==> p@ == #[trigger] g2_mul(q, 0),
    {
        G2Point { bytes: g2_identity_encoding() }
    }

    /// Scalar multiplication.
    pub fn mul(&self, s: &Scalar) -> (r: G2Point)
        ensures
            r@ == g2_mul(self@, s@),
            g2_valid(self@),
    {
        proof {
            use_type_invariant(self);
        }
        G2Point { bytes: g2_mul_encoding(self, s) }
    }

    /// The group law.
    pub fn add(&self, other: &G2Point) -> (r: G2Point)
        ensures
            r@ == g2_add(self@, other@),
            forall|p: Seq<u8>, c: nat, d: nat| g2_valid(p) && c < scalar_modulus() && d < scalar_modulus()
                && self@ == #[trigger] g2_mul(p, c) && other@ == #[trigger] g2_mul(p, d)
                ==> r@ == g2_mul(p, (c + d) % scalar_modulus()),
    {
        G2Point { bytes: g2_add_encoding(self, other) }
    }
}

} // verus!
