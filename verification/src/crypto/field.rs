//! The scalar field of BLS12-381. A scalar is held as its canonical
//! little-endian encoding; the arithmetic is done by the `bls12_381` crate.

use vstd::prelude::*;
pub use crate::bytes::le_value;
use vstd::arithmetic::div_mod::{lemma_small_mod, lemma_mul_mod_noop_right, lemma_mul_mod_noop_left};
use vstd::arithmetic::mul::{lemma_mul_is_associative, lemma_mul_is_commutative};

verus! {

/// The order of the scalar field.
pub open spec fn scalar_modulus() -> nat {
    0x73eda753299d7d483339d80809a1d80553bda402fffe5bfeffffffff00000001nat
}

/// An element of the scalar field, held as its canonical encoding.
#[derive(Clone, Copy, Debug, PartialEq, Eq)]
pub struct Scalar {
    pub(crate) repr: [u8; 32],
}

impl View for Scalar {
    type V = nat;

    /// The field element's value, below the modulus.
    closed spec fn view(&self) -> nat {
        le_value(self.repr@)
    }
}

/// Sum in the field.
pub open spec fn field_add(a: nat, b: nat) -> nat {
    (a + b) % scalar_modulus()
}

/// Difference in the field.
pub open spec fn field_sub(a: nat, b: nat) -> nat {
    ((a - b) % (scalar_modulus() as int)) as nat
}

/// Product in the field.
pub open spec fn field_mul(a: nat, b: nat) -> nat {
    (a * b) % scalar_modulus()
}

/// Negation in the field.
pub open spec fn field_neg(a: nat) -> nat {
    ((0 - a) % (scalar_modulus() as int)) as nat
}

/// Whether `b` is a multiplicative inverse of `a` in the field.
pub open spec fn is_inverse(a: nat, b: nat) -> bool {
    b < scalar_modulus() && (a * b) % scalar_modulus() == 1
}

/// The multiplicative inverse of `a`, where it has one.
pub open spec fn field_inv(a: nat) -> nat {
    choose|b: nat| is_inverse(a, b)
}

/// Calls `bls12_381::Scalar::from_bytes`, which accepts exactly the
/// canonical encodings: those of a value below the modulus.
#[verifier::external_body]
fn canonical_encoding(bytes: &[u8; 32]) -> (r: bool)
    ensures
        r == (le_value(bytes@) < scalar_modulus()),
{
    bool::from(bls12_381::Scalar::from_bytes(bytes).is_some())
}

/// Calls `bls12_381::Scalar::from(u64)`: claimed to encode the integer.
#[verifier::external_body]
fn encode_u64(v: u64) -> (r: [u8; 32])
    ensures
        le_value(r@) == v as nat % scalar_modulus(),
{
    bls12_381::Scalar::from(v).to_bytes()
}

/// Calls `bls12_381::Scalar::from_bytes_wide`, which reads 64 bytes as a
/// little-endian integer and reduces it by the modulus; the result is
/// returned in its canonical encoding (`to_bytes`).
#[verifier::external_body]
fn encode_wide(bytes: &[u8; 64]) -> (r: [u8; 32])
    ensures
        le_value(r@) == le_value(bytes@) % scalar_modulus(),
{
    bls12_381::Scalar::from_bytes_wide(bytes).to_bytes()
}

/// Calls `Add` on `bls12_381::Scalar`: claimed to be addition modulo the
/// field order.
#[verifier::external_body]
fn encode_add(a: &Scalar, b: &Scalar) -> (r: [u8; 32])
    ensures
        le_value(r@) == field_add(a@, b@),
{
    (bls12_381::Scalar::from_bytes(&a.repr).unwrap() + bls12_381::Scalar::from_bytes(&b.repr).unwrap()).to_bytes()
}

/// Calls `Sub` on `bls12_381::Scalar`: claimed to be subtraction modulo the
/// field order.
#[verifier::external_body]
fn encode_sub(a: &Scalar, b: &Scalar) -> (r: [u8; 32])
    ensures
        le_value(r@) == field_sub(a@, b@),
{
    (bls12_381::Scalar::from_bytes(&a.repr).unwrap() - bls12_381::Scalar::from_bytes(&b.repr).unwrap()).to_bytes()
}

/// Calls `Mul` on `bls12_381::Scalar`: claimed to be multiplication modulo
/// the field order.
#[verifier::external_body]
fn encode_mul(a: &Scalar, b: &Scalar) -> (r: [u8; 32])
    ensures
        le_value(r@) == field_mul(a@, b@),
{
    (bls12_381::Scalar::from_bytes(&a.repr).unwrap() * bls12_381::Scalar::from_bytes(&b.repr).unwrap()).to_bytes()
}

/// Calls `Neg` on `bls12_381::Scalar`: claimed to be negation modulo the
/// field order.
#[verifier::external_body]
fn encode_neg(a: &Scalar) -> (r: [u8; 32])
    ensures
        le_value(r@) == field_neg(a@),
{
    (-bls12_381::Scalar::from_bytes(&a.repr).unwrap()).to_bytes()
}

/// Calls `bls12_381::Scalar::invert`, which fails exactly on zero and
/// otherwise returns the multiplicative inverse.
#[verifier::external_body]
fn encode_inverse(a: &Scalar) -> (r: Option<[u8; 32]>)
    ensures
        r is Some <==> a@ % scalar_modulus() != 0,
        r matches Some(v) ==> is_inverse(a@, le_value(v@)),
{
    let inv = bls12_381::Scalar::from_bytes(&a.repr).unwrap().invert();
    if bool::from(inv.is_some()) {
        Some(inv.unwrap().to_bytes())
    } else {
        None
    }
}

impl Scalar {
    #[verifier::type_invariant]
    spec fn canonical(&self) -> bool {
        le_value(self.repr@) < scalar_modulus()
    }

    /// The scalar with the given canonical encoding.
    fn from_encoding(repr: [u8; 32]) -> (s: Scalar)
        requires
            le_value(repr@) < scalar_modulus(),
        ensures
            s@ == le_value(repr@),
    {
        Scalar { repr }
    }

    /// The value of a scalar lies below the modulus.
    pub fn value_below_modulus(&self)
        ensures
            self@ < scalar_modulus(),
    {
        proof {
            use_type_invariant(self);
        }
    }

    /// The scalar of the integer `v`.
    pub fn from_u64(v: u64) -> (s: Scalar)
        ensures
            s@ == v as nat,
    {
        let repr = encode_u64(v);
        proof {
            assert(v as nat <= 0xffff_ffff_ffff_ffffnat);
            lemma_small_mod(v as nat, scalar_modulus());
        }
        Scalar::from_encoding(repr)
    }

    /// Zero.
    pub fn zero() -> (s: Scalar)
        ensures
            s@ == 0,
    {
        Scalar::from_u64(0)
    }

    /// One.
    pub fn one() -> (s: Scalar)
        ensures
            s@ == 1,
    {
        Scalar::from_u64(1)
    }

    /// The scalar of a 512-bit little-endian integer, reduced by the modulus.
    pub fn from_bytes_wide(bytes: &[u8; 64]) -> (s: Scalar)
        ensures
            s@ == le_value(bytes@) % scalar_modulus(),
    {
        Scalar::from_encoding(encode_wide(bytes))
    }

    /// The scalar with the given little-endian encoding, if it is canonical.
    pub fn from_bytes(bytes: &[u8; 32]) -> (r: Option<Scalar>)
        ensures
            r is Some <==> le_value(bytes@) < scalar_modulus(),
            r matches Some(s) ==> s@ == le_value(bytes@),
    {
        if canonical_encoding(bytes) {
            Some(Scalar::from_encoding(*bytes))
        } else {
            None
        }
    }

    /// The canonical little-endian encoding.
    pub fn to_bytes(&self) -> (r: [u8; 32])
        ensures
            le_value(r@) == self@,
    {
        self.repr
    }

    /// Field addition.
    pub fn add(&self, other: &Scalar) -> (r: Scalar)
        ensures
            r@ == field_add(self@, other@),
    {
        Scalar::from_encoding(encode_add(self, other))
    }

    /// Field subtraction.
    pub fn sub(&self, other: &Scalar) -> (r: Scalar)
        ensures
            r@ == field_sub(self@, other@),
    {
        Scalar::from_encoding(encode_sub(self, other))
    }

    /// Field multiplication.
    pub fn mul(&self, other: &Scalar) -> (r: Scalar)
        ensures
            r@ == field_mul(self@, other@),
    {
        Scalar::from_encoding(encode_mul(self, other))
    }

    /// Field negation.
    pub fn neg(&self) -> (r: Scalar)
        ensures
            r@ == field_neg(self@),
    {
        Scalar::from_encoding(encode_neg(self))
    }

    /// The multiplicative inverse; none for zero.
    pub fn invert(&self) -> (r: Option<Scalar>)
        ensures
            r is Some <==> self@ != 0,
            r matches Some(i) ==> is_inverse(self@, i@) && i@ == field_inv(self@),
    {
        proof {
            use_type_invariant(self);
            lemma_small_mod(self@, scalar_modulus());
        }
        match encode_inverse(self) {
            Some(v) => {
                let i = Scalar::from_encoding(v);
                proof {
                    lemma_inverse_unique(self@, i@);
                }
                Some(i)
            }
            None => None,
        }
    }
}

/// A field element has at most one inverse.
pub proof fn lemma_inverse_unique(a: nat, b: nat)
    requires
        is_inverse(a, b),
    ensures
        field_inv(a) == b,
{
    let q = scalar_modulus();
    let c = field_inv(a);
    assert(is_inverse(a, c));
    // b = b * (a * c) = (b * a) * c = c, all modulo q.
    assert((b * ((a * c) % q)) % q == (b * (a * c)) % q) by {
        lemma_mul_mod_noop_right(b as int, (a * c) as int, q as int);
    }
    assert(b * (a * c) == (b * a) * c) by {
        lemma_mul_is_associative(b as int, a as int, c as int);
    }
    assert((((b * a) % q) * c) % q == ((b * a) * c) % q) by {
        lemma_mul_mod_noop_left((b * a) as int, c as int, q as int);
    }
    assert(b * a == a * b) by {
        lemma_mul_is_commutative(a as int, b as int);
    }
    lemma_small_mod(b, q);
    lemma_small_mod(c, q);
}

} // verus!
