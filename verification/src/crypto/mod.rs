//! Threshold cryptography over BLS12-381: the scalar field and the two
//! groups held as canonical encodings, Shamir secret sharing, Feldman
//! commitments for key generation, and signature aggregation.

pub mod field;
pub mod group;
pub mod sss;
pub mod dkg;
pub mod bls;
pub mod interpolation;
