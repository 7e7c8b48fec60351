//! Reflexive Control Overlays: the verified core of the protocol's
//! serialization, consensus bookkeeping, entropy gate, enclave emulation,
//! holographic persistence, forensics, log audit and threshold
//! cryptography.

pub mod error;
pub mod bytes;
pub mod digest;
pub mod bencode;
pub mod consensus;
pub mod entropy;
pub mod enclave;
pub mod hpb;
pub mod forensics;
pub mod audit;
pub mod crypto;
pub mod bindings;
