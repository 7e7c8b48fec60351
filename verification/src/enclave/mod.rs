//! Emulation of the recursive verification enclaves: the ingestion enclave,
//! the root-of-trust enclave, the shunt between them, attestation, and the
//! governance and identity logic built on top.

pub mod closure;
pub mod dgq;
pub mod ie;
pub mod handshake;
pub mod attestation;
pub mod rte;
pub mod hardware;
pub mod identity_export;
pub mod shunt;
pub mod synthesis;
pub mod oracle;
pub mod routing;
