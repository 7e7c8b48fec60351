//! Holographic persistence: the stretched Merkle forest with its backward
//! jump links, the compact persistence witness, and sparse auditing.

pub mod smf;
pub mod witness;
pub mod auditor;
