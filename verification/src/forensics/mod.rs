//! Forensics: the hash chain behind the path of finality, the Betti-number
//! baseline of the telemetry manifold, and the alerts raised against it.

pub mod audit;
pub mod tda;
pub mod signatures;
