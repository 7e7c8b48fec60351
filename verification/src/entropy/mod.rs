//! Genesis entropy: the operating system's random source, timing jitter,
//! the whitening gate that combines them, and the acceptance rules for
//! measured entropy.

pub mod hwrng;
pub mod jitter;
pub mod validation;
pub mod whitening;
