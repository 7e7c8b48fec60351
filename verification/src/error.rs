//! Error type and shared constants of the protocol.

use vstd::prelude::*;

verus! {

/// A 32-byte hash digest.
pub type HashDigest = [u8; 32];

/// Maximum nesting depth of a Bencode value: the root is at depth 0 and no
/// value may sit deeper than this.
pub const BENCODE_MAX_DEPTH: usize = 16;

/// Errors raised by the protocol's components.
#[derive(Debug, Clone, Copy, PartialEq, Eq)]
pub enum RcoError {
    /// The input does not follow the Bencode grammar.
    InvalidGrammar { offset: usize, detail: &'static str },
    /// An integer literal is malformed or out of range.
    InvalidInteger { offset: usize },
    /// A dictionary holds the same key twice.
    DuplicateKey,
    /// Dictionary keys are not in strictly ascending order.
    KeyOrderViolation,
    /// Values are nested deeper than the maximum depth.
    RecursionDepthExceeded { depth: usize },
    /// The output buffer cannot hold the encoding.
    BufferTooSmall { required: usize, available: usize },
    /// Measured entropy is below the acceptance threshold.
    InsufficientEntropy { measured_millibits: u32 },
    /// A write-ahead log could not be read or committed.
    WalCommitFailure,
}

} // verus!
