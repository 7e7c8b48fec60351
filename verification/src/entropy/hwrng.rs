//! The hardware random number source, through the operating system.

use vstd::prelude::*;
use crate::error::RcoError;

verus! {

/// The error type of `getrandom`.
#[verifier::external_type_specification]
#[verifier::external_body]
pub struct ExGetrandomError(getrandom::Error);

/// Calls `getrandom::fill`, which fills `buf` with bytes from the operating
/// system's random source or reports an error. The bytes are random: of
/// the outcome only the buffer's unchanged length is claimed.
#[verifier::external_body]
fn os_fill(buf: &mut [u8]) -> (r: Result<(), getrandom::Error>)
    ensures
        final(buf)@.len() == old(buf)@.len(),
{
    getrandom::fill(buf)
}

/// The error raised when the operating system's random source fails.
pub open spec fn source_failure() -> RcoError {
    RcoError::InsufficientEntropy { measured_millibits: 0 }
}

/// Fills `buf` with random bytes from the operating system. A failure of
/// the source is reported as insufficient entropy with a measurement of 0.
pub fn fill_hardware_entropy(buf: &mut [u8]) -> (r: Result<(), RcoError>)
    ensures
        final(buf)@.len() == old(buf)@.len(),
        r matches Err(e) ==> e == source_failure(),
{
    match os_fill(buf) {
        Ok(()) => Ok(()),
        Err(_) => Err(RcoError::InsufficientEntropy { measured_millibits: 0 }),
    }
}

/// The result of a 32-byte draw from the fill's outcome and the buffer it
/// filled: the bytes when the fill succeeded, its error otherwise.
pub fn hwrng_outcome(fill: Result<(), RcoError>, bytes: [u8; 32]) -> (r: Result<[u8; 32], RcoError>)
    ensures
        fill is Ok ==> r == Ok::<[u8; 32], RcoError>(bytes),
        fill matches Err(e) ==> r == Err::<[u8; 32], RcoError>(e),
{
    match fill {
        Ok(()) => Ok(bytes),
        Err(e) => Err(e),
    }
}

/// Draws 32 random bytes from the operating system: the buffer that the
/// source filled, or its failure.
pub fn generate_hwrng_32() -> (r: Result<[u8; 32], RcoError>)
    ensures
        r matches Err(e) ==> e == source_failure(),
{
    let mut buf = [0u8; 32];
    let fill = fill_hardware_entropy(&mut buf);
    hwrng_outcome(fill, buf)
}

} // verus!
