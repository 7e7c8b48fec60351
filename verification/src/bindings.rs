//! What the foreign-function interface computes: the sovereignty code of
//! the detected trusted execution environment, and the split of 128-bit
//! projections into two 64-bit halves.

use vstd::prelude::*;
use crate::enclave::hardware::{detect_tee, TEEType};

verus! {

/// The sovereignty code of a TEE: 1 for hardware enclaves, 0 for the
/// emulator.
pub open spec fn sovereignty_code(t: TEEType) -> i32 {
    match t {
        TEEType::SGX | TEEType::SEV => 1,
        TEEType::Emulator => 0,
    }
}

/// The sovereignty code of the detected TEE.
pub fn rco_verify_hardware_sovereignty() -> (code: i32)
    ensures
        code == sovereignty_code(TEEType::Emulator),
{
    match detect_tee() {
        TEEType::SGX | TEEType::SEV => 1,
        TEEType::Emulator => 0,
    }
}

/// Splits a 128-bit value into its high and low 64-bit halves, each read as
/// a two's-complement `i64`: `high * 2^64 + (low as u64) == value`.
pub fn split_i128(value: i128) -> (halves: (i64, i64))
    ensures
        halves.0 as int * 0x1_0000_0000_0000_0000 + (halves.1 as u64) as int == value as int,
{
    let high = (value >> 64u32) as i64;
    let low = (value & 0xFFFF_FFFF_FFFF_FFFFi128) as i64;
    assert(((value >> 64u32) as i64) as int * 0x1_0000_0000_0000_0000 + (((value & 0xFFFF_FFFF_FFFF_FFFFi128) as i64) as u64) as int == value as int) by (bit_vector);
    (high, low)
}

} // verus!
