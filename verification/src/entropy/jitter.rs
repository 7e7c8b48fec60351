//! Entropy from timing jitter: the time taken by a fixed mixing workload is
//! sampled repeatedly and the samples are condensed through Keccak-256.

use vstd::prelude::*;
use std::time::{Duration, SystemTime, SystemTimeError};
use crate::bytes::{u64_le, u64_to_le_bytes};
use crate::digest::{keccak256, keccak256_digest};

verus! {

/// Number of timing samples taken.
pub const JITTER_ITERATIONS: usize = 256;

/// Number of mixing rounds in one timed workload.
pub const MIX_ROUNDS: u64 = 64;

/// The system clock's time point.
#[verifier::external_type_specification]
#[verifier::external_body]
pub struct ExSystemTime(SystemTime);

/// The error of a time difference taken against a later time point.
#[verifier::external_type_specification]
#[verifier::external_body]
pub struct ExSystemTimeError(SystemTimeError);

/// Calls `std::time::SystemTime::now`. The time read is not claimed to be
/// anything.
#[verifier::external_body]
fn system_now() -> (t: SystemTime) {
    SystemTime::now()
}

/// Calls `SystemTime::duration_since` against `std::time::UNIX_EPOCH`: the
/// time elapsed since the epoch, or an error for a time before it. Nothing
/// is claimed of either.
#[verifier::external_body]
fn since_unix_epoch(t: &SystemTime) -> (r: Result<Duration, SystemTimeError>) {
    t.duration_since(std::time::UNIX_EPOCH)
}

/// Calls `Duration::as_nanos`: the whole number of nanoseconds of a
/// duration, which Verus cannot see inside; nothing is claimed of it.
#[verifier::external_body]
fn duration_nanos(d: &Duration) -> (n: u128) {
    d.as_nanos()
}

/// Nanoseconds since the Unix epoch, truncated to 64 bits; 0 when the clock
/// reads a time before the epoch.
fn read_timestamp_counter() -> (t: u64) {
    match since_unix_epoch(&system_now()) {
        Ok(d) => duration_nanos(&d) as u64,
        Err(_) => 0,
    }
}

/// One round of the mixing workload: a 64-bit linear congruential step
/// followed by an xor with a right shift of the state.
pub open spec fn mix_round(acc: u64, j: u64) -> u64 {
    let a = acc.wrapping_mul(6364136223846793005u64).wrapping_add(1442695040888963407u64);
    a ^ (a >> (j % 32))
}

/// The state after the first `n` rounds of the workload, starting at `acc`.
pub open spec fn mix_rounds(acc: u64, n: nat) -> u64
    decreases n,
{
    if n == 0 {
        acc
    } else {
        mix_round(mix_rounds(acc, (n - 1) as nat), (n - 1) as u64)
    }
}

/// The workload's result for sample `i`.
pub open spec fn jitter_accumulator(i: u64) -> u64 {
    mix_rounds(i, MIX_ROUNDS as nat)
}

/// The bytes hashed for a series of timing deltas: for each sample, the
/// delta and then the workload's result, both little-endian.
pub open spec fn jitter_transcript(deltas: Seq<u64>) -> Seq<u8>
    decreases deltas.len(),
{
    if deltas.len() == 0 {
        Seq::empty()
    } else {
        jitter_transcript(deltas.drop_last()) + u64_le(deltas.last())
            + u64_le(jitter_accumulator((deltas.len() - 1) as u64))
    }
}

/// Runs the mixing workload for sample `i`.
pub fn jitter_workload(i: u64) -> (r: u64)
    ensures
        r == jitter_accumulator(i),
{
    let mut acc: u64 = i;
    let mut j: u64 = 0;
    while j < MIX_ROUNDS
        invariant
            j <= MIX_ROUNDS,
            acc == mix_rounds(i, j as nat),
        decreases MIX_ROUNDS - j,
    {
        acc = acc.wrapping_mul(6364136223846793005u64).wrapping_add(1442695040888963407u64);
        acc = acc ^ (acc >> (j % 32));
        j = j + 1;
    }
    acc
}

/// The jitter digest of a series of timing deltas.
pub fn jitter_digest(deltas: &[u64]) -> (r: [u8; 32])
    requires
        deltas@.len() < u64::MAX,
    ensures
        r@ == keccak256_digest(jitter_transcript(deltas@)),
{
    let mut transcript: Vec<u8> = Vec::new();
    let mut i: usize = 0;
    while i < deltas.len()
        invariant
            0 <= i <= deltas@.len(),
            deltas@.len() < u64::MAX,
            transcript@ == jitter_transcript(deltas@.subrange(0, i as int)),
        decreases deltas.len() - i,
    {
        let acc = jitter_workload(i as u64);
        let d = u64_to_le_bytes(deltas[i]);
        let a = u64_to_le_bytes(acc);
        transcript.extend_from_slice(d.as_slice());
        transcript.extend_from_slice(a.as_slice());
        proof {
            let next = deltas@.subrange(0, i + 1);
            assert(next.drop_last() =~= deltas@.subrange(0, i as int));
        }
        i = i + 1;
    }
    assert(deltas@.subrange(0, i as int) =~= deltas@);
    keccak256(transcript.as_slice())
}

/// Collects 32 bytes of jitter entropy: times the mixing workload
/// `JITTER_ITERATIONS` times and hashes the deltas with the workload's
/// results.
pub fn collect_jitter_entropy() -> (r: [u8; 32])
    ensures
        exists|deltas: Seq<u64>| deltas.len() == JITTER_ITERATIONS
            && r@ == keccak256_digest(jitter_transcript(deltas)),
{
    let mut deltas: Vec<u64> = Vec::new();
    let mut i: usize = 0;
    while i < JITTER_ITERATIONS
        invariant
            0 <= i <= JITTER_ITERATIONS,
            deltas@.len() == i,
        decreases JITTER_ITERATIONS - i,
    {
        let before = read_timestamp_counter();
        let _workload = jitter_workload(i as u64);
        let after = read_timestamp_counter();
        let delta = after.wrapping_sub(before);
        deltas.push(delta);
        i = i + 1;
    }
    jitter_digest(deltas.as_slice())
}

} // verus!
