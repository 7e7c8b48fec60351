//! Acceptance rules for measured entropy: the threshold, the windows that
//! are measured, and the verdict on a series of measurements.
//!
//! The Shannon entropy itself is a floating-point quantity and is measured
//! outside this library; here are the byte frequencies it is computed from
//! and every decision taken on its result.

use vstd::prelude::*;
use crate::error::RcoError;

verus! {

/// Minimum acceptable Shannon entropy in millibits per byte (7.99 bits per
/// byte).
pub const MIN_ENTROPY_MILLIBITS: u32 = 7990;

/// Number of occurrences of byte `b` in `data`.
pub open spec fn byte_count(data: Seq<u8>, b: u8) -> nat
    decreases data.len(),
{
    if data.len() == 0 {
        0
    } else {
        byte_count(data.drop_last(), b) + if data.last() == b { 1nat } else { 0nat }
    }
}

proof fn lemma_byte_count_bound(data: Seq<u8>, b: u8)
    ensures
        byte_count(data, b) <= data.len(),
    decreases data.len(),
{
    if data.len() > 0 {
        lemma_byte_count_bound(data.drop_last(), b);
    }
}

/// The frequency of each byte value in `data`: entry `b` counts the
/// occurrences of `b`.
pub fn byte_histogram(data: &[u8]) -> (freq: Vec<u32>)
    requires
        data@.len() <= u32::MAX,
    ensures
        freq@.len() == 256,
        forall|b: int| 0 <= b < 256 ==> freq@[b] == byte_count(data@, b as u8),
{
    let mut freq: Vec<u32> = vec![0u32; 256];
    let mut i: usize = 0;
    while i < data.len()
        invariant
            0 <= i <= data@.len(),
            data@.len() <= u32::MAX,
            freq@.len() == 256,
            forall|b: int| 0 <= b < 256 ==> freq@[b] == byte_count(data@.subrange(0, i as int), b as u8),
        decreases data.len() - i,
    {
        let byte = data[i];
        proof {
            let prefix = data@.subrange(0, i + 1);
            assert(prefix.drop_last() =~= data@.subrange(0, i as int));
            lemma_byte_count_bound(data@.subrange(0, i as int), byte);
        }
        let idx = byte as usize;
        freq.set(idx, freq[idx] + 1);
        proof {
            assert forall|b: int| 0 <= b < 256 implies freq@[b] == byte_count(data@.subrange(0, i + 1), b as u8) by {
                let prefix = data@.subrange(0, i + 1);
                assert(prefix.drop_last() =~= data@.subrange(0, i as int));
                assert(prefix.last() == byte);
                assert((b as u8 == byte) == (b == idx));
            }
        }
        i = i + 1;
    }
    assert(data@.subrange(0, i as int) =~= data@);
    freq
}

/// The verdict on one measurement, in millibits per byte.
pub open spec fn verdict(measured: u32) -> Result<(), RcoError> {
    if measured < MIN_ENTROPY_MILLIBITS {
        Err(RcoError::InsufficientEntropy { measured_millibits: measured })
    } else {
        Ok(())
    }
}

/// Accepts a measurement of at least `MIN_ENTROPY_MILLIBITS`; rejects any
/// other as insufficient entropy, carrying the measurement.
pub fn entropy_verdict(measured_millibits: u32) -> (r: Result<(), RcoError>)
    ensures
        r == verdict(measured_millibits),
{
    if measured_millibits < MIN_ENTROPY_MILLIBITS {
        Err(RcoError::InsufficientEntropy { measured_millibits })
    } else {
        Ok(())
    }
}

/// The byte ranges `(start, end)` measured when validating a buffer of
/// `len` bytes with windows of `window_size` bytes: the whole buffer when it
/// is shorter than one window, otherwise every window, from the first.
pub open spec fn windows(len: nat, window_size: nat) -> Seq<(usize, usize)> {
    if len < window_size {
        seq![(0usize, len as usize)]
    } else {
        Seq::new((len - window_size + 1) as nat, |i: int| (i as usize, (i + window_size) as usize))
    }
}

/// The ranges measured by windowed validation of a buffer of `len` bytes.
pub fn entropy_windows(len: usize, window_size: usize) -> (r: Vec<(usize, usize)>)
    requires
        window_size > 0,
    ensures
        r@ == windows(len as nat, window_size as nat),
{
    let mut r: Vec<(usize, usize)> = Vec::new();
    if len < window_size {
        r.push((0, len));
        assert(r@ =~= windows(len as nat, window_size as nat));
        return r;
    }
    let count = len - window_size + 1;
    let mut i: usize = 0;
    while i < count
        invariant
            count == len - window_size + 1,
            window_size <= len,
            0 <= i <= count,
            r@ =~= windows(len as nat, window_size as nat).subrange(0, i as int),
        decreases count - i,
    {
        r.push((i, i + window_size));
        i = i + 1;
    }
    assert(windows(len as nat, window_size as nat).subrange(0, i as int) =~= windows(len as nat, window_size as nat));
    r
}

/// The verdict on a series of measurements: the verdict on the first one
/// that fails, or acceptance when none does.
pub open spec fn series_verdict(measurements: Seq<u32>) -> Result<(), RcoError>
    decreases measurements.len(),
{
    if measurements.len() == 0 {
        Ok(())
    } else if measurements[0] < MIN_ENTROPY_MILLIBITS {
        verdict(measurements[0])
    } else {
        series_verdict(measurements.drop_first())
    }
}

/// Judges the measurements of all windows in order, stopping at the first
/// insufficient one.
pub fn windowed_verdict(measurements: &[u32]) -> (r: Result<(), RcoError>)
    ensures
        r == series_verdict(measurements@),
        r is Ok <==> forall|i: int| 0 <= i < measurements@.len() ==> measurements@[i] >= MIN_ENTROPY_MILLIBITS,
{
    let mut i: usize = 0;
    assert(measurements@.subrange(0, measurements@.len() as int) =~= measurements@);
    while i < measurements.len()
        invariant
            0 <= i <= measurements@.len(),
            forall|k: int| 0 <= k < i ==> measurements@[k] >= MIN_ENTROPY_MILLIBITS,
            series_verdict(measurements@) == series_verdict(measurements@.subrange(i as int, measurements@.len() as int)),
        decreases measurements.len() - i,
    {
        let m = measurements[i];
        proof {
            let rest = measurements@.subrange(i as int, measurements@.len() as int);
            assert(rest[0] == m);
            assert(rest.drop_first() =~= measurements@.subrange(i + 1, measurements@.len() as int));
        }
        if m < MIN_ENTROPY_MILLIBITS {
            return entropy_verdict(m);
        }
        i = i + 1;
    }
    proof {
        assert(measurements@.subrange(i as int, measurements@.len() as int) =~= Seq::<u32>::empty());
    }
    Ok(())
}

} // verus!
