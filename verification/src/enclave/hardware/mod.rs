//! Hardware inversion layer: the trusted execution environments the enclave
//! can run on.

pub mod sgx;
pub mod sev;

use vstd::prelude::*;

verus! {

/// Supported trusted execution environments.
#[derive(Debug, Clone, Copy, PartialEq, Eq, Structural)]
pub enum TEEType {
    /// Intel Software Guard Extensions.
    SGX,
    /// AMD Secure Encrypted Virtualization.
    SEV,
    /// Software emulation.
    Emulator,
}

/// The best TEE of this build. No hardware TEE is configured, so it is the
/// software emulator.
pub fn detect_tee() -> (t: TEEType)
    ensures
        t == TEEType::Emulator,
{
    TEEType::Emulator
}

/// A hardware report: the marker, then the data, cut or zero-padded to `size` bytes.
pub open spec fn padded_report(marker: Seq<u8>, data: Seq<u8>, size: nat) -> Seq<u8> {
    let body = marker + data;
    if body.len() >= size {
        body.subrange(0, size as int)
    } else {
        body + Seq::new((size - body.len()) as nat, |i: int| 0u8)
    }
}

/// Builds a report of `size` bytes from a marker and the report data.
pub fn build_report(marker: &[u8], data: &[u8], size: usize) -> (r: Vec<u8>)
    ensures
        r@ == padded_report(marker@, data@, size as nat),
{
    let mut report: Vec<u8> = Vec::new();
    report.extend_from_slice(marker);
    report.extend_from_slice(data);
    let ghost body = report@;
    assert(body == marker@ + data@);
    if report.len() >= size {
        report.truncate(size);
    } else {
        while report.len() < size
            invariant
                report@.len() <= size,
                report@.subrange(0, body.len() as int) == body,
                body.len() <= report@.len(),
                forall|k: int| body.len() <= k < report@.len() ==> report@[k] == 0u8,
            decreases size - report.len(),
        {
            report.push(0u8);
        }
        assert(report@ =~= padded_report(marker@, data@, size as nat));
    }
    report
}

} // verus!
