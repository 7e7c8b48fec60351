//! Intel SGX provider.

use vstd::prelude::*;
use crate::enclave::hardware::{build_report, padded_report};
use crate::enclave::rte::HardwareIdentity;

verus! {

/// Intel Software Guard Extensions.
pub struct SGXProvider;

/// Marker of an SGX report.
pub open spec fn sgx_report_marker() -> Seq<u8> {
    seq![83u8, 71, 88, 95, 82, 69, 80, 79, 82, 84, 95, 86, 49]
}

/// The sealing key standing in for `EGETKEY`: the marker `INTELSGX`
/// followed by zeros, 32 bytes in all.
pub open spec fn sgx_sealing_key() -> Seq<u8> {
    seq![73u8, 78, 84, 69, 76, 83, 71, 88] + Seq::new(24, |i: int| 0u8)
}

impl SGXProvider {
    /// The sealing key standing in for the `EGETKEY` instruction.
    fn derive_egetkey_mock(&self) -> (key: [u8; 32])
        ensures
            key@ == sgx_sealing_key(),
    {
        let mut key = [0u8; 32];
        let marker: [u8; 8] = [73, 78, 84, 69, 76, 83, 71, 88];
        let mut i: usize = 0;
        while i < 8
            invariant
                0 <= i <= 8,
                marker@ == seq![73u8, 78, 84, 69, 76, 83, 71, 88],
                forall|k: int| 0 <= k < i ==> key@[k] == marker@[k],
                forall|k: int| i <= k < 32 ==> key@[k] == 0,
            decreases 8 - i,
        {
            key[i] = marker[i];
            i = i + 1;
        }
        assert(key@ =~= sgx_sealing_key());
        key
    }

    /// The hardware identity: the sealing key and Intel's manufacturer
    /// identifier.
    pub fn get_identity(&self) -> (id: HardwareIdentity)
        ensures
            id.puf_key@ == sgx_sealing_key(),
            id.manufacturer_cert_id == 0x8086,
    {
        HardwareIdentity { puf_key: self.derive_egetkey_mock(), manufacturer_cert_id: 0x8086 }
    }

    /// An SGX report of 432 bytes carrying `data`.
    pub fn generate_report(&self, data: &[u8]) -> (r: Vec<u8>)
        ensures
            r@ == padded_report(sgx_report_marker(), data@, 432),
    {
        let marker: Vec<u8> = vec![83, 71, 88, 95, 82, 69, 80, 79, 82, 84, 95, 86, 49];
        assert(marker@ =~= sgx_report_marker());
        build_report(marker.as_slice(), data, 432)
    }
}

} // verus!
