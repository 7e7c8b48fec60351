//! AMD SEV provider.

use vstd::prelude::*;
use crate::enclave::rte::HardwareIdentity;
use crate::enclave::hardware::{build_report, padded_report};

verus! {

/// AMD Secure Encrypted Virtualization.
pub struct SEVProvider;

/// Marker of an SEV-SNP report.
pub open spec fn sev_report_marker() -> Seq<u8> {
    seq![65u8, 77, 68, 95, 83, 69, 86, 95, 83, 78, 80, 95, 82, 69, 80, 79, 82, 84, 95, 86, 49]
}

/// The platform chip identifier: `AMDSEV` followed by zeros.
pub open spec fn psp_chip_id() -> Seq<u8> {
    seq![65u8, 77, 68, 83, 69, 86] + Seq::new(26, |i: int| 0u8)
}

impl SEVProvider {
    /// The hardware identity bound to the platform's chip identifier.
    pub fn get_identity(&self) -> (id: HardwareIdentity)
        ensures
            id.puf_key@ == psp_chip_id(),
            id.manufacturer_cert_id == 0x1022,
    {
        HardwareIdentity { puf_key: self.get_psp_chip_id(), manufacturer_cert_id: 0x1022 }
    }

    /// An SEV-SNP report of 1024 bytes carrying `data`.
    pub fn generate_report(&self, data: &[u8]) -> (r: Vec<u8>)
        ensures
            r@ == padded_report(sev_report_marker(), data@, 1024),
    {
        let marker: Vec<u8> = vec![65, 77, 68, 95, 83, 69, 86, 95, 83, 78, 80, 95, 82, 69, 80, 79, 82, 84, 95, 86, 49];
        assert(marker@ =~= sev_report_marker());
        build_report(marker.as_slice(), data, 1024)
    }

    fn get_psp_chip_id(&self) -> (id: [u8; 32])
        ensures
            id@ == psp_chip_id(),
    {
        let mut id = [0u8; 32];
        id[0] = 65;
        id[1] = 77;
        id[2] = 68;
        id[3] = 83;
        id[4] = 69;
        id[5] = 86;
        assert(id@ =~= psp_chip_id());
        id
    }
}

} // verus!
