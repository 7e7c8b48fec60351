use rco::enclave::attestation::HardwareQuote;
use rco::enclave::closure::{SelfAttestingRoot, SovereignClosure};
use rco::enclave::dgq::{DecentralizedGovernanceQuorum, SecretFragment};
use rco::enclave::handshake::{GenesisHandshake, HardwareIdentity};
use rco::enclave::hardware::sev::SEVProvider;
use rco::enclave::hardware::sgx::SGXProvider;
use rco::enclave::hardware::{detect_tee, TEEType};
use rco::enclave::identity_export::IdentityExportController;
use rco::enclave::ie::{AttestationQuote, IEPoint, IngestionEnclave, IE_POINT_SIZE};
use rco::enclave::rte::RootOfTrustEnclave;
use rco::enclave::shunt::SecureShunt;
use rco::enclave::synthesis::HardwareBoundSynthesis;
use sha3::{Digest, Keccak256, Sha3_256};

fn sha3(data: &[u8]) -> [u8; 32] {
    Sha3_256::digest(data).into()
}

fn keccak(data: &[u8]) -> [u8; 32] {
    Keccak256::digest(data).into()
}

#[test]
fn test_quote_generation_and_verification() {
    let challenge = [0xCC; 32];
    let omega_rve = [0xAA; 32];
    let puf_key = [0x11; 32];

    let quote = HardwareQuote::generate(&challenge, &omega_rve, &puf_key);

    assert!(quote.verify(&challenge, &omega_rve));

    // Fails with wrong challenge (F-670 mitigation)
    let wrong_challenge = [0xDD; 32];
    assert!(!quote.verify(&wrong_challenge, &omega_rve));
}

#[test]
fn quote_fields_follow_the_hashes() {
    let challenge = [1u8; 32];
    let omega = [2u8; 32];
    let puf = [3u8; 32];
    let quote = HardwareQuote::generate(&challenge, &omega, &puf);
    let mut m = challenge.to_vec();
    m.extend_from_slice(&omega);
    let report = keccak(&m);
    assert_eq!(quote.report_data, report);
    let mut s = report.to_vec();
    s.extend_from_slice(&puf);
    let sig = keccak(&s);
    assert_eq!(&quote.signature[..32], &sig[..]);
    assert_eq!(&quote.signature[32..], &[0u8; 32][..]);
    assert_eq!(quote.mr_enclave, [0xEE; 32]);
    assert_eq!(quote.mr_signer, [0x55; 32]);
    let mut forged = quote.clone();
    forged.mr_signer = [0u8; 32];
    assert!(!forged.verify(&challenge, &omega));
}

#[test]
fn test_identity_migration_cycle() {
    let original_root = SelfAttestingRoot {
        root_hash: [0xAA; 32],
        signature: [0xBB; 64],
        timestamp: 123456789,
    };

    let exporter = IdentityExportController::new(original_root.clone());
    let package = exporter.export_sovereign_identity(3);

    let reassembled = IdentityExportController::reassemble_identity(&package);

    assert_eq!(reassembled.root_hash, original_root.root_hash);
    assert_eq!(reassembled.signature, original_root.signature);
    assert_ne!(reassembled.timestamp, original_root.timestamp); // Reset is expected
}

#[test]
fn export_masks_the_payload() {
    let root = SelfAttestingRoot { root_hash: [0u8; 32], signature: [0u8; 64], timestamp: 9 };
    let package = IdentityExportController::new(root).export_sovereign_identity(250);
    assert_eq!(package.payload.len(), 96);
    for (i, b) in package.payload.iter().enumerate() {
        assert_eq!(*b, 250u8.wrapping_add(i as u8));
    }
    assert_eq!(package.threshold, 250);
    assert_eq!(package.identity_id, sha3(&[0u8; 96]));
}

#[test]
fn test_ie_pruning() {
    let mut ie = IngestionEnclave::new();

    // Ingest 10 points, 2 landmarks
    for i in 0..10 {
        ie.ingest_step(IEPoint {
            step: i,
            state_hash: [i as u8; 32],
            is_landmark: i % 5 == 0,
        });
    }

    assert_eq!(ie.prm_memory.len(), 10);

    // Force prune
    ie.prune_prm();

    assert_eq!(ie.prm_memory.len(), 2);
    assert_eq!(ie.archived_points, 8);
}

#[test]
fn ie_attestation_checks_the_binary() {
    let quote = AttestationQuote { mrenclave: [7u8; 32], mrsigner: [0u8; 32], report_data: [0u8; 32] };
    assert!(quote.verify(&[7u8; 32]));
    assert!(!quote.verify(&[8u8; 32]));
}

#[test]
fn test_rte_initialization_and_binding() {
    let mut rte = RootOfTrustEnclave::new(0x8086).unwrap();
    let topo_root = [0xAA; 32];

    // Ensure omega_rve changes upon update
    let old_omega = rte.omega_rve;
    rte.update_manifold_root(&topo_root);
    assert_ne!(old_omega, rte.omega_rve);
}

#[test]
fn rte_binding_is_keyed_by_the_puf() {
    let mut rte = RootOfTrustEnclave::new(1).unwrap();
    let root = [0x10u8; 32];
    rte.update_manifold_root(&root);
    let key = rte.identity.derive_hardware_key(b"RCO_MANIFOLD_BINDING");
    let mut expected_key = rte.identity.puf_key.to_vec();
    expected_key.extend_from_slice(b"RCO_MANIFOLD_BINDING");
    assert_eq!(key, keccak(&expected_key));
    let mut m = key.to_vec();
    m.extend_from_slice(&root);
    assert_eq!(rte.omega_rve, keccak(&m));
}

#[test]
fn test_shunt_isolation() {
    let mut shunt = SecureShunt::new();

    let root = [0xBB; 32];
    shunt.rte_write_root(&root);

    // Host should fail to read the RTE register (C-501 requirement)
    let result = shunt.host_read_rte_root();
    assert!(result.is_err());
}

#[test]
fn shunt_passes_the_challenge_through() {
    let mut shunt = SecureShunt::new();
    assert_eq!(shunt.enclave_read_challenge(), [0u8; 32]);
    shunt.host_write_challenge(&[0x3C; 32]);
    assert_eq!(shunt.enclave_read_challenge(), [0x3C; 32]);
}

#[test]
fn closure_root_and_audit() {
    let mut closure = SovereignClosure::new();
    assert_eq!(closure.get_sovereignty_level(), 5);
    let state = [1.5f64, -2.0];
    let bits: Vec<u64> = state.iter().map(|v| v.to_bits()).collect();
    let root = closure.generate_self_attesting_root(&bits);
    let mut m = b"RCO-SOVEREIGN-CLOSURE-v4".to_vec();
    for v in state {
        m.extend_from_slice(&v.to_be_bytes());
    }
    assert_eq!(root, sha3(&m));
    assert_eq!(closure.recursive_root, root);
    assert!(closure.audit_invariance(&root));
    assert_eq!(closure.get_sovereignty_level(), 10);
    assert!(!closure.audit_invariance(&[0u8; 32]));
    assert_eq!(closure.get_sovereignty_level(), 5);
}

#[test]
fn quorum_reconstructs_by_xor() {
    let q = DecentralizedGovernanceQuorum::new(2, 3);
    let f = |i: u8, d: u8| SecretFragment { index: i, data: [d; 32] };
    assert_eq!(q.reconstruct_truth(vec![f(1, 0x0F)]), None);
    assert_eq!(q.reconstruct_truth(vec![f(1, 0x0F), f(2, 0xF0)]), Some([0xFF; 32]));
    assert_eq!(q.reconstruct_truth(vec![f(1, 0x0F), f(2, 0xF0), f(3, 0xFF)]), Some([0u8; 32]));
}

#[test]
fn quorum_proofs_and_reset() {
    let q = DecentralizedGovernanceQuorum::new(1, 1);
    let proof = b"proof";
    assert!(q.verify_rpot(&sha3(proof), proof));
    assert!(!q.verify_rpot(&[0u8; 32], proof));
    let a = [1u8; 32];
    let b = [2u8; 32];
    let mut m = a.to_vec();
    m.extend_from_slice(&b);
    assert_eq!(q.aggregate_hyper_proofs(vec![a, b]), sha3(&m));
    let mut current = [9u8; 32];
    q.causal_reset(&mut current, &[4u8; 32]);
    assert_eq!(current, [4u8; 32]);
}

#[test]
fn handshake_admission() {
    let h = GenesisHandshake::new();
    assert_eq!(h.server_nonce, [0x42; 32]);
    let quote = AttestationQuote { mrenclave: [5u8; 32], mrsigner: [0u8; 32], report_data: [0u8; 32] };
    let id = HardwareIdentity { bios_uuid: String::from("uuid-1"), mrenclave: [5u8; 32] };
    assert!(h.perform_handshake(&id, &quote));
    let nameless = HardwareIdentity { bios_uuid: String::new(), mrenclave: [5u8; 32] };
    assert!(!h.perform_handshake(&nameless, &quote));
    let other = HardwareIdentity { bios_uuid: String::from("uuid-2"), mrenclave: [6u8; 32] };
    assert!(!h.perform_handshake(&other, &quote));
}

#[test]
fn tee_detection_and_reports() {
    assert_eq!(detect_tee(), TEEType::Emulator);
    let sev = SEVProvider.generate_report(b"abc");
    let mut want = b"AMD_SEV_SNP_REPORT_V1abc".to_vec();
    want.resize(1024, 0);
    assert_eq!(sev, want);
    let sgx = SGXProvider.generate_report(b"abc");
    let mut want = b"SGX_REPORT_V1abc".to_vec();
    want.resize(432, 0);
    assert_eq!(sgx, want);
}

#[test]
fn synthesis_outputs() {
    let s = HardwareBoundSynthesis::new();
    assert_eq!(s.evolutionary_generation, 0);
    let e = s.get_hardware_entropy();
    for i in 0..32 {
        assert_eq!(e[i], i as u8);
    }
    let state = [8u8; 32];
    let mut m = state.to_vec();
    m.extend_from_slice(&1.0f64.to_be_bytes());
    m.extend_from_slice(&0u64.to_be_bytes());
    assert_eq!(s.attest_physical_invariance(&state), sha3(&m));
    let mut m = b"RCO-AUTONOMOUS-IDENTITY-v4".to_vec();
    m.extend_from_slice(&state);
    assert_eq!(s.generate_autonomous_identity(&state), sha3(&m));
    assert_eq!(s.synthesize_multi_cluster(&[]), sha3(&[]));
}

#[test]
fn entropy_pool_mixing() {
    let mut rte = RootOfTrustEnclave::new(7).unwrap();
    let before = rte.entropy_pool;
    let fresh = [0x0Fu8; 32];
    rte.mix_into_pool(&fresh);
    for i in 0..32 {
        assert_eq!(rte.entropy_pool[i], before[i] ^ 0x0F);
    }
    let identity_key = rte.identity.puf_key;
    rte.mix_entropy().unwrap();
    assert_eq!(rte.identity.puf_key, identity_key);
}

#[test]
fn sgx_identity_holds_the_sealing_key() {
    let id = SGXProvider.get_identity();
    let mut expected = [0u8; 32];
    expected[..8].copy_from_slice(b"INTELSGX");
    assert_eq!(id.puf_key, expected);
    assert_eq!(id.manufacturer_cert_id, 0x8086);
}

#[test]
fn ie_point_size_matches_the_layout() {
    assert_eq!(std::mem::size_of::<IEPoint>(), IE_POINT_SIZE);
}
