use rco::hpb::auditor::Auditor;
use rco::hpb::smf::{verify_node, SmfNode, SmfStore};
use rco::hpb::witness::PersistenceWitness;
use sha3::{Digest, Keccak256};
use std::time::Instant;
use rand::{Rng, SeedableRng};

fn keccak(data: &[u8]) -> [u8; 32] {
    Keccak256::digest(data).into()
}

#[test]
fn bench_hpb_sparsity() {
    // Benchmark HPB-SPARSITY (M-701): < 500ms verification for 10^5 steps
    let mut store = SmfStore::new();
    let n = 10_000; // Scaled down for local unit test speed, simulating O(log N)

    for i in 0..n {
        let hash = [(i % 256) as u8; 32];
        store.append(i, hash);
    }

    let auditor = Auditor::new(store);

    let k = (128.0 * (n as f64).log10()) as usize;

    let start = Instant::now();
    let valid = auditor.verify_sparse(n - 1, k);
    let elapsed = start.elapsed();

    assert!(valid);
    println!("HPB Sparse Verification latency: {:?}", elapsed);
    assert!(elapsed.as_millis() < 500, "Verification took too long!");
}

#[test]
fn append_links_back_by_powers_of_two() {
    let mut store = SmfStore::new();
    let r0 = store.append(0, [0u8; 32]);
    assert_eq!(r0, keccak(&[0u8; 32]));
    let r1 = store.append(1, [1u8; 32]);
    let mut m = vec![1u8; 32];
    m.extend_from_slice(&r0);
    assert_eq!(r1, keccak(&m));
    let r2 = store.append(2, [2u8; 32]);
    let mut m = vec![2u8; 32];
    m.extend_from_slice(&r1);
    m.extend_from_slice(&r0);
    assert_eq!(r2, keccak(&m));
    let r3 = store.append(3, [3u8; 32]);
    let mut m = vec![3u8; 32];
    m.extend_from_slice(&r2);
    m.extend_from_slice(&r1);
    assert_eq!(r3, keccak(&m));
    let node = store.get(3).unwrap();
    assert_eq!(node.index, 3);
    assert_eq!(node.jump_links, vec![r2, r1]);
    assert!(verify_node(node));
}

#[test]
fn append_skips_missing_targets() {
    let mut store = SmfStore::new();
    let r4 = store.append(4, [4u8; 32]);
    let r5 = store.append(5, [5u8; 32]);
    let mut m = vec![5u8; 32];
    m.extend_from_slice(&r4);
    assert_eq!(r5, keccak(&m));
    assert!(store.get(3).is_none());
}

#[test]
fn tampered_node_fails_verification() {
    let node = SmfNode { index: 0, batch_hash: [1u8; 32], root_hash: [0u8; 32], jump_links: vec![] };
    assert!(!verify_node(&node));
    let good = SmfNode { index: 0, batch_hash: [1u8; 32], root_hash: keccak(&[1u8; 32]), jump_links: vec![] };
    assert!(verify_node(&good));
}

#[test]
fn sparse_audit_edge_cases() {
    let mut store = SmfStore::new();
    store.append(0, [9u8; 32]);
    store.append(5, [9u8; 32]);
    let auditor = Auditor::new(store);
    assert!(auditor.verify_sparse(0, 10));
    assert!(!auditor.verify_sparse(3, 1));
    assert!(auditor.verify_sparse(5, 0));
    // Every index below 5 but 0 is missing; with many samples one is drawn.
    assert!(!auditor.verify_sparse(5, 64));
}

#[test]
fn witness_folds_samples() {
    let mut w = PersistenceWitness::new();
    assert_eq!(w.aggregate_root, [0u8; 32]);
    assert_eq!(w.sample_count, 0);
    w.accumulate([7u8; 32]);
    let mut m = vec![0u8; 32];
    m.extend_from_slice(&[7u8; 32]);
    let expected = keccak(&m);
    assert_eq!(w.aggregate_root, expected);
    assert_eq!(w.sample_count, 1);
    let bytes = w.to_bytes();
    let mut want = expected.to_vec();
    want.extend_from_slice(&1usize.to_le_bytes());
    assert_eq!(bytes, want);
}

#[test]
fn sparse_audit_draws_from_the_latest_root() {
    // Nodes 0..=9, but 2 and 6 are missing.
    let mut store = SmfStore::new();
    for i in 0..10u64 {
        if i != 2 && i != 6 {
            store.append(i, [i as u8; 32]);
        }
    }
    let latest_root = store.get(9).unwrap().root_hash;
    let auditor = Auditor::new(store);
    for k in 0..40usize {
        let mut rng = rand_chacha::ChaCha8Rng::from_seed(latest_root);
        let expected = (0..k).all(|_| {
            let idx: u64 = rng.gen_range(0..9u64);
            idx != 2 && idx != 6
        });
        assert_eq!(auditor.verify_sparse(9, k), expected, "k = {}", k);
    }
    assert!(auditor.check_sample(3));
    assert!(!auditor.check_sample(2));
    assert!(!auditor.check_sample(42));
}

#[test]
fn audit_of_an_appended_store() {
    let n = 50u64;
    let mut store = SmfStore::new();
    for i in 0..n {
        store.append(i, [(i * 7 % 256) as u8; 32]);
    }
    let auditor = Auditor::new(store);
    for k in [0usize, 1, 16, 200] {
        assert!(auditor.verify_sparse(n - 1, k));
        assert!(auditor.verify_sparse(0, k));
        assert!(!auditor.verify_sparse(n, 1));
        assert!(!auditor.verify_sparse(n + 10, k));
    }
}
