use rco::forensics::audit::AuditSentinel;
use rco::forensics::signatures::{evaluate_forensics, ForensicAlert};
use rco::forensics::tda::{BettiNumbers, TdaEngine};
use sha2::{Digest, Sha256};

#[test]
fn test_tfs01_forensic_manifold_detection() {
    // Baseline: b0=1, b1=0
    let engine = TdaEngine::new(BettiNumbers { b0: 1, b1: 0 });

    // Simulate normal telemetry
    let normal_window = vec![vec![0.1f64, 0.2]];
    assert_eq!(evaluate_forensics(&engine, &normal_window), None);

    // Simulate anomaly F-61 (TdaPersistentStasis) by injecting a large distance in the mock engine.
    let anomalous_engine = TdaEngine::new(BettiNumbers { b0: 5, b1: 0 }); // d_b will be 4.0 > 2.0
    let alert = evaluate_forensics(&anomalous_engine, &normal_window);
    assert_eq!(alert, Some(ForensicAlert::TdaPersistentStasis));
}

#[test]
fn bottleneck_is_the_larger_difference() {
    let engine = TdaEngine::new(BettiNumbers { b0: 1, b1: 7 });
    assert_eq!(engine.bottleneck_distance(&BettiNumbers { b0: 4, b1: 6 }), 3);
    assert_eq!(engine.bottleneck_distance(&BettiNumbers { b0: 1, b1: 0 }), 7);
    let empty: Vec<u8> = Vec::new();
    let b = engine.evaluate_manifold(&empty);
    assert_eq!((b.b0, b.b1), (1, 0));
}

#[test]
fn stasis_threshold_is_strict() {
    let at_limit = TdaEngine::new(BettiNumbers { b0: 3, b1: 0 });
    assert_eq!(evaluate_forensics(&at_limit, &[0u8; 0]), None);
    let beyond = TdaEngine::new(BettiNumbers { b0: 1, b1: 3 });
    assert_eq!(evaluate_forensics(&beyond, &[0u8; 0]), Some(ForensicAlert::TdaPersistentStasis));
}

#[test]
fn finality_chain() {
    assert!(!AuditSentinel::verify_path_of_finality(&[]));
    let step = [3u8; 32];
    let mut m = vec![0u8; 32];
    m.extend_from_slice(&step);
    let root: [u8; 32] = Sha256::digest(&m).into();
    assert_ne!(root, [0u8; 32]);
    assert!(AuditSentinel::verify_path_of_finality(&[step]));
    assert!(AuditSentinel::verify_path_of_finality(&[step, [0u8; 32], step]));
}
