use rco::entropy::hwrng::{fill_hardware_entropy, generate_hwrng_32};
use rco::entropy::jitter::{collect_jitter_entropy, jitter_digest, jitter_workload, JITTER_ITERATIONS};
use rco::entropy::validation::{byte_histogram, entropy_verdict, entropy_windows, windowed_verdict, MIN_ENTROPY_MILLIBITS};
use rco::entropy::whitening::{generate_deterministic_entropy, generate_genesis_entropy, whiten_sources};
use rco::error::RcoError;
use sha3::{Digest, Keccak256};

fn keccak(data: &[u8]) -> [u8; 32] {
    Keccak256::digest(data).into()
}

/// Shannon entropy in millibits per byte, from the library's histogram.
fn measured_millibits(data: &[u8]) -> u32 {
    if data.is_empty() {
        return 0;
    }
    let n = data.len() as f64;
    let mut entropy: f64 = 0.0;
    for &count in &byte_histogram(data) {
        if count > 0 {
            let p = count as f64 / n;
            entropy -= p * p.log2();
        }
    }
    (entropy * 1000.0) as u32
}

#[test]
fn test_hwrng_produces_bytes() {
    let buf = generate_hwrng_32().unwrap();
    // High probability that all-zeros won't be produced
    assert_ne!(buf, [0u8; 32], "HRNG produced all zeros (entropy failure)");
}

#[test]
fn test_hwrng_produces_unique() {
    let a = generate_hwrng_32().unwrap();
    let b = generate_hwrng_32().unwrap();
    assert_ne!(a, b, "Two HRNG calls should produce different output");
}

#[test]
fn test_fill_partial_buffer() {
    let mut buf = [0u8; 8];
    fill_hardware_entropy(&mut buf).unwrap();
    assert_ne!(buf, [0u8; 8]);
}

#[test]
fn test_jitter_produces_bytes() {
    let entropy = collect_jitter_entropy();
    assert_ne!(entropy, [0u8; 32], "Jitter collector produced all zeros");
}

#[test]
fn test_jitter_produces_unique() {
    let a = collect_jitter_entropy();
    let b = collect_jitter_entropy();
    assert_ne!(a, b, "Two jitter collections should differ");
}

#[test]
fn test_jitter_not_trivially_patterned() {
    let entropy = collect_jitter_entropy();
    // Check that at least 16 of 32 bytes are non-zero
    let nonzero_count = entropy.iter().filter(|&&b| b != 0).count();
    assert!(
        nonzero_count >= 16,
        "Jitter entropy has too many zero bytes: {nonzero_count}/32"
    );
}

#[test]
fn jitter_workload_matches_the_mixing_rounds() {
    for i in [0u64, 1, 255] {
        let mut acc: u64 = i;
        for j in 0..64u64 {
            acc = acc.wrapping_mul(6364136223846793005).wrapping_add(1442695040888963407);
            acc ^= acc >> (j % 32);
        }
        assert_eq!(jitter_workload(i), acc);
    }
}

#[test]
fn jitter_digest_hashes_deltas_with_workloads() {
    let deltas = [5u64, 0, 1 << 40];
    let mut transcript = Vec::new();
    for (i, d) in deltas.iter().enumerate() {
        transcript.extend_from_slice(&d.to_le_bytes());
        transcript.extend_from_slice(&jitter_workload(i as u64).to_le_bytes());
    }
    assert_eq!(jitter_digest(&deltas), keccak(&transcript));
    assert_eq!(jitter_digest(&[]), keccak(&[]));
    assert_eq!(JITTER_ITERATIONS, 256);
}

#[test]
fn test_validate_windowed_rejects_local_pattern() {
    // Global entropy might be OK, but a 32-byte window of constants fails
    let mut data = [0u8; 256];
    for (i, byte) in data.iter_mut().enumerate() {
        *byte = i as u8;
    }
    // Poison a 32-byte region with constants
    for byte in data[100..132].iter_mut() {
        *byte = 0xAA;
    }
    let measurements: Vec<u32> = entropy_windows(data.len(), 32)
        .iter()
        .map(|&(start, end)| measured_millibits(&data[start..end]))
        .collect();
    let result = windowed_verdict(&measurements);
    assert!(result.is_err());
}

#[test]
fn histogram_counts_each_byte() {
    let mut data = [0u8; 32];
    for byte in data[16..].iter_mut() {
        *byte = 0xFF;
    }
    let freq = byte_histogram(&data);
    assert_eq!(freq.len(), 256);
    assert_eq!(freq[0], 16);
    assert_eq!(freq[0xFF], 16);
    assert_eq!(freq.iter().map(|&c| c as usize).sum::<usize>(), 32);
    assert!(byte_histogram(&[]).iter().all(|&c| c == 0));
}

#[test]
fn histogram_feeds_the_reference_measurements() {
    let mut uniform = [0u8; 256];
    for (i, byte) in uniform.iter_mut().enumerate() {
        *byte = i as u8;
    }
    assert_eq!(measured_millibits(&uniform), 8000);
    assert_eq!(measured_millibits(&[0x42u8; 32]), 0);
    let mut two = [0u8; 32];
    for byte in two[16..].iter_mut() {
        *byte = 0xFF;
    }
    assert_eq!(measured_millibits(&two), 1000);
}

#[test]
fn verdict_follows_the_threshold() {
    assert_eq!(MIN_ENTROPY_MILLIBITS, 7990);
    assert_eq!(entropy_verdict(7990), Ok(()));
    assert_eq!(entropy_verdict(8000), Ok(()));
    assert_eq!(
        entropy_verdict(7989),
        Err(RcoError::InsufficientEntropy { measured_millibits: 7989 })
    );
    assert_eq!(
        entropy_verdict(0),
        Err(RcoError::InsufficientEntropy { measured_millibits: 0 })
    );
}

#[test]
fn windows_cover_every_offset() {
    assert_eq!(entropy_windows(10, 32), vec![(0, 10)]);
    assert_eq!(entropy_windows(0, 1), vec![(0, 0)]);
    assert_eq!(entropy_windows(4, 2), vec![(0, 2), (1, 3), (2, 4)]);
    assert_eq!(entropy_windows(32, 32), vec![(0, 32)]);
}

#[test]
fn windowed_verdict_reports_the_first_failure() {
    assert_eq!(windowed_verdict(&[]), Ok(()));
    assert_eq!(windowed_verdict(&[8000, 7990]), Ok(()));
    assert_eq!(
        windowed_verdict(&[8000, 100, 50]),
        Err(RcoError::InsufficientEntropy { measured_millibits: 100 })
    );
}

#[test]
fn whitening_combines_sources() {
    let hrng = [0x11u8; 32];
    let jitter = [0x22u8; 32];
    let aux = b"salt";
    let aux_hash = keccak(aux);
    let mut xored = Vec::new();
    for i in 0..32 {
        xored.push(hrng[i] ^ jitter[i] ^ aux_hash[i]);
    }
    assert_eq!(whiten_sources(&hrng, &jitter, aux), keccak(&xored));

    // An empty auxiliary input contributes the digest of the empty string.
    let empty_hash = keccak(b"");
    let mut xored = Vec::new();
    for i in 0..32 {
        xored.push(hrng[i] ^ jitter[i] ^ empty_hash[i]);
    }
    assert_eq!(whiten_sources(&hrng, &jitter, b""), keccak(&xored));
    assert_ne!(whiten_sources(&hrng, &jitter, b""), whiten_sources(&hrng, &jitter, aux));
}

#[test]
fn test_generate_genesis_entropy() {
    let entropy = generate_genesis_entropy(b"test_salt").unwrap();
    assert_ne!(entropy, [0u8; 32], "Genesis entropy must not be all zeros");
}

#[test]
fn test_generate_genesis_entropy_no_aux() {
    let entropy = generate_genesis_entropy(b"").unwrap();
    assert_ne!(entropy, [0u8; 32]);
}

#[test]
fn test_genesis_entropy_unique() {
    let a = generate_genesis_entropy(b"salt_a").unwrap();
    let b = generate_genesis_entropy(b"salt_b").unwrap();
    assert_ne!(a, b, "Different salts should produce different entropy");
}

#[test]
fn test_genesis_entropy_same_salt_differs() {
    // Even with the same salt, HRNG + jitter should produce different output
    let a = generate_genesis_entropy(b"same_salt").unwrap();
    let b = generate_genesis_entropy(b"same_salt").unwrap();
    assert_ne!(
        a, b,
        "Same salt with different HRNG/jitter should produce different entropy"
    );
}

#[test]
fn test_deterministic_entropy() {
    let a = generate_deterministic_entropy(b"seed");
    let b = generate_deterministic_entropy(b"seed");
    assert_eq!(a, b, "Deterministic entropy must be reproducible");
    assert_eq!(a, keccak(b"seed"));
}

#[test]
fn test_deterministic_entropy_different_seeds() {
    let a = generate_deterministic_entropy(b"seed_a");
    let b = generate_deterministic_entropy(b"seed_b");
    assert_ne!(a, b);
}
