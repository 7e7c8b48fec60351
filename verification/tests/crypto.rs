use bls12_381::{G1Affine, G1Projective, G2Affine, G2Projective};
use rco::crypto::bls::{aggregate_public_shares, aggregate_signatures, PrivateShare};
use rco::crypto::dkg::{generate_commitments, verify_share};
use rco::crypto::field::Scalar;
use rco::crypto::group::{G1Point, G2Point};
use rco::crypto::sss::{evaluate_polynomial, reconstruct_secret, split_secret};
use rand::{thread_rng, RngCore, SeedableRng};
use std::time::Instant;

/// 64 bytes from a random generator, as `Field::random` draws them.
fn random_block<R: RngCore>(rng: &mut R) -> [u8; 64] {
    let mut buf = [0u8; 64];
    rng.fill_bytes(&mut buf);
    buf
}

/// A random scalar drawn from `rng`, as `Field::random` draws one.
fn random_scalar<R: RngCore>(rng: &mut R) -> Scalar {
    Scalar::from_bytes_wide(&random_block(rng))
}

/// The `t - 1` random blocks that `split_secret` turns into coefficients.
fn random_blocks<R: RngCore>(rng: &mut R, t: usize) -> Vec<[u8; 64]> {
    (1..t).map(|_| random_block(rng)).collect()
}

fn to_bls(s: &Scalar) -> bls12_381::Scalar {
    bls12_381::Scalar::from_bytes(&s.to_bytes()).unwrap()
}

#[test]
fn test_split_and_reconstruct() {
    let mut rng = thread_rng();
    let secret = random_scalar(&mut rng);
    let n = 12;
    let t = 8;

    let shares = split_secret(secret, t, n, &random_blocks(&mut rng, t));
    assert_eq!(shares.len(), n);

    // Take first t shares
    let subset = &shares[0..t];
    let reconstructed = reconstruct_secret(subset);
    assert_eq!(secret, reconstructed);

    // Take last t shares
    let subset2 = &shares[n - t..n];
    let reconstructed2 = reconstruct_secret(subset2);
    assert_eq!(secret, reconstructed2);
}

#[test]
fn bench_srrs_reconstruction() {
    // SRRS Benchmark (M-401): <15ms reconstruction latency for t=8, n=12
    let mut rng = thread_rng();
    let secret = random_scalar(&mut rng);
    let n = 12;
    let t = 8;

    let shares = split_secret(secret, t, n, &random_blocks(&mut rng, t));
    let subset = &shares[0..t];

    let start = Instant::now();
    let reconstructed = reconstruct_secret(subset);
    let elapsed = start.elapsed();

    assert_eq!(secret, reconstructed);
    println!("SRRS Reconstruction latency: {:?}", elapsed);
    assert!(elapsed.as_millis() < 15, "Reconstruction took too long!");
}

#[test]
fn field_arithmetic_matches_the_curve_crate() {
    let a = Scalar::from_u64(7);
    let b = Scalar::from_u64(12);
    assert_eq!(to_bls(&a.add(&b)), bls12_381::Scalar::from(19u64));
    assert_eq!(to_bls(&b.sub(&a)), bls12_381::Scalar::from(5u64));
    assert_eq!(to_bls(&a.sub(&b)), -bls12_381::Scalar::from(5u64));
    assert_eq!(to_bls(&a.mul(&b)), bls12_381::Scalar::from(84u64));
    assert_eq!(to_bls(&a.neg()), -bls12_381::Scalar::from(7u64));
    let inv = a.invert().unwrap();
    assert_eq!(a.mul(&inv), Scalar::one());
    assert!(Scalar::zero().invert().is_none());
    assert!(Scalar::from_bytes(&[0xff; 32]).is_none());
    let mut one = [0u8; 32];
    one[0] = 1;
    assert_eq!(Scalar::from_bytes(&one), Some(Scalar::one()));
}

#[test]
fn polynomial_evaluation() {
    let coeffs = [Scalar::from_u64(3), Scalar::from_u64(2), Scalar::from_u64(1)];
    // 3 + 2x + x^2 at x = 5 is 38
    assert_eq!(evaluate_polynomial(&coeffs, &Scalar::from_u64(5)), Scalar::from_u64(38));
    assert_eq!(evaluate_polynomial(&[], &Scalar::from_u64(5)), Scalar::zero());
}

#[test]
fn shares_are_numbered_from_one() {
    let secret = Scalar::from_u64(99);
    let shares = split_secret(secret, 1, 3, &[]);
    for (i, (x, y)) in shares.iter().enumerate() {
        assert_eq!(*x, Scalar::from_u64(i as u64 + 1));
        assert_eq!(*y, secret);
    }
}

#[test]
fn generator_and_identity_encodings() {
    assert_eq!(G1Point::generator().to_compressed(), G1Affine::generator().to_compressed());
    assert_eq!(G1Point::identity().to_compressed(), G1Affine::identity().to_compressed());
    assert_eq!(G2Point::identity().to_compressed(), G2Affine::identity().to_compressed());
    assert!(G1Point::from_compressed(&[0u8; 48]).is_none());
}

#[test]
fn feldman_share_check() {
    let coeffs = [Scalar::from_u64(11), Scalar::from_u64(4), Scalar::from_u64(9)];
    let commitments = generate_commitments(&coeffs);
    assert_eq!(commitments.len(), 3);
    let x = Scalar::from_u64(2);
    let y = evaluate_polynomial(&coeffs, &x);
    assert!(verify_share(&x, &y, &commitments));
    assert!(!verify_share(&x, &y.add(&Scalar::one()), &commitments));
    let expected = G1Affine::from(G1Projective::generator() * bls12_381::Scalar::from(11u64)).to_compressed();
    assert_eq!(commitments[0].0.to_compressed(), expected);
}

#[test]
fn signature_aggregation() {
    let msg = G2Point::from_compressed(&G2Affine::generator().to_compressed()).unwrap();
    let a = PrivateShare(Scalar::from_u64(3));
    let b = PrivateShare(Scalar::from_u64(5));
    let agg = aggregate_signatures(&[a.sign(&msg), b.sign(&msg)]);
    let expected = G2Affine::from(G2Projective::generator() * bls12_381::Scalar::from(8u64)).to_compressed();
    assert_eq!(agg.0.to_compressed(), expected);
    let pk = aggregate_public_shares(&[a.public_share(), b.public_share()]);
    let expected = G1Affine::from(G1Projective::generator() * bls12_381::Scalar::from(8u64)).to_compressed();
    assert_eq!(pk.0.to_compressed(), expected);
    assert_eq!(aggregate_signatures(&[]).0.to_compressed(), G2Affine::identity().to_compressed());
    let _ = PrivateShare::random(&random_block(&mut thread_rng())).public_share();
}

#[test]
fn scalar_from_wide_bytes_reduces_by_the_modulus() {
    // The modulus plus five, as a 64-byte little-endian integer.
    let mut wide = [0u8; 64];
    let low: [u8; 32] = [
        6, 0, 0, 0, 255, 255, 255, 255, 254, 91, 254, 255, 2, 164, 189, 83, 5, 216, 161, 9, 8, 216, 57, 51,
        72, 125, 157, 41, 83, 167, 237, 115,
    ];
    wide[..32].copy_from_slice(&low);
    assert_eq!(Scalar::from_bytes_wide(&wide), Scalar::from_u64(5));
    let mut small = [0u8; 64];
    small[0] = 42;
    assert_eq!(Scalar::from_bytes_wide(&small), Scalar::from_u64(42));
    assert_eq!(Scalar::from_bytes_wide(&[0u8; 64]), Scalar::zero());
}

#[test]
fn random_scalars_are_canonical_and_differ() {
    let mut rng = thread_rng();
    let a = random_scalar(&mut rng);
    let b = random_scalar(&mut rng);
    assert!(Scalar::from_bytes(&a.to_bytes()).is_some());
    assert_ne!(a, b);
}

#[test]
fn split_secret_matches_field_random_on_the_same_stream() {
    let secret = Scalar::from_u64(1234);
    let t = 4;
    let n = 6;
    // The library's coefficients from the generator's blocks ...
    let mut rng = rand_chacha::ChaCha8Rng::seed_from_u64(7);
    let shares = split_secret(secret, t, n, &random_blocks(&mut rng, t));
    // ... are those that `Field::random` draws from the same stream.
    let mut rng = rand_chacha::ChaCha8Rng::seed_from_u64(7);
    let mut coeffs = vec![to_bls(&secret)];
    for _ in 1..t {
        coeffs.push(<bls12_381::Scalar as ff::Field>::random(&mut rng));
    }
    for (i, (x, y)) in shares.iter().enumerate() {
        let xb = bls12_381::Scalar::from(i as u64 + 1);
        let mut acc = bls12_381::Scalar::zero();
        for c in coeffs.iter().rev() {
            acc = acc * xb + c;
        }
        assert_eq!(to_bls(x), xb);
        assert_eq!(to_bls(y), acc);
    }
    assert_eq!(PrivateShare::random(&[0u8; 64]).0, Scalar::zero());
}
