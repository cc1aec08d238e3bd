use halo2curves::bn256::{Fr, G1Affine, G1};
use halo2curves::ff::Field;
use halo2curves::group::prime::PrimeCurveAffine;
use halo2curves::group::GroupEncoding;
use plonk_verifier::field::{batch_invert, EcPoint, Scalar};

fn fr(v: u64) -> Scalar {
    Scalar::from_u64(v)
}

fn from_fr(f: Fr) -> Scalar {
    Scalar::from_bytes(f.to_bytes()).unwrap()
}

fn generator() -> EcPoint {
    let b: [u8; 32] = G1Affine::generator().to_bytes().into();
    EcPoint::from_bytes(b).unwrap()
}

#[test]
fn scalar_arithmetic_exact_values() {
    assert_eq!(fr(2).add(&fr(3)), fr(5));
    assert_eq!(fr(2).mul(&fr(3)), fr(6));
    assert_eq!(fr(7).sub(&fr(3)), fr(4));
    assert_eq!(fr(3).neg().add(&fr(3)), fr(0));
    assert_eq!(fr(0).sub(&fr(1)), from_fr(-Fr::ONE));
    assert_eq!(fr(5).to_bytes()[0], 5);
}

#[test]
fn scalar_from_bytes_rejects_non_canonical() {
    assert!(Scalar::from_bytes([0xff; 32]).is_none());
    let mut b = [0u8; 32];
    b[0] = 9;
    assert_eq!(Scalar::from_bytes(b).unwrap(), fr(9));
}

#[test]
fn scalar_from_uniform_bytes_reduces() {
    let mut b = [0u8; 64];
    b[0] = 42;
    assert_eq!(Scalar::from_uniform_bytes(&b), fr(42));
}

#[test]
fn invert_of_zero_is_none() {
    assert!(fr(0).invert().is_none());
    let inv = fr(2).invert().unwrap();
    assert_eq!(inv.mul(&fr(2)), fr(1));
}

#[test]
fn batch_invert_matches_single_inversions() {
    let values = vec![fr(2), fr(3), fr(5), fr(7), fr(1), fr(123456789)];
    let batch = batch_invert(&values).unwrap();
    assert_eq!(batch.len(), values.len());
    for (v, b) in values.iter().zip(batch.iter()) {
        assert_eq!(v.invert().unwrap(), *b);
    }
}

#[test]
fn batch_invert_with_zero_fails() {
    let values = vec![fr(2), fr(0), fr(5)];
    assert!(batch_invert(&values).is_none());
    assert_eq!(batch_invert(&Vec::new()).unwrap().len(), 0);
}

#[test]
fn point_arithmetic_matches_curve() {
    let g = generator();
    let two_g = g.add(&g);
    let expected: [u8; 32] = (G1::generator() * Fr::from(2u64)).to_bytes().into();
    assert_eq!(two_g.to_bytes(), expected);
    assert_eq!(g.mul(&fr(2)).to_bytes(), expected);
    assert!(EcPoint::from_bytes([0xff; 32]).is_none());
}
