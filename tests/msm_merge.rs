use halo2curves::bn256::{Fr, G1Affine, G1};
use halo2curves::group::prime::PrimeCurveAffine;
use halo2curves::group::GroupEncoding;
use plonk_verifier::field::{EcPoint, Scalar};
use plonk_verifier::msm::Msm;
use plonk_verifier::strategy::Accumulator;

fn fr(v: u64) -> Scalar {
    Scalar::from_u64(v)
}

fn generator() -> EcPoint {
    let b: [u8; 32] = G1Affine::generator().to_bytes().into();
    EcPoint::from_bytes(b).unwrap()
}

fn point(k: u64) -> EcPoint {
    generator().mul(&fr(k))
}

fn g_times(k: u64) -> [u8; 32] {
    (G1::generator() * Fr::from(k)).to_bytes().into()
}

#[test]
fn msm_evaluates_linear_combination() {
    let g = generator();
    let m = Msm::base(point(3)).scale(&fr(2)).add(&Msm::scalar(fr(5)));
    // 2 * (3g) + 5g = 11g
    assert_eq!(m.evaluate(&g).to_bytes(), g_times(11));
    let sum = Msm::sum(&vec![Msm::base(point(1)), Msm::base(point(4)), Msm::scalar(fr(2))]);
    assert_eq!(sum.evaluate(&g).to_bytes(), g_times(7));
    assert_eq!(Msm::zero().add(&Msm::scalar(fr(1))).evaluate(&g).to_bytes(), g_times(1));
}

#[test]
fn accumulator_merge_is_associative() {
    let g = generator();
    let a1 = Accumulator::new(Msm::base(point(2)), Msm::base(point(3)));
    let a2 = Accumulator::new(Msm::base(point(5)).scale(&fr(7)), Msm::scalar(fr(4)));
    let a3 = Accumulator::new(Msm::scalar(fr(9)), Msm::base(point(11)));
    let left = a1.add(&a2).add(&a3);
    let right = a1.add(&a2.add(&a3));
    assert_eq!(left.lhs.evaluate(&g).to_bytes(), right.lhs.evaluate(&g).to_bytes());
    assert_eq!(left.rhs.evaluate(&g).to_bytes(), right.rhs.evaluate(&g).to_bytes());
    // lhs: 2 + 35 + 9 = 46, rhs: 3 + 4 + 11 = 18
    assert_eq!(left.lhs.evaluate(&g).to_bytes(), g_times(46));
    assert_eq!(left.rhs.evaluate(&g).to_bytes(), g_times(18));
}
