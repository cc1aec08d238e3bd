use halo2curves::bn256::Fr;
use halo2curves::ff::{Field, PrimeField};
use plonk_verifier::domain::{CommonPolynomialEvaluation, Domain};
use plonk_verifier::expression::{CommonPolynomial, Rotation};
use plonk_verifier::field::Scalar;

fn from_fr(f: Fr) -> Scalar {
    Scalar::from_bytes(f.to_bytes()).unwrap()
}

fn omega(k: u32) -> Fr {
    let mut w = Fr::ROOT_OF_UNITY;
    for _ in k..Fr::S {
        w = w.square();
    }
    w
}

#[test]
fn domain_rotates_by_generator_powers() {
    let w = omega(3);
    let d = Domain::new(3, from_fr(w)).unwrap();
    assert_eq!(d.n, 8);
    let one = Scalar::from_u64(1);
    assert_eq!(d.rotate_scalar(&one, Rotation(1)), from_fr(w));
    assert_eq!(d.rotate_scalar(&one, Rotation(3)), from_fr(w * w * w));
    assert_eq!(d.rotate_scalar(&one, Rotation(-1)), from_fr(w.invert().unwrap()));
    assert_eq!(d.rotate_scalar(&one, Rotation::cur()), one);
    assert_eq!(d.n_inv.mul(&Scalar::from_u64(8)), one);
}

#[test]
fn domain_rejects_zero_generator() {
    assert!(Domain::new(3, Scalar::from_u64(0)).is_none());
}

#[test]
fn lagrange_values_match_barycentric_formula() {
    let w = omega(3);
    let d = Domain::new(3, from_fr(w)).unwrap();
    let z = Fr::from(1234567u64);
    let zn = z.pow_vartime([8u64]);
    let rows = vec![0i32, 1, 2, -1];
    let eval = CommonPolynomialEvaluation::new(&d, &rows, &from_fr(z)).unwrap();
    assert_eq!(eval.zn(), from_fr(zn));
    assert_eq!(eval.zn_minus_one_inv(), from_fr((zn - Fr::ONE).invert().unwrap()));
    let n_inv = Fr::from(8u64).invert().unwrap();
    for &i in rows.iter() {
        let wi = if i >= 0 { w.pow_vartime([i as u64]) } else { w.invert().unwrap().pow_vartime([(-i) as u64]) };
        let expected = wi * n_inv * (zn - Fr::ONE) * (z - wi).invert().unwrap();
        assert_eq!(eval.get(&CommonPolynomial::Lagrange(i)), from_fr(expected));
    }
    assert_eq!(eval.get(&CommonPolynomial::Vanishing), from_fr(zn - Fr::ONE));
}

#[test]
fn evaluation_at_a_domain_point_is_refused() {
    let w = omega(3);
    let d = Domain::new(3, from_fr(w)).unwrap();
    // z = w^2: z^n == 1, the vanishing polynomial's inverse does not exist.
    assert!(CommonPolynomialEvaluation::new(&d, &vec![0, 1], &from_fr(w * w)).is_none());
    assert!(CommonPolynomialEvaluation::new(&d, &vec![], &from_fr(Fr::ONE)).is_none());
}
