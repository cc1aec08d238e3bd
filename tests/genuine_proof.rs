use halo2curves::bn256::{Fr, G1Affine, G2Affine, G1};
use halo2curves::ff::{Field, PrimeField};
use halo2curves::group::prime::PrimeCurveAffine;
use halo2curves::group::GroupEncoding;
use plonk_verifier::domain::Domain;
use plonk_verifier::expression::{Expression, Query, Rotation};
use plonk_verifier::field::{EcPoint, G2Point, Scalar};
use plonk_verifier::plonk::PlonkAccumulationScheme;
use plonk_verifier::protocol::Protocol;
use plonk_verifier::strategy::PairingCheckStrategy;
use plonk_verifier::transcript::{NativeTranscript, Transcript};

const TAU: u64 = 0x1234_5678_9abc;

fn omega() -> Fr {
    let mut w = Fr::ROOT_OF_UNITY;
    for _ in 3..Fr::S {
        w = w.square();
    }
    w
}

fn sc(f: Fr) -> Scalar {
    Scalar::from_bytes(f.to_bytes()).unwrap()
}

fn fe(s: &Scalar) -> Fr {
    Fr::from_bytes(&s.to_bytes()).unwrap()
}

fn commit(value_at_tau: Fr) -> [u8; 32] {
    (G1::generator() * value_at_tau).to_bytes().into()
}

fn q(poly: usize, rotation: i32) -> Query {
    Query::new(poly, Rotation(rotation))
}

/// Statement column (0), one auxiliary column `a` (1), the quotient (2);
/// one gate `statement * a == 0`. With `shifted`, `a` is also opened at
/// the next row, which makes a second rotation set.
fn protocol(shifted: bool) -> Protocol {
    let mut evaluations = vec![q(1, 0)];
    let mut queries = vec![q(1, 0), q(2, 0)];
    if shifted {
        evaluations.push(q(1, 1));
        queries.push(q(1, 1));
    }
    Protocol {
        domain: Domain::new(3, sc(omega())).unwrap(),
        preprocessed: vec![],
        num_statement: 1,
        num_auxiliary: vec![1],
        num_challenge: vec![0],
        evaluations,
        queries,
        relations: vec![Expression::Product(
            Box::new(Expression::Polynomial(q(0, 0))),
            Box::new(Expression::Polynomial(q(1, 0))),
        )],
        transcript_initial_state: Scalar::from_u64(0),
        accumulator_indices: None,
    }
}

/// An honest proof for the statement `[s]` at row 0 with witness
/// `a(X) = X - 1`, which is zero at row 0. Then `s * L_0(X) * a(X)` is
/// `s / n * (X^n - 1)`, and the quotient is the constant `s / n`.
fn prove(s: u64, shifted: bool) -> Vec<u8> {
    let tau = Fr::from(TAU);
    let n_inv = Fr::from(8u64).invert().unwrap();
    let a = |x: Fr| x - Fr::ONE;
    let quotient = Fr::from(s) * n_inv;

    let mut t = NativeTranscript::new(Vec::new());
    let mut proof = Vec::new();
    t.common_scalar(&Scalar::from_u64(0)).unwrap();
    t.common_scalar(&Scalar::from_u64(s)).unwrap();

    let c_a = commit(a(tau));
    t.common_ec_point(&EcPoint::from_bytes(c_a).unwrap()).unwrap();
    proof.extend_from_slice(&c_a);
    let _alpha = t.squeeze_challenge();

    let c_q = commit(quotient);
    t.common_ec_point(&EcPoint::from_bytes(c_q).unwrap()).unwrap();
    proof.extend_from_slice(&c_q);
    let z = fe(&t.squeeze_challenge());

    let mut evals = vec![a(z)];
    if shifted {
        evals.push(a(z * omega()));
    }
    for e in evals.iter() {
        t.common_scalar(&sc(*e)).unwrap();
        proof.extend_from_slice(&e.to_bytes());
    }
    let v = fe(&t.squeeze_challenge());

    // Rotation 0 opens [a, quotient] with weights [v, 1]; the quotient is
    // constant, so its part of the opening is zero. Rotation 1 opens [a].
    let w0 = v * (a(tau) - a(z)) * (tau - z).invert().unwrap();
    let mut ws = vec![commit(w0)];
    if shifted {
        let zw = z * omega();
        ws.push(commit((a(tau) - a(zw)) * (tau - zw).invert().unwrap()));
    }
    for w in ws.iter() {
        t.common_ec_point(&EcPoint::from_bytes(*w).unwrap()).unwrap();
        proof.extend_from_slice(w);
    }
    proof
}

fn decider() -> PairingCheckStrategy {
    let g1: [u8; 32] = G1Affine::generator().to_bytes().into();
    let g2: [u8; 64] = G2Affine::generator().to_bytes().into();
    let s_g2: [u8; 64] = (G2Affine::generator() * Fr::from(TAU)).to_bytes().into();
    PairingCheckStrategy::new(
        EcPoint::from_bytes(g1).unwrap(),
        G2Point::from_bytes(g2).unwrap(),
        G2Point::from_bytes(s_g2).unwrap(),
    )
}

fn verify(shifted: bool, proof: Vec<u8>, statement: u64) -> bool {
    let mut t = NativeTranscript::new(proof);
    let mut strategy = decider();
    PlonkAccumulationScheme::accumulate(&protocol(shifted), vec![vec![Scalar::from_u64(statement)]], &mut t, &mut strategy)
        .unwrap()
}

#[test]
fn genuine_proof_for_statement_five_is_accepted() {
    assert!(verify(false, prove(5, false), 5));
}

#[test]
fn genuine_proof_against_statement_six_is_rejected() {
    assert!(!verify(false, prove(5, false), 6));
}

#[test]
fn genuine_proof_with_two_rotation_sets_is_accepted() {
    assert!(verify(true, prove(5, true), 5));
    assert!(verify(true, prove(9, true), 9));
    assert!(!verify(true, prove(9, true), 5));
}

#[test]
fn flipping_a_proof_bit_rejects() {
    let proof = prove(5, true);
    // One bit in each of the six 32-byte elements: a, quotient, two
    // evaluations, two opening commitments.
    for (byte, bit) in [(0usize, 0u8), (40, 3), (64, 1), (127, 5), (130, 2), (191, 6)] {
        {
            let mut tampered = proof.clone();
            tampered[byte] ^= 1 << bit;
            let mut t = NativeTranscript::new(tampered);
            let mut strategy = decider();
            let r = PlonkAccumulationScheme::accumulate(
                &protocol(true),
                vec![vec![Scalar::from_u64(5)]],
                &mut t,
                &mut strategy,
            );
            assert!(!matches!(r, Ok(true)), "byte {} bit {} accepted", byte, bit);
        }
    }
}
