use halo2curves::bn256::{Fr, G1Affine, G2Affine, G1};
use halo2curves::ff::{Field, PrimeField};
use halo2curves::group::prime::PrimeCurveAffine;
use halo2curves::group::GroupEncoding;
use plonk_verifier::domain::Domain;
use plonk_verifier::expression::{Expression, Query, Rotation};
use plonk_verifier::field::{EcPoint, G2Point, Scalar};
use plonk_verifier::native::Snark;
use plonk_verifier::plonk::{rotation_sets, PlonkAccumulationScheme, PlonkProof};
use plonk_verifier::protocol::Protocol;
use plonk_verifier::strategy::{extract_nested, AccumulationStrategy, PairingCheckStrategy, SameCurveAccumulation};
use plonk_verifier::transcript::{NativeTranscript, Transcript, TranscriptRead};
use plonk_verifier::Error;

fn fr(v: u64) -> Scalar {
    Scalar::from_u64(v)
}

fn generator() -> EcPoint {
    let b: [u8; 32] = G1Affine::generator().to_bytes().into();
    EcPoint::from_bytes(b).unwrap()
}

fn point_bytes(k: u64) -> [u8; 32] {
    (G1::generator() * Fr::from(k)).to_bytes().into()
}

fn domain8() -> Domain {
    let mut w = Fr::ROOT_OF_UNITY;
    for _ in 3..Fr::S {
        w = w.square();
    }
    Domain::new(3, Scalar::from_bytes(w.to_bytes()).unwrap()).unwrap()
}

fn q(poly: usize, rotation: i32) -> Query {
    Query::new(poly, Rotation(rotation))
}

/// One fixed column (0), one statement column (1), two auxiliary columns
/// (2, 3) in one phase, the quotient (4); one multiplication gate.
fn protocol(num_auxiliary: usize) -> Protocol {
    Protocol {
        domain: domain8(),
        preprocessed: vec![generator().mul(&fr(3))],
        num_statement: 1,
        num_auxiliary: vec![num_auxiliary],
        num_challenge: vec![1],
        evaluations: vec![q(0, 0), q(2, 0), q(3, 0), q(2, 1)],
        queries: vec![q(0, 0), q(2, 0), q(3, 0), q(2, 1), q(4, 0)],
        relations: vec![Expression::Product(
            Box::new(Expression::Polynomial(q(1, 0))),
            Box::new(Expression::Polynomial(q(2, 0))),
        )],
        transcript_initial_state: fr(0),
        accumulator_indices: None,
    }
}

/// Points for the two auxiliaries, one quotient piece, four evaluations,
/// and one opening commitment for each of the two rotations.
fn proof_bytes() -> Vec<u8> {
    let mut b = Vec::new();
    for k in [5u64, 6, 7] {
        b.extend_from_slice(&point_bytes(k));
    }
    for v in [11u64, 12, 13, 14] {
        b.extend_from_slice(&Fr::from(v).to_bytes());
    }
    for k in [8u64, 9] {
        b.extend_from_slice(&point_bytes(k));
    }
    b
}

#[test]
fn rotation_sets_group_by_rotation_in_first_appearance_order() {
    let sets = rotation_sets(&protocol(2));
    assert_eq!(sets.len(), 2);
    assert_eq!(sets[0].rotation, Rotation(0));
    assert_eq!(sets[0].polys, vec![0, 2, 3, 4]);
    assert_eq!(sets[1].rotation, Rotation(1));
    assert_eq!(sets[1].polys, vec![2]);
}

#[test]
fn protocol_shape_helpers() {
    let p = protocol(2);
    assert_eq!(p.vanishing_poly(), 4);
    assert_eq!(p.max_degree(), 2);
    let rows = p.langranges(&vec![vec![fr(1), fr(2), fr(3)]]);
    assert!(rows.contains(&0) && rows.contains(&1) && rows.contains(&2));
}

#[test]
fn read_takes_values_in_protocol_order() {
    let p = protocol(2);
    let mut t = NativeTranscript::new(proof_bytes());
    let proof = PlonkProof::read(&p, vec![vec![fr(5)]], &mut t).unwrap();
    assert_eq!(proof.auxiliaries.len(), 2);
    assert_eq!(proof.auxiliaries[0].to_bytes(), point_bytes(5));
    assert_eq!(proof.quotients[0].to_bytes(), point_bytes(7));
    assert_eq!(proof.evaluations, vec![fr(11), fr(12), fr(13), fr(14)]);
    assert_eq!(proof.ws[1].to_bytes(), point_bytes(9));
    assert_eq!(proof.challenges.len(), 1);
}

#[test]
fn wrong_statement_count_is_invalid_instances() {
    let p = protocol(2);
    let mut t = NativeTranscript::new(proof_bytes());
    let r = PlonkAccumulationScheme::accumulate_proof(&p, vec![], &mut t);
    assert!(matches!(r, Err(Error::InvalidInstances)));
    let mut t = NativeTranscript::new(proof_bytes());
    let r = PlonkAccumulationScheme::accumulate_proof(&p, vec![vec![fr(5)], vec![fr(6)]], &mut t);
    assert!(matches!(r, Err(Error::InvalidInstances)));
}

#[test]
fn truncated_auxiliary_stream_is_transcript_error() {
    // Two auxiliary commitments expected in phase 0, one point supplied.
    let p = protocol(2);
    let bytes = point_bytes(5).to_vec();
    let mut t = NativeTranscript::new(bytes);
    let r = PlonkAccumulationScheme::accumulate_proof(&p, vec![vec![fr(5)]], &mut t);
    assert!(matches!(r, Err(Error::Transcript(_, _))));
}

#[test]
fn fabricated_proof_accumulates_but_fails_pairing() {
    let p = protocol(2);
    let mut t = NativeTranscript::new(proof_bytes());
    let (proof, acc) = PlonkAccumulationScheme::accumulate_proof(&p, vec![vec![fr(5)]], &mut t).unwrap();
    assert_eq!(proof.statements, vec![vec![fr(5)]]);
    let g = generator();
    let lhs = acc.lhs.evaluate(&g);
    let rhs = acc.rhs.evaluate(&g);
    assert_ne!(lhs.to_bytes(), rhs.to_bytes());

    let tau = Fr::from(77u64);
    let g2: [u8; 64] = G2Affine::generator().to_bytes().into();
    let s_g2: [u8; 64] = (G2Affine::generator() * tau).to_bytes().into();
    let mut strategy = PairingCheckStrategy::new(g, G2Point::from_bytes(g2).unwrap(), G2Point::from_bytes(s_g2).unwrap());
    let mut t = NativeTranscript::new(proof_bytes());
    let accepted = PlonkAccumulationScheme::accumulate(&p, vec![vec![fr(5)]], &mut t, &mut strategy).unwrap();
    assert!(!accepted);
}

#[test]
fn statement_change_changes_accumulator() {
    let p = protocol(2);
    let g = generator();
    let mut t1 = NativeTranscript::new(proof_bytes());
    let (_, a1) = PlonkAccumulationScheme::accumulate_proof(&p, vec![vec![fr(5)]], &mut t1).unwrap();
    let mut t2 = NativeTranscript::new(proof_bytes());
    let (_, a2) = PlonkAccumulationScheme::accumulate_proof(&p, vec![vec![fr(6)]], &mut t2).unwrap();
    assert_ne!(a1.lhs.evaluate(&g).to_bytes(), a2.lhs.evaluate(&g).to_bytes());
}

#[test]
fn empty_opening_set_is_accepted() {
    let p = Protocol {
        domain: domain8(),
        preprocessed: vec![],
        num_statement: 1,
        num_auxiliary: vec![],
        num_challenge: vec![],
        evaluations: vec![],
        queries: vec![],
        relations: vec![Expression::Polynomial(q(0, 0))],
        transcript_initial_state: fr(1),
        accumulator_indices: None,
    };
    let g2: [u8; 64] = G2Affine::generator().to_bytes().into();
    let s_g2: [u8; 64] = (G2Affine::generator() * Fr::from(5u64)).to_bytes().into();
    let mut strategy = PairingCheckStrategy::new(generator(), G2Point::from_bytes(g2).unwrap(), G2Point::from_bytes(s_g2).unwrap());
    let mut t = NativeTranscript::new(Vec::new());
    let accepted = PlonkAccumulationScheme::accumulate(&p, vec![vec![fr(5)]], &mut t, &mut strategy).unwrap();
    assert!(accepted);
}

#[test]
fn missing_opening_evaluation_is_missing_query() {
    let mut p = protocol(2);
    // Auxiliary column 3 is opened at the next row, but the proof carries
    // no evaluation there.
    p.queries.push(q(3, 1));
    let mut t = NativeTranscript::new(proof_bytes());
    let r = PlonkAccumulationScheme::accumulate_proof(&p, vec![vec![fr(5)]], &mut t);
    match r {
        Err(Error::MissingQuery(x)) => assert_eq!(x, q(3, 1)),
        _ => panic!("expected a missing query"),
    }
}

#[test]
fn opening_a_statement_column_uses_its_folded_commitment() {
    let mut p = protocol(2);
    p.queries.push(q(1, 0));
    let mut t = NativeTranscript::new(proof_bytes());
    assert!(PlonkAccumulationScheme::accumulate_proof(&p, vec![vec![fr(5)]], &mut t).is_ok());
}

#[test]
fn count_mismatch_reads_nothing() {
    let p = protocol(2);
    let mut t = NativeTranscript::new(proof_bytes());
    let r = PlonkAccumulationScheme::accumulate_proof(&p, vec![], &mut t);
    assert!(matches!(r, Err(Error::InvalidInstances)));
    let mut fresh = NativeTranscript::new(proof_bytes());
    fresh.common_scalar(&fr(0)).unwrap();
    assert_eq!(t.read_ec_point().unwrap().to_bytes(), fresh.read_ec_point().unwrap().to_bytes());
    assert_eq!(t.squeeze_challenge(), fresh.squeeze_challenge());
}

#[test]
fn relation_with_unknown_challenge_is_missing_challenge() {
    let mut p = protocol(2);
    // A second gate that refers to a challenge never squeezed; the largest
    // degree stays 2, so the stream is unchanged.
    p.relations.push(Expression::Product(
        Box::new(Expression::Polynomial(q(1, 0))),
        Box::new(Expression::Challenge(3)),
    ));
    let mut t = NativeTranscript::new(proof_bytes());
    let r = PlonkAccumulationScheme::accumulate_proof(&p, vec![vec![fr(5)]], &mut t);
    assert!(matches!(r, Err(Error::MissingChallenge(3))));
}

#[test]
fn same_curve_accumulation_merges_proofs() {
    let p = protocol(2);
    let g = generator();
    let mut strategy = SameCurveAccumulation::new();
    assert!(strategy.finalize(&g).is_none());
    let mut t = NativeTranscript::new(proof_bytes());
    PlonkAccumulationScheme::accumulate(&p, vec![vec![fr(5)]], &mut t, &mut strategy).unwrap();
    let (l1, r1) = strategy.finalize(&g).unwrap();
    let mut t = NativeTranscript::new(proof_bytes());
    PlonkAccumulationScheme::accumulate(&p, vec![vec![fr(5)]], &mut t, &mut strategy).unwrap();
    let (l2, r2) = strategy.finalize(&g).unwrap();
    assert_eq!(l2.to_bytes(), l1.add(&l1).to_bytes());
    assert_eq!(r2.to_bytes(), r1.add(&r1).to_bytes());
}

fn limbs_of(v: u64) -> Vec<Scalar> {
    vec![fr(v), fr(0), fr(0), fr(0)]
}

#[test]
fn nested_accumulator_is_read_from_statement_limbs() {
    let mut p = protocol(2);
    p.accumulator_indices = Some((0..16).map(|i| (0usize, i as usize)).collect());
    // The generator is the affine point (1, 2).
    let mut column = Vec::new();
    for v in [1u64, 2, 1, 2] {
        column.extend(limbs_of(v));
    }
    let acc = extract_nested(&p, &vec![column.clone()]).unwrap().unwrap();
    let g = generator();
    assert_eq!(acc.lhs.evaluate(&g).to_bytes(), g.to_bytes());
    assert_eq!(acc.rhs.evaluate(&g).to_bytes(), g.to_bytes());

    let strategy = SameCurveAccumulation::new();
    assert!(strategy.extract_accumulator(&p, &vec![column.clone()]).unwrap().is_some());

    let mut off_curve = column.clone();
    off_curve[4] = fr(3);
    assert!(matches!(extract_nested(&p, &vec![off_curve]), Err(Error::Transcript(_, _))));
    assert!(matches!(extract_nested(&p, &vec![column[..10].to_vec()]), Err(Error::Transcript(_, _))));
    assert!(extract_nested(&protocol(2), &vec![column]).unwrap().is_none());
}

/// Splits a little-endian 256-bit value into four 68-bit limbs.
fn limbs_68(bytes: [u8; 32]) -> Vec<Scalar> {
    let bit = |i: usize| -> u64 { if i < 256 { ((bytes[i / 8] >> (i % 8)) & 1) as u64 } else { 0 } };
    (0..4)
        .map(|l| {
            let mut v = [0u8; 32];
            for j in 0..68 {
                v[j / 8] |= (bit(68 * l + j) as u8) << (j % 8);
            }
            Scalar::from_bytes(v).unwrap()
        })
        .collect()
}

#[test]
fn nested_accumulator_with_multi_limb_coordinates() {
    let mut p = protocol(2);
    p.accumulator_indices = Some((0..16).map(|i| (0usize, i as usize)).collect());
    let two_g = G1Affine::from(G1::generator() * Fr::from(2u64));
    let three_g = G1Affine::from(G1::generator() * Fr::from(3u64));
    let mut column = Vec::new();
    for c in [two_g.x, two_g.y, three_g.x, three_g.y] {
        column.extend(limbs_68(c.to_bytes()));
    }
    let acc = extract_nested(&p, &vec![column]).unwrap().unwrap();
    let g = generator();
    assert_eq!(acc.lhs.evaluate(&g).to_bytes(), point_bytes(2));
    assert_eq!(acc.rhs.evaluate(&g).to_bytes(), point_bytes(3));
}

#[test]
fn g2_points_outside_the_subgroup_are_refused() {
    let g2: [u8; 64] = G2Affine::generator().to_bytes().into();
    assert!(G2Point::from_bytes(g2).is_some());
    // A twist point with the generator's x-coordinate moved is, if it
    // decodes at all, almost surely outside the prime-order subgroup.
    let mut refused = 0;
    for i in 1..40u8 {
        let mut b = g2;
        b[0] = b[0].wrapping_add(i);
        if G2Point::from_bytes(b).is_none() {
            refused += 1;
        }
    }
    assert_eq!(refused, 39);
}

#[test]
fn snark_bundles_its_parts() {
    let s = Snark::new(protocol(2), vec![vec![fr(5)]], proof_bytes());
    assert_eq!(s.statements, vec![vec![fr(5)]]);
    assert_eq!(s.proof.len(), 5 * 32 + 4 * 32);
    assert_eq!(s.protocol.num_statement, 1);
}

#[test]
fn transcripts_with_same_history_agree() {
    let mut a = NativeTranscript::new(Vec::new());
    let mut b = NativeTranscript::new(Vec::new());
    for t in [&mut a, &mut b] {
        t.common_scalar(&fr(1)).unwrap();
        t.common_ec_point(&generator()).unwrap();
    }
    let ca = [a.squeeze_challenge(), a.squeeze_challenge()];
    let cb = [b.squeeze_challenge(), b.squeeze_challenge()];
    assert_eq!(ca, cb);
    assert_ne!(ca[0], ca[1]);

    let mut c = NativeTranscript::new(Vec::new());
    c.common_ec_point(&generator()).unwrap();
    c.common_scalar(&fr(1)).unwrap();
    assert_ne!(c.squeeze_challenge(), ca[0]);
}

#[test]
fn reading_absorbs_the_value_read() {
    let mut bytes = Fr::from(9u64).to_bytes().to_vec();
    bytes.extend_from_slice(&point_bytes(4));
    let mut a = NativeTranscript::new(bytes);
    assert_eq!(a.read_scalar().unwrap(), fr(9));
    assert_eq!(a.read_ec_point().unwrap().to_bytes(), point_bytes(4));
    let mut b = NativeTranscript::new(Vec::new());
    b.common_scalar(&fr(9)).unwrap();
    b.common_ec_point(&EcPoint::from_bytes(point_bytes(4)).unwrap()).unwrap();
    assert_eq!(a.squeeze_challenge(), b.squeeze_challenge());
    assert!(matches!(a.read_scalar(), Err(Error::Transcript(_, _))));
    let mut c = NativeTranscript::new(vec![0xff; 32]);
    assert!(matches!(c.read_scalar(), Err(Error::Transcript(_, _))));
}
