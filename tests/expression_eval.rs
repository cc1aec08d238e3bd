use halo2curves::bn256::Fr;
use halo2curves::ff::{Field, PrimeField};
use plonk_verifier::domain::{CommonPolynomialEvaluation, Domain};
use plonk_verifier::expression::{lookup_query, Expression, Query, Rotation};
use plonk_verifier::field::Scalar;
use plonk_verifier::Error;

fn fr(v: u64) -> Scalar {
    Scalar::from_u64(v)
}

fn common() -> CommonPolynomialEvaluation {
    let mut w = Fr::ROOT_OF_UNITY;
    for _ in 3..Fr::S {
        w = w.square();
    }
    let d = Domain::new(3, Scalar::from_bytes(w.to_bytes()).unwrap()).unwrap();
    CommonPolynomialEvaluation::new(&d, &vec![], &fr(11)).unwrap()
}

fn q(poly: usize) -> Query {
    Query::new(poly, Rotation::cur())
}

#[test]
fn expression_folds_exact_value() {
    // (a * b + 3) * (-c) scaled by 2, with a = 4, b = 5, c = challenge 0 = 6
    let e = Expression::Scaled(
        Box::new(Expression::Product(
            Box::new(Expression::Sum(
                Box::new(Expression::Product(
                    Box::new(Expression::Polynomial(q(0))),
                    Box::new(Expression::Polynomial(q(1))),
                )),
                Box::new(Expression::Constant(fr(3))),
            )),
            Box::new(Expression::Negated(Box::new(Expression::Challenge(0)))),
        )),
        fr(2),
    );
    let evals = vec![(q(0), fr(4)), (q(1), fr(5))];
    let r = e.evaluate(&common(), &evals, &vec![fr(6)]).unwrap();
    assert_eq!(r, fr(23 * 6 * 2).neg());
    assert_eq!(e.degree(), 2);
}

#[test]
fn missing_query_and_challenge_are_errors() {
    let e = Expression::Polynomial(q(7));
    match e.evaluate(&common(), &vec![], &vec![]) {
        Err(Error::MissingQuery(x)) => assert_eq!(x, q(7)),
        _ => panic!("expected a missing query"),
    }
    let e = Expression::Sum(Box::new(Expression::Constant(fr(1))), Box::new(Expression::Challenge(2)));
    match e.evaluate(&common(), &vec![], &vec![fr(1)]) {
        Err(Error::MissingChallenge(i)) => assert_eq!(i, 2),
        _ => panic!("expected a missing challenge"),
    }
}

#[test]
fn later_entries_win_in_lookup() {
    let entries = vec![(q(1), fr(1)), (q(2), fr(2)), (q(1), fr(3))];
    assert_eq!(lookup_query(&entries, &q(1)), Some(fr(3)));
    assert_eq!(lookup_query(&entries, &q(2)), Some(fr(2)));
    assert_eq!(lookup_query(&entries, &q(5)), None);
}
