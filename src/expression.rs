//! Queries, rotations and the expression trees that encode a circuit's
//! relations, with their degree and their evaluation.
use crate::domain::CommonPolynomialEvaluation;
use crate::field::{fadd, fmul, fneg, Scalar};
use crate::Error;
use vstd::prelude::*;

verus! {

/// A power of the domain generator by which an evaluation point is shifted.
#[derive(Clone, Copy, Debug, PartialEq, Eq, Structural)]
pub struct Rotation(pub i32);

impl Rotation {
    pub fn cur() -> (r: Rotation)
        ensures
            r.0 == 0,
    {
        Rotation(0)
    }
}

/// An opening of polynomial `poly` at the point shifted by `rotation`.
#[derive(Clone, Copy, Debug, PartialEq, Eq, Structural)]
pub struct Query {
    pub poly: usize,
    pub rotation: Rotation,
}

impl Query {
    pub fn new(poly: usize, rotation: Rotation) -> (r: Query)
        ensures
            r.poly == poly,
            r.rotation == rotation,
    {
        Query { poly, rotation }
    }
}

/// A polynomial known to verifier and prover alike.
#[derive(Clone, Copy, Debug, PartialEq, Eq, Structural)]
pub enum CommonPolynomial {
    /// The Lagrange basis polynomial of the given row.
    Lagrange(i32),
    /// The vanishing polynomial of the domain, `X^n - 1`.
    Vanishing,
}

/// A polynomial identity over queried polynomials, challenges and constants.
#[derive(Debug)]
pub enum Expression {
    Constant(Scalar),
    CommonPolynomial(CommonPolynomial),
    Polynomial(Query),
    Challenge(usize),
    Negated(Box<Expression>),
    Sum(Box<Expression>, Box<Expression>),
    Product(Box<Expression>, Box<Expression>),
    Scaled(Box<Expression>, Scalar),
}

/// The value recorded last for `q` in an association list, if any.
pub open spec fn lookup(entries: Seq<(Query, Scalar)>, q: Query) -> Option<Scalar>
    decreases entries.len(),
{
    if entries.len() == 0 {
        None
    } else if entries.last().0 == q {
        Some(entries.last().1)
    } else {
        lookup(entries.drop_last(), q)
    }
}

/// Looks `q` up in `entries`; the entry added last wins.
pub fn lookup_query(entries: &Vec<(Query, Scalar)>, q: &Query) -> (r: Option<Scalar>)
    ensures
        r == lookup(entries@, *q),
{
    let mut i: usize = entries.len();
    assert(entries@.subrange(0, i as int) =~= entries@);
    while i > 0
        invariant
            i <= entries@.len(),
            lookup(entries@, *q) == lookup(entries@.subrange(0, i as int), *q),
        decreases i,
    {
        let ghost prefix = entries@.subrange(0, i as int);
        assert(prefix.drop_last() =~= entries@.subrange(0, i - 1));
        if entries[i - 1].0 == *q {
            return Some(entries[i - 1].1);
        }
        i = i - 1;
    }
    None
}

impl Expression {
    /// The structural degree: leaves that are polynomials count one,
    /// products add, sums take the larger.
    pub open spec fn degree_spec(self) -> nat
        decreases self,
    {
        match self {
            Expression::Constant(_) => 0,
            Expression::CommonPolynomial(_) => 1,
            Expression::Polynomial(_) => 1,
            Expression::Challenge(_) => 0,
            Expression::Negated(a) => a.degree_spec(),
            Expression::Sum(a, b) => {
                let (x, y) = (a.degree_spec(), b.degree_spec());
                if x >= y { x } else { y }
            },
            Expression::Product(a, b) => a.degree_spec() + b.degree_spec(),
            Expression::Scaled(a, _) => a.degree_spec(),
        }
    }

    pub fn degree(&self) -> (r: usize)
        requires
            self.degree_spec() <= usize::MAX,
        ensures
            r == self.degree_spec(),
        decreases self,
    {
        match self {
            Expression::Constant(_) => 0,
            Expression::CommonPolynomial(_) => 1,
            Expression::Polynomial(_) => 1,
            Expression::Challenge(_) => 0,
            Expression::Negated(a) => a.degree(),
            Expression::Sum(a, b) => {
                let x = a.degree();
                let y = b.degree();
                if x >= y { x } else { y }
            },
            Expression::Product(a, b) => a.degree() + b.degree(),
            Expression::Scaled(a, _) => a.degree(),
        }
    }

    /// Whether the expression refers to the Lagrange polynomial of row `i`.
    pub open spec fn uses_lagrange(self, i: i32) -> bool
        decreases self,
    {
        match self {
            Expression::CommonPolynomial(CommonPolynomial::Lagrange(j)) => i == j,
            Expression::Negated(a) => a.uses_lagrange(i),
            Expression::Sum(a, b) => a.uses_lagrange(i) || b.uses_lagrange(i),
            Expression::Product(a, b) => a.uses_lagrange(i) || b.uses_lagrange(i),
            Expression::Scaled(a, _) => a.uses_lagrange(i),
            _ => false,
        }
    }

    /// Appends the Lagrange rows the expression refers to.
    pub fn collect_lagranges(&self, rows: &mut Vec<i32>)
        ensures
            final(rows)@.len() >= old(rows)@.len(),
            forall|k: int| 0 <= k < old(rows)@.len() ==> final(rows)@[k] == old(rows)@[k],
            forall|i: i32| #[trigger] self.uses_lagrange(i) ==> final(rows)@.contains(i),
            forall|k: int| old(rows)@.len() <= k < final(rows)@.len() ==> self.uses_lagrange(#[trigger] final(rows)@[k]),
        decreases self,
    {
        match self {
            Expression::CommonPolynomial(CommonPolynomial::Lagrange(j)) => {
                rows.push(*j);
                assert(rows@[rows@.len() - 1] == *j);
                assert forall|i: i32| #[trigger] self.uses_lagrange(i) implies rows@.contains(i) by {
                    assert(i == *j);
                }
            },
            Expression::Negated(a) => {
                let ghost start = rows@;
                a.collect_lagranges(rows);
                assert forall|k: int| start.len() <= k < rows@.len() implies self.uses_lagrange(#[trigger] rows@[k]) by {
                    assert(a.uses_lagrange(rows@[k]));
                }
                assert forall|i: i32| #[trigger] self.uses_lagrange(i) implies rows@.contains(i) by {
                    assert(a.uses_lagrange(i));
                }
            },
            Expression::Sum(a, b) => {
                let ghost start = rows@;
                a.collect_lagranges(rows);
                let ghost mid = rows@;
                b.collect_lagranges(rows);
                assert forall|k: int| start.len() <= k < rows@.len() implies self.uses_lagrange(#[trigger] rows@[k]) by {
                    if k < mid.len() {
                        assert(a.uses_lagrange(mid[k]));
                    } else {
                        assert(b.uses_lagrange(rows@[k]));
                    }
                }
                assert forall|i: i32| #[trigger] self.uses_lagrange(i) implies rows@.contains(i) by {
                    if a.uses_lagrange(i) {
                        assert(mid.contains(i));
                        let k = choose|k: int| 0 <= k < mid.len() && mid[k] == i;
                        assert(rows@[k] == i);
                    } else {
                        assert(b.uses_lagrange(i));
                    }
                }
            },
            Expression::Product(a, b) => {
                let ghost start = rows@;
                a.collect_lagranges(rows);
                let ghost mid = rows@;
                b.collect_lagranges(rows);
                assert forall|k: int| start.len() <= k < rows@.len() implies self.uses_lagrange(#[trigger] rows@[k]) by {
                    if k < mid.len() {
                        assert(a.uses_lagrange(mid[k]));
                    } else {
                        assert(b.uses_lagrange(rows@[k]));
                    }
                }
                assert forall|i: i32| #[trigger] self.uses_lagrange(i) implies rows@.contains(i) by {
                    if a.uses_lagrange(i) {
                        assert(mid.contains(i));
                        let k = choose|k: int| 0 <= k < mid.len() && mid[k] == i;
                        assert(rows@[k] == i);
                    } else {
                        assert(b.uses_lagrange(i));
                    }
                }
            },
            Expression::Scaled(a, _) => {
                let ghost start = rows@;
                a.collect_lagranges(rows);
                assert forall|k: int| start.len() <= k < rows@.len() implies self.uses_lagrange(#[trigger] rows@[k]) by {
                    assert(a.uses_lagrange(rows@[k]));
                }
                assert forall|i: i32| #[trigger] self.uses_lagrange(i) implies rows@.contains(i) by {
                    assert(a.uses_lagrange(i));
                }
            },
            _ => {
                assert forall|i: i32| #[trigger] self.uses_lagrange(i) implies rows@.contains(i) by {}
            },
        }
    }

    /// The value of the expression: constants stand for themselves, common
    /// polynomials take their value at the evaluation point, queries and
    /// challenges are looked up, and the first missing one is the error.
    pub open spec fn eval_spec(
        self,
        common: CommonPolynomialEvaluation,
        evals: Seq<(Query, Scalar)>,
        challenges: Seq<Scalar>,
    ) -> Result<nat, Error>
        decreases self,
    {
        match self {
            Expression::Constant(s) => Ok(s.val()),
            Expression::CommonPolynomial(p) => Ok(common.common_val(p)),
            Expression::Polynomial(q) => match lookup(evals, q) {
                Some(v) => Ok(v.val()),
                None => Err(Error::MissingQuery(q)),
            },
            Expression::Challenge(i) => if i < challenges.len() {
                Ok(challenges[i as int].val())
            } else {
                Err(Error::MissingChallenge(i))
            },
            Expression::Negated(a) => match a.eval_spec(common, evals, challenges) {
                Ok(x) => Ok(fneg(x)),
                Err(e) => Err(e),
            },
            Expression::Sum(a, b) => match a.eval_spec(common, evals, challenges) {
                Ok(x) => match b.eval_spec(common, evals, challenges) {
                    Ok(y) => Ok(fadd(x, y)),
                    Err(e) => Err(e),
                },
                Err(e) => Err(e),
            },
            Expression::Product(a, b) => match a.eval_spec(common, evals, challenges) {
                Ok(x) => match b.eval_spec(common, evals, challenges) {
                    Ok(y) => Ok(fmul(x, y)),
                    Err(e) => Err(e),
                },
                Err(e) => Err(e),
            },
            Expression::Scaled(a, s) => match a.eval_spec(common, evals, challenges) {
                Ok(x) => Ok(fmul(x, s.val())),
                Err(e) => Err(e),
            },
        }
    }

    /// Evaluates the expression; every Lagrange row it uses must have been
    /// computed in `common`.
    pub fn evaluate(
        &self,
        common: &CommonPolynomialEvaluation,
        evals: &Vec<(Query, Scalar)>,
        challenges: &Vec<Scalar>,
    ) -> (r: Result<Scalar, Error>)
        requires
            forall|i: i32| #[trigger] self.uses_lagrange(i) ==> common.has_lagrange(i),
        ensures
            match r {
                Ok(v) => self.eval_spec(*common, evals@, challenges@) == Ok::<nat, Error>(v.val()),
                Err(e) => self.eval_spec(*common, evals@, challenges@) == Err::<nat, Error>(e),
            },
        decreases self,
    {
        match self {
            Expression::Constant(s) => Ok(*s),
            Expression::CommonPolynomial(p) => {
                if let CommonPolynomial::Lagrange(i) = p {
                    assert(self.uses_lagrange(*i));
                }
                Ok(common.get(p))
            },
            Expression::Polynomial(q) => match lookup_query(evals, q) {
                Some(v) => Ok(v),
                None => Err(Error::MissingQuery(*q)),
            },
            Expression::Challenge(i) => if *i < challenges.len() {
                Ok(challenges[*i])
            } else {
                Err(Error::MissingChallenge(*i))
            },
            Expression::Negated(a) => {
                assert forall|i: i32| #[trigger] a.uses_lagrange(i) implies common.has_lagrange(i) by {
                    assert(self.uses_lagrange(i));
                }
                let x = a.evaluate(common, evals, challenges)?;
                Ok(x.neg())
            },
            Expression::Sum(a, b) => {
                assert forall|i: i32| #[trigger] a.uses_lagrange(i) implies common.has_lagrange(i) by {
                    assert(self.uses_lagrange(i));
                }
                assert forall|i: i32| #[trigger] b.uses_lagrange(i) implies common.has_lagrange(i) by {
                    assert(self.uses_lagrange(i));
                }
                let x = a.evaluate(common, evals, challenges)?;
                let y = b.evaluate(common, evals, challenges)?;
                Ok(x.add(&y))
            },
            Expression::Product(a, b) => {
                assert forall|i: i32| #[trigger] a.uses_lagrange(i) implies common.has_lagrange(i) by {
                    assert(self.uses_lagrange(i));
                }
                assert forall|i: i32| #[trigger] b.uses_lagrange(i) implies common.has_lagrange(i) by {
                    assert(self.uses_lagrange(i));
                }
                let x = a.evaluate(common, evals, challenges)?;
                let y = b.evaluate(common, evals, challenges)?;
                Ok(x.mul(&y))
            },
            Expression::Scaled(a, s) => {
                assert forall|i: i32| #[trigger] a.uses_lagrange(i) implies common.has_lagrange(i) by {
                    assert(self.uses_lagrange(i));
                }
                let x = a.evaluate(common, evals, challenges)?;
                Ok(x.mul(s))
            },
        }
    }
}

} // verus!
