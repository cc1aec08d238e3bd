//! The compiled, read-only description of one circuit's proof shape.
use crate::domain::Domain;
use crate::expression::{Expression, Query};
use crate::field::{EcPoint, Scalar};
use vstd::prelude::*;

verus! {

/// The sum of a sequence of counts.
pub open spec fn sum_counts(s: Seq<usize>) -> nat
    decreases s.len(),
{
    if s.len() == 0 {
        0
    } else {
        sum_counts(s.drop_last()) + s.last() as nat
    }
}

/// The largest degree among the first `n` relations (zero for none).
pub open spec fn max_degree_prefix(rs: Seq<Expression>, n: int) -> nat
    decreases n,
{
    if n <= 0 {
        0
    } else {
        let d = rs[n - 1].degree_spec();
        let m = max_degree_prefix(rs, n - 1);
        if d >= m { d } else { m }
    }
}

/// The shape of one circuit's proofs.
pub struct Protocol {
    pub domain: Domain,
    /// Commitments to the fixed and selector polynomials.
    pub preprocessed: Vec<EcPoint>,
    /// The number of statement (instance) columns.
    pub num_statement: usize,
    /// Per phase, the number of auxiliary commitments read.
    pub num_auxiliary: Vec<usize>,
    /// Per phase, the number of challenges squeezed after them.
    pub num_challenge: Vec<usize>,
    /// The queries whose evaluations the proof carries, in order.
    pub evaluations: Vec<Query>,
    /// The queries that are opened.
    pub queries: Vec<Query>,
    /// The polynomial identities the witness satisfies.
    pub relations: Vec<Expression>,
    /// Absorbed first, to separate domains.
    pub transcript_initial_state: Scalar,
    /// Statement positions `(column, row)` holding a nested accumulator's limbs.
    pub accumulator_indices: Option<Vec<(usize, usize)>>,
}

impl Protocol {
    pub open spec fn num_auxiliary_total(self) -> nat {
        sum_counts(self.num_auxiliary@)
    }

    pub open spec fn num_challenge_total(self) -> nat {
        sum_counts(self.num_challenge@)
    }

    /// The index of the quotient polynomial: after the preprocessed,
    /// statement and auxiliary polynomials.
    pub open spec fn vanishing_poly_spec(self) -> nat {
        self.preprocessed@.len() + self.num_statement as nat + self.num_auxiliary_total()
    }

    pub open spec fn max_degree_spec(self) -> nat {
        max_degree_prefix(self.relations@, self.relations@.len() as int)
    }

    /// Sizes fit the machine, there is a relation, and the largest
    /// relation degree is at least one.
    pub open spec fn wf(self) -> bool {
        &&& self.domain.wf()
        &&& self.num_auxiliary@.len() == self.num_challenge@.len()
        &&& self.vanishing_poly_spec() < usize::MAX
        &&& self.num_challenge_total() <= usize::MAX
        &&& self.relations@.len() > 0
        &&& self.max_degree_spec() >= 1
        &&& forall|i: int| 0 <= i < self.relations@.len() ==>
            (#[trigger] self.relations@[i]).degree_spec() <= usize::MAX
    }

    pub fn vanishing_poly(&self) -> (r: usize)
        requires
            self.wf(),
        ensures
            r == self.vanishing_poly_spec(),
    {
        let mut total: usize = 0;
        let mut i: usize = 0;
        while i < self.num_auxiliary.len()
            invariant
                self.wf(),
                i <= self.num_auxiliary@.len(),
                total == sum_counts(self.num_auxiliary@.subrange(0, i as int)),
            decreases self.num_auxiliary@.len() - i,
        {
            proof {
                assert(self.num_auxiliary@.subrange(0, i + 1).drop_last() =~= self.num_auxiliary@.subrange(0, i as int));
                lemma_sum_counts_prefix(self.num_auxiliary@, i + 1);
            }
            total = total + self.num_auxiliary[i];
            i = i + 1;
        }
        proof {
            assert(self.num_auxiliary@.subrange(0, i as int) =~= self.num_auxiliary@);
        }
        self.preprocessed.len() + self.num_statement + total
    }

    /// The largest relation degree.
    pub fn max_degree(&self) -> (r: usize)
        requires
            self.wf(),
        ensures
            r == self.max_degree_spec(),
            1 <= r,
    {
        let mut m: usize = 0;
        let mut i: usize = 0;
        while i < self.relations.len()
            invariant
                self.wf(),
                i <= self.relations@.len(),
                m == max_degree_prefix(self.relations@, i as int),
            decreases self.relations@.len() - i,
        {
            let d = self.relations[i].degree();
            if d >= m {
                m = d;
            }
            i = i + 1;
        }
        m
    }

    /// Row `i`'s Lagrange value is needed: a statement column reaches row
    /// `i`, or a relation uses it.
    pub open spec fn uses_row(self, statements: Seq<Vec<Scalar>>, i: i32) -> bool {
        ||| (0 <= i && exists|c: int| 0 <= c < statements.len() && i < (#[trigger] statements[c])@.len())
        ||| exists|j: int| 0 <= j < self.relations@.len() && #[trigger] self.relations@[j].uses_lagrange(i)
    }

    /// The Lagrange rows needed: those of the statements (`0..` the longest
    /// column) and those the relations use.
    pub fn langranges(&self, statements: &Vec<Vec<Scalar>>) -> (r: Vec<i32>)
        requires
            forall|c: int| 0 <= c < statements@.len() ==> (#[trigger] statements@[c])@.len() <= i32::MAX,
        ensures
            forall|i: i32| #[trigger] r@.contains(i) ==> self.uses_row(statements@, i),
            forall|c: int, k: i32| #![trigger statements@[c], r@.contains(k)]
                0 <= c < statements@.len() && 0 <= k < statements@[c]@.len() ==> r@.contains(k),
            forall|j: int, i: i32| 0 <= j < self.relations@.len() && #[trigger] self.relations@[j].uses_lagrange(i)
                ==> r@.contains(i),
    {
        let mut longest: usize = 0;
        let mut c: usize = 0;
        while c < statements.len()
            invariant
                c <= statements@.len(),
                longest <= i32::MAX,
                forall|c: int| 0 <= c < statements@.len() ==> (#[trigger] statements@[c])@.len() <= i32::MAX,
                forall|d: int| 0 <= d < c ==> (#[trigger] statements@[d])@.len() <= longest,
                longest > 0 ==> exists|d: int| 0 <= d < c && (#[trigger] statements@[d])@.len() == longest,
            decreases statements@.len() - c,
        {
            if statements[c].len() > longest {
                longest = statements[c].len();
            }
            c = c + 1;
        }
        let mut rows: Vec<i32> = Vec::new();
        let mut k: usize = 0;
        while k < longest
            invariant
                k <= longest <= i32::MAX,
                rows@.len() == k,
                forall|m: int| 0 <= m < k ==> rows@[m] == m as i32,
            decreases longest - k,
        {
            rows.push(k as i32);
            k = k + 1;
        }
        assert forall|m: int| 0 <= m < rows@.len() implies self.uses_row(statements@, #[trigger] rows@[m]) by {
            let d = choose|d: int| 0 <= d < statements@.len() && (#[trigger] statements@[d])@.len() == longest;
            assert(rows@[m] < statements@[d]@.len());
        }
        let ghost base = rows@;
        let mut j: usize = 0;
        while j < self.relations.len()
            invariant
                j <= self.relations@.len(),
                rows@.len() >= longest,
                forall|m: int| 0 <= m < longest ==> rows@[m] == m as i32,
                forall|m: int| 0 <= m < rows@.len() ==> self.uses_row(statements@, #[trigger] rows@[m]),
                forall|jj: int, i: i32| 0 <= jj < j && #[trigger] self.relations@[jj].uses_lagrange(i)
                    ==> rows@.contains(i),
            decreases self.relations@.len() - j,
        {
            let ghost before = rows@;
            self.relations[j].collect_lagranges(&mut rows);
            proof {
                assert forall|m: int| 0 <= m < rows@.len() implies self.uses_row(statements@, #[trigger] rows@[m]) by {
                    if m >= before.len() {
                        assert(self.relations@[j as int].uses_lagrange(rows@[m]));
                    } else {
                        assert(rows@[m] == before[m]);
                    }
                }
                assert forall|jj: int, i: i32| 0 <= jj < j + 1 && #[trigger] self.relations@[jj].uses_lagrange(i)
                    implies rows@.contains(i) by {
                    if jj < j {
                        let m = choose|m: int| 0 <= m < before.len() && before[m] == i;
                        assert(rows@[m] == i);
                    }
                }
            }
            j = j + 1;
        }
        proof {
            assert forall|c: int, k: i32| #![trigger statements@[c], rows@.contains(k)]
                0 <= c < statements@.len() && 0 <= k < statements@[c]@.len() implies rows@.contains(k) by {
                assert(statements@[c]@.len() <= longest);
                assert(rows@[k as int] == k);
            }
        }
        rows
    }
}

/// A prefix sums to at most the whole.
pub proof fn lemma_sum_counts_prefix(s: Seq<usize>, n: int)
    requires
        0 <= n <= s.len(),
    ensures
        sum_counts(s.subrange(0, n)) <= sum_counts(s),
    decreases s.len() - n,
{
    if n < s.len() {
        lemma_sum_counts_prefix(s, n + 1);
        assert(s.subrange(0, n + 1).drop_last() =~= s.subrange(0, n));
    } else {
        assert(s.subrange(0, n) =~= s);
    }
}

} // verus!
