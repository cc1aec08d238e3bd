//! Lazy multi-scalar multiplications: `constant * G + sum(scalar_i * base_i)`
//! kept symbolically until a single final evaluation.
use crate::field::{fadd, fmul, g1_add_of, g1_mul_of, lemma_fadd_assoc, EcPoint, Scalar};
use vstd::prelude::*;

verus! {

/// The mathematical content of an MSM: the constant term's coefficient and
/// the coefficients and encodings of its bases, in order.
pub struct MsmView {
    pub constant: nat,
    pub scalars: Seq<nat>,
    pub bases: Seq<Seq<u8>>,
}

pub open spec fn msm_zero() -> MsmView {
    MsmView { constant: 0, scalars: seq![], bases: seq![] }
}

pub open spec fn msm_add(a: MsmView, b: MsmView) -> MsmView {
    MsmView { constant: fadd(a.constant, b.constant), scalars: a.scalars + b.scalars, bases: a.bases + b.bases }
}

pub open spec fn msm_scale(a: MsmView, s: nat) -> MsmView {
    MsmView {
        constant: fmul(a.constant, s),
        scalars: Seq::new(a.scalars.len(), |i: int| fmul(a.scalars[i], s)),
        bases: a.bases,
    }
}

/// The sum of a sequence of MSMs, from the left.
pub open spec fn msm_sum(s: Seq<MsmView>) -> MsmView
    decreases s.len(),
{
    if s.len() == 0 {
        msm_zero()
    } else {
        msm_add(msm_sum(s.drop_last()), s.last())
    }
}

/// The point the first `n` terms add up to, starting from `constant * gen`.
pub open spec fn msm_eval_prefix(v: MsmView, gen: Seq<u8>, n: nat) -> Seq<u8>
    decreases n,
{
    if n == 0 {
        g1_mul_of(gen, v.constant)
    } else {
        g1_add_of(
            msm_eval_prefix(v, gen, (n - 1) as nat),
            g1_mul_of(v.bases[n - 1], v.scalars[n - 1]),
        )
    }
}

/// The encoding of the point an MSM evaluates to with generator `gen`.
pub open spec fn msm_eval(v: MsmView, gen: Seq<u8>) -> Seq<u8> {
    msm_eval_prefix(v, gen, v.scalars.len())
}

/// Addition of MSMs is associative.
pub proof fn lemma_msm_add_assoc(a: MsmView, b: MsmView, c: MsmView)
    ensures
        msm_add(msm_add(a, b), c) == msm_add(a, msm_add(b, c)),
{
    lemma_fadd_assoc(a.constant, b.constant, c.constant);
    assert(a.scalars + b.scalars + c.scalars =~= a.scalars + (b.scalars + c.scalars));
    assert(a.bases + b.bases + c.bases =~= a.bases + (b.bases + c.bases));
}

/// Appends copies of the terms of `src` to `dst`.
fn append_terms(dst: &mut Vec<(Scalar, EcPoint)>, src: &Vec<(Scalar, EcPoint)>)
    ensures
        final(dst)@ == old(dst)@ + src@,
{
    let ghost start = dst@;
    let mut i: usize = 0;
    while i < src.len()
        invariant
            i <= src@.len(),
            dst@ == start + src@.subrange(0, i as int),
        decreases src@.len() - i,
    {
        dst.push(src[i]);
        proof {
            assert(src@.subrange(0, i + 1) =~= src@.subrange(0, i as int).push(src@[i as int]));
        }
        i = i + 1;
    }
    proof {
        assert(src@.subrange(0, i as int) =~= src@);
    }
}

/// A linear combination of G1 points, plus a multiple of the generator.
#[derive(Debug)]
pub struct Msm {
    constant: Scalar,
    terms: Vec<(Scalar, EcPoint)>,
}

impl View for Msm {
    type V = MsmView;

    closed spec fn view(&self) -> MsmView {
        MsmView {
            constant: self.constant.val(),
            scalars: self.terms@.map_values(|t: (Scalar, EcPoint)| t.0.val()),
            bases: self.terms@.map_values(|t: (Scalar, EcPoint)| t.1.enc()),
        }
    }
}

impl Msm {
    /// The empty combination.
    pub fn zero() -> (r: Msm)
        ensures
            r@ == msm_zero(),
    {
        let r = Msm { constant: Scalar::from_u64(0), terms: Vec::new() };
        proof {
            assert(r@.scalars =~= Seq::<nat>::empty());
            assert(r@.bases =~= Seq::<Seq<u8>>::empty());
        }
        r
    }

    /// `constant * G`.
    pub fn scalar(constant: Scalar) -> (r: Msm)
        ensures
            r@ == (MsmView { constant: constant.val(), scalars: seq![], bases: seq![] }),
    {
        let r = Msm { constant, terms: Vec::new() };
        proof {
            assert(r@.scalars =~= Seq::<nat>::empty());
            assert(r@.bases =~= Seq::<Seq<u8>>::empty());
        }
        r
    }

    /// `1 * base`.
    pub fn base(base: EcPoint) -> (r: Msm)
        ensures
            r@ == (MsmView { constant: 0, scalars: seq![1nat], bases: seq![base.enc()] }),
    {
        let r = Msm { constant: Scalar::from_u64(0), terms: vec![(Scalar::from_u64(1), base)] };
        proof {
            assert(r@.scalars =~= seq![1nat]);
            assert(r@.bases =~= seq![base.enc()]);
        }
        r
    }

    pub fn add(&self, other: &Msm) -> (r: Msm)
        ensures
            r@ == msm_add(self@, other@),
    {
        let mut terms: Vec<(Scalar, EcPoint)> = Vec::new();
        append_terms(&mut terms, &self.terms);
        append_terms(&mut terms, &other.terms);
        let r = Msm { constant: self.constant.add(&other.constant), terms };
        proof {
            assert(terms@ =~= self.terms@ + other.terms@);
            assert(r@.scalars =~= self@.scalars + other@.scalars);
            assert(r@.bases =~= self@.bases + other@.bases);
        }
        r
    }

    /// Every coefficient, the constant's included, times `s`.
    pub fn scale(&self, s: &Scalar) -> (r: Msm)
        ensures
            r@ == msm_scale(self@, s.val()),
    {
        let mut terms: Vec<(Scalar, EcPoint)> = Vec::new();
        let mut i: usize = 0;
        while i < self.terms.len()
            invariant
                i <= self.terms@.len(),
                terms@.len() == i,
                forall|k: int| 0 <= k < i ==> #[trigger] terms@[k].0.val() == fmul(self.terms@[k].0.val(), s.val()),
                forall|k: int| 0 <= k < i ==> #[trigger] terms@[k].1 == self.terms@[k].1,
            decreases self.terms@.len() - i,
        {
            let (c, b) = self.terms[i];
            terms.push((c.mul(s), b));
            i = i + 1;
        }
        let r = Msm { constant: self.constant.mul(s), terms };
        proof {
            assert(r@.scalars =~= msm_scale(self@, s.val()).scalars);
            assert(r@.bases =~= self@.bases);
        }
        r
    }

    /// The sum of all `msms`, from the left.
    pub fn sum(msms: &Vec<Msm>) -> (r: Msm)
        ensures
            r@ == msm_sum(msms@.map_values(|m: Msm| m@)),
    {
        let ghost views = msms@.map_values(|m: Msm| m@);
        let mut acc = Msm::zero();
        let mut i: usize = 0;
        proof {
            assert(views.subrange(0, 0) =~= Seq::<MsmView>::empty());
        }
        while i < msms.len()
            invariant
                i <= msms@.len(),
                views == msms@.map_values(|m: Msm| m@),
                acc@ == msm_sum(views.subrange(0, i as int)),
            decreases msms@.len() - i,
        {
            proof {
                assert(views.subrange(0, i + 1).drop_last() =~= views.subrange(0, i as int));
            }
            acc = acc.add(&msms[i]);
            i = i + 1;
        }
        proof {
            assert(views.subrange(0, i as int) =~= views);
        }
        acc
    }

    /// Performs the scalar multiplications, with `gen` for the constant term.
    pub fn evaluate(&self, gen: &EcPoint) -> (r: EcPoint)
        ensures
            r.enc() == msm_eval(self@, gen.enc()),
    {
        let mut acc = gen.mul(&self.constant);
        let mut i: usize = 0;
        while i < self.terms.len()
            invariant
                i <= self.terms@.len(),
                acc.enc() == msm_eval_prefix(self@, gen.enc(), i as nat),
            decreases self.terms@.len() - i,
        {
            let (c, b) = self.terms[i];
            let term = b.mul(&c);
            acc = acc.add(&term);
            i = i + 1;
        }
        acc
    }
}

} // verus!
