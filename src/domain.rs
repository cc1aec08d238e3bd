//! The evaluation domain and the values of the common polynomials at the
//! evaluation point.
use crate::expression::{CommonPolynomial, Rotation};
use crate::field::{batch_invert, fmul, fpow, fsub, lemma_fmul_bound, lemma_fmul_cancel, lemma_fmul_comm, lemma_fpow_add, Scalar};
use vstd::arithmetic::power2::pow2;
use vstd::prelude::*;

verus! {

/// The multiplicative subgroup of size `n = 2^k` generated by `gen`.
#[derive(Clone, Copy, Debug)]
pub struct Domain {
    pub k: u32,
    pub n: usize,
    pub n_inv: Scalar,
    pub gen: Scalar,
    pub gen_inv: Scalar,
}

impl Domain {
    pub open spec fn wf(self) -> bool {
        &&& self.k < 32
        &&& self.n == pow2(self.k as nat)
        &&& fmul(self.n as nat, self.n_inv.val()) == 1
        &&& fmul(self.gen.val(), self.gen_inv.val()) == 1
    }

    /// The generator raised to `i`, for negative `i` through its inverse.
    pub open spec fn omega_pow(self, i: int) -> nat {
        if i >= 0 {
            fpow(self.gen.val(), i as nat)
        } else {
            fpow(self.gen_inv.val(), (-i) as nat)
        }
    }

    /// The domain of size `2^k` with generator `gen`; nothing when `gen` is
    /// zero.
    pub fn new(k: u32, gen: Scalar) -> (r: Option<Domain>)
        requires
            k < 32,
        ensures
            r is Some <==> gen.val() != 0,
            r is Some ==> r->Some_0.wf() && r->Some_0.k == k && r->Some_0.gen == gen,
    {
        let mut n: usize = 1;
        let mut i: u32 = 0;
        proof {
            vstd::arithmetic::power2::lemma2_to64();
        }
        while i < k
            invariant
                i <= k < 32,
                n == pow2(i as nat),
            decreases k - i,
        {
            proof {
                vstd::arithmetic::power2::lemma_pow2_unfold((i + 1) as nat);
                vstd::arithmetic::power2::lemma_pow2_strictly_increases(i as nat, 31);
                vstd::arithmetic::power2::lemma2_to64();
            }
            n = n * 2;
            i = i + 1;
        }
        proof {
            vstd::arithmetic::power2::lemma_pow2_strictly_increases(k as nat, 32);
            vstd::arithmetic::power2::lemma2_to64();
        }
        let n_inv = match Scalar::from_u64(n as u64).invert() {
            Some(x) => x,
            None => {
                // `n` is a power of two, far below the modulus.
                return None;
            },
        };
        match gen.invert() {
            Some(gen_inv) => Some(Domain { k, n, n_inv, gen, gen_inv }),
            None => None,
        }
    }

    /// `scalar` times the generator raised to `rotation`.
    pub fn rotate_scalar(&self, scalar: &Scalar, rotation: Rotation) -> (r: Scalar)
        ensures
            r.val() == fmul(scalar.val(), self.omega_pow(rotation.0 as int)),
    {
        let base = if rotation.0 >= 0 { self.gen } else { self.gen_inv };
        let e: u32 = if rotation.0 >= 0 { rotation.0 as u32 } else { (-(rotation.0 as i64)) as u32 };
        let p = pow_u32(&base, e);
        scalar.mul(&p)
    }
}

/// `base` raised to `e` by repeated multiplication.
pub fn pow_u32(base: &Scalar, e: u32) -> (r: Scalar)
    ensures
        r.val() == fpow(base.val(), e as nat),
{
    let mut acc = Scalar::from_u64(1);
    let mut i: u32 = 0;
    while i < e
        invariant
            i <= e,
            acc.val() == fpow(base.val(), i as nat),
        decreases e - i,
    {
        acc = acc.mul(base);
        proof {
            lemma_fmul_comm(fpow(base.val(), i as nat), base.val());
        }
        i = i + 1;
    }
    acc
}

/// The Lagrange value `l` of a row whose generator power is `w` satisfies
/// `l * (z - w) == w * n_inv * (z^n - 1)`.
pub open spec fn is_lagrange(l: nat, w: nat, n_inv: nat, z: nat, zn: nat) -> bool {
    fmul(l, fsub(z, w)) == fmul(fmul(w, n_inv), fsub(zn, 1))
}

/// The first value recorded for row `i`.
pub open spec fn find_row(rows: Seq<(i32, Scalar)>, i: i32) -> Option<Scalar>
    decreases rows.len(),
{
    if rows.len() == 0 {
        None
    } else if rows[0].0 == i {
        Some(rows[0].1)
    } else {
        find_row(rows.drop_first(), i)
    }
}

/// Values at the evaluation point `z` of `z^n`, of the inverse of
/// `z^n - 1`, and of the Lagrange polynomials of some rows.
#[derive(Debug)]
pub struct CommonPolynomialEvaluation {
    pub zn: Scalar,
    pub zn_minus_one: Scalar,
    pub zn_minus_one_inv: Scalar,
    pub lagranges: Vec<(i32, Scalar)>,
}

impl CommonPolynomialEvaluation {
    pub open spec fn has_lagrange(self, i: i32) -> bool {
        find_row(self.lagranges@, i) is Some
    }

    /// The value at `z` of a common polynomial.
    pub open spec fn common_val(self, p: CommonPolynomial) -> nat {
        match p {
            CommonPolynomial::Lagrange(i) => match find_row(self.lagranges@, i) {
                Some(v) => v.val(),
                None => 0,
            },
            CommonPolynomial::Vanishing => self.zn_minus_one.val(),
        }
    }

    /// The values are those of `domain` at `z`.
    pub open spec fn wf(self, domain: Domain, z: nat) -> bool {
        &&& self.zn.val() == fpow(z, domain.n as nat)
        &&& self.zn_minus_one.val() == fsub(self.zn.val(), 1)
        &&& fmul(self.zn_minus_one.val(), self.zn_minus_one_inv.val()) == 1
        &&& forall|k: int| 0 <= k < self.lagranges@.len() ==> is_lagrange(
            #[trigger] self.lagranges@[k].1.val(),
            domain.omega_pow(self.lagranges@[k].0 as int),
            domain.n_inv.val(),
            z,
            self.zn.val(),
        )
    }

    /// Evaluates at `z` the vanishing polynomial and the Lagrange
    /// polynomials of `rows`, inverting all denominators in one batch.
    /// Nothing when a denominator is zero: `z^n == 1`, or `z` is the
    /// generator power of one of the rows.
    pub fn new(domain: &Domain, rows: &Vec<i32>, z: &Scalar) -> (r: Option<CommonPolynomialEvaluation>)
        requires
            domain.wf(),
        ensures
            r is None <==> (fsub(fpow(z.val(), domain.n as nat), 1) == 0 || exists|k: int|
                0 <= k < rows@.len() && fsub(z.val(), domain.omega_pow(#[trigger] rows@[k] as int)) == 0),
            r is Some ==> r->Some_0.wf(*domain, z.val()),
            r is Some ==> forall|k: int| 0 <= k < rows@.len() ==> r->Some_0.has_lagrange(#[trigger] rows@[k]),
    {
        let zn = pow_2k(z, domain.k);
        proof {
            vstd::arithmetic::power2::lemma_pow2_strictly_increases(domain.k as nat, 32);
            vstd::arithmetic::power2::lemma2_to64();
        }
        let one = Scalar::from_u64(1);
        let zn_minus_one = zn.sub(&one);
        let mut denoms: Vec<Scalar> = Vec::new();
        let mut numers: Vec<Scalar> = Vec::new();
        denoms.push(zn_minus_one);
        let mut i: usize = 0;
        while i < rows.len()
            invariant
                i <= rows@.len(),
                denoms@.len() == i + 1,
                numers@.len() == i,
                denoms@[0] == zn_minus_one,
                one.val() == 1,
                forall|k: int| 0 <= k < i ==> #[trigger] denoms@[k + 1].val() == fsub(z.val(), domain.omega_pow(rows@[k] as int)),
                forall|k: int| 0 <= k < i ==> #[trigger] numers@[k].val() == fmul(domain.omega_pow(rows@[k] as int), domain.n_inv.val()),
            decreases rows@.len() - i,
        {
            let w = domain.rotate_scalar(&one, Rotation(rows[i]));
            proof {
                lemma_fpow_bound_any(domain, rows@[i as int] as int);
                crate::field::lemma_fmul_one(domain.omega_pow(rows@[i as int] as int));
            }
            assert(one.val() == 1);
            assert(w.val() == fmul(1, domain.omega_pow(rows@[i as int] as int)));
            assert(w.val() == domain.omega_pow(rows@[i as int] as int));
            let d = z.sub(&w);
            let m = w.mul(&domain.n_inv);
            assert(d.val() == fsub(z.val(), domain.omega_pow(rows@[i as int] as int)));
            denoms.push(d);
            numers.push(m);
            assert(denoms@[i + 1] == d);
            i = i + 1;
        }
        let invs = match batch_invert(&denoms) {
            Some(invs) => invs,
            None => {
                proof {
                    let j = choose|j: int| 0 <= j < denoms@.len() && #[trigger] denoms@[j].val() == 0;
                    if j > 0 {
                        assert(denoms@[(j - 1) + 1].val() == 0);
                    }
                }
                return None;
            },
        };
        proof {
            assert(denoms@[0].val() != 0);
            assert forall|k: int| 0 <= k < rows@.len() implies fsub(z.val(), domain.omega_pow(#[trigger] rows@[k] as int)) != 0 by {
                assert(denoms@[k + 1].val() != 0);
            }
        }
        let zn_minus_one_inv = invs[0];
        let mut lagranges: Vec<(i32, Scalar)> = Vec::new();
        let mut j: usize = 0;
        while j < rows.len()
            invariant
                j <= rows@.len(),
                denoms@.len() == rows@.len() + 1,
                invs@.len() == rows@.len() + 1,
                numers@.len() == rows@.len(),
                lagranges@.len() == j,
                zn_minus_one.val() == fsub(zn.val(), 1),
                forall|k: int| 0 <= k < denoms@.len() ==> fmul(#[trigger] denoms@[k].val(), invs@[k].val()) == 1,
                forall|k: int| 0 <= k < rows@.len() ==> #[trigger] denoms@[k + 1].val() == fsub(z.val(), domain.omega_pow(rows@[k] as int)),
                forall|k: int| 0 <= k < rows@.len() ==> #[trigger] numers@[k].val() == fmul(domain.omega_pow(rows@[k] as int), domain.n_inv.val()),
                forall|k: int| 0 <= k < j ==> (#[trigger] lagranges@[k]).0 == rows@[k],
                forall|k: int| 0 <= k < j ==> is_lagrange(
                    (#[trigger] lagranges@[k]).1.val(),
                    domain.omega_pow(lagranges@[k].0 as int),
                    domain.n_inv.val(),
                    z.val(),
                    zn.val(),
                ),
            decreases rows@.len() - j,
        {
            let a = numers[j].mul(&zn_minus_one);
            let l = a.mul(&invs[j + 1]);
            proof {
                let d = denoms@[j + 1].val();
                let iv = invs@[j + 1].val();
                assert(fmul(d, iv) == 1);
                lemma_fmul_comm(d, iv);
                lemma_fmul_bound(numers@[j as int].val(), zn_minus_one.val());
                lemma_fmul_cancel(a.val(), iv, d);
            }
            lagranges.push((rows[j], l));
            j = j + 1;
        }
        let r = CommonPolynomialEvaluation { zn, zn_minus_one, zn_minus_one_inv, lagranges };
        proof {
            assert forall|k: int| 0 <= k < rows@.len() implies r.has_lagrange(#[trigger] rows@[k]) by {
                lemma_find_row_some(r.lagranges@, k);
            }
        }
        Some(r)
    }

    /// The value of a common polynomial whose row, if any, was computed.
    pub fn get(&self, p: &CommonPolynomial) -> (r: Scalar)
        requires
            *p matches CommonPolynomial::Lagrange(i) ==> self.has_lagrange(i),
        ensures
            r.val() == self.common_val(*p),
    {
        match p {
            CommonPolynomial::Lagrange(i) => {
                let mut k: usize = 0;
                assert(self.lagranges@.skip(0) =~= self.lagranges@);
                while k < self.lagranges.len()
                    invariant
                        k <= self.lagranges@.len(),
                        *p == CommonPolynomial::Lagrange(*i),
                        find_row(self.lagranges@, *i) == find_row(self.lagranges@.skip(k as int), *i),
                    decreases self.lagranges@.len() - k,
                {
                    assert(self.lagranges@.skip(k as int).drop_first() =~= self.lagranges@.skip(k + 1));
                    if self.lagranges[k].0 == *i {
                        assert(self.lagranges@.skip(k as int)[0] == self.lagranges@[k as int]);
                        assert(self.lagranges@.skip(k as int).len() > 0);
                        assert(find_row(self.lagranges@.skip(k as int), *i) == Some(self.lagranges@[k as int].1));
                        return self.lagranges[k].1;
                    }
                    k = k + 1;
                }
                proof {
                    assert(self.lagranges@.skip(k as int).len() == 0);
                }
                self.zn
            },
            CommonPolynomial::Vanishing => self.zn_minus_one,
        }
    }

    pub fn zn(&self) -> (r: Scalar)
        ensures
            r == self.zn,
    {
        self.zn
    }

    pub fn zn_minus_one_inv(&self) -> (r: Scalar)
        ensures
            r == self.zn_minus_one_inv,
    {
        self.zn_minus_one_inv
    }
}

proof fn lemma_find_row_some(rows: Seq<(i32, Scalar)>, k: int)
    requires
        0 <= k < rows.len(),
    ensures
        find_row(rows, rows[k].0) is Some,
    decreases k,
{
    if k > 0 && rows[0].0 != rows[k].0 {
        lemma_find_row_some(rows.drop_first(), k - 1);
    }
}

proof fn lemma_fpow_bound_any(domain: &Domain, i: int)
    ensures
        domain.omega_pow(i) < crate::field::fr_modulus(),
{
    if i >= 0 {
        crate::field::lemma_fpow_bound(domain.gen.val(), i as nat);
    } else {
        crate::field::lemma_fpow_bound(domain.gen_inv.val(), (-i) as nat);
    }
}

/// `z` raised to `2^k` by squaring `k` times.
pub fn pow_2k(z: &Scalar, k: u32) -> (r: Scalar)
    ensures
        r.val() == fpow(z.val(), pow2(k as nat)),
{
    let mut acc = z.mul(&Scalar::from_u64(1));
    let mut i: u32 = 0;
    proof {
        vstd::arithmetic::power2::lemma2_to64();
        assert(fpow(z.val(), 0) == 1);
    }
    while i < k
        invariant
            i <= k,
            acc.val() == fpow(z.val(), pow2(i as nat)),
        decreases k - i,
    {
        let ghost e = pow2(i as nat);
        acc = acc.mul(&acc);
        proof {
            lemma_fpow_add(z.val(), e, e);
            vstd::arithmetic::power2::lemma_pow2_unfold((i + 1) as nat);
        }
        i = i + 1;
    }
    acc
}

} // verus!
