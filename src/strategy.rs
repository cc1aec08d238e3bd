//! Accumulators and the policies that decide what becomes of them.
use crate::field::{
    pairing_check, pairing_check_of, g1_from_xy_of, qadd, qmul, Base, EcPoint, G2Point, Scalar,
};
use crate::msm::{lemma_msm_add_assoc, msm_add, msm_eval, Msm, MsmView};
use crate::plonk::{base_view, PlonkProof};
use crate::protocol::Protocol;
use crate::Error;
use vstd::prelude::*;

verus! {

/// Limbs per coordinate of a nested accumulator in the statements.
pub const LIMBS: usize = 4;

/// Bits per limb.
pub const BITS: usize = 68;

/// A deferred pairing check `e(lhs, [1]_2) == e(rhs, [tau]_2)`.
pub struct Accumulator {
    pub lhs: Msm,
    pub rhs: Msm,
}

impl Accumulator {
    pub fn new(lhs: Msm, rhs: Msm) -> (r: Accumulator)
        ensures
            r.lhs@ == lhs@,
            r.rhs@ == rhs@,
    {
        Accumulator { lhs, rhs }
    }

    /// Component-wise MSM addition: the check of both at once.
    pub fn add(&self, other: &Accumulator) -> (r: Accumulator)
        ensures
            r.lhs@ == msm_add(self.lhs@, other.lhs@),
            r.rhs@ == msm_add(self.rhs@, other.rhs@),
    {
        Accumulator { lhs: self.lhs.add(&other.lhs), rhs: self.rhs.add(&other.rhs) }
    }
}

/// Merging accumulators is associative: `(a1 + a2) + a3` and
/// `a1 + (a2 + a3)` are the same MSMs on both sides, and so evaluate to
/// the same points.
pub proof fn lemma_merge_associative(
    l1: MsmView,
    r1: MsmView,
    l2: MsmView,
    r2: MsmView,
    l3: MsmView,
    r3: MsmView,
    gen: Seq<u8>,
)
    ensures
        msm_add(msm_add(l1, l2), l3) == msm_add(l1, msm_add(l2, l3)),
        msm_add(msm_add(r1, r2), r3) == msm_add(r1, msm_add(r2, r3)),
        msm_eval(msm_add(msm_add(l1, l2), l3), gen) == msm_eval(msm_add(l1, msm_add(l2, l3)), gen),
        msm_eval(msm_add(msm_add(r1, r2), r3), gen) == msm_eval(msm_add(r1, msm_add(r2, r3)), gen),
{
    lemma_msm_add_assoc(l1, l2, l3);
    lemma_msm_add_assoc(r1, r2, r3);
}

/// `2^BITS`.
pub open spec fn limb_base() -> nat {
    0x1_0000_0000_0000_0000 * 16
}

pub open spec fn qpow(a: nat, e: nat) -> nat
    decreases e,
{
    if e == 0 {
        1
    } else {
        qmul(qpow(a, (e - 1) as nat), a)
    }
}

/// The base field element `sum(limb_i * 2^(BITS * i))` of the first `n` limbs.
pub open spec fn limbs_value(limbs: Seq<nat>, n: int) -> nat
    decreases n,
{
    if n <= 0 {
        0
    } else {
        qadd(limbs_value(limbs, n - 1), qmul(limbs[n - 1], qpow(limb_base(), (n - 1) as nat)))
    }
}

/// Recombines `LIMBS` limbs into a coordinate.
pub fn fe_from_limbs(limbs: &Vec<Scalar>) -> (r: Base)
    ensures
        r.val() == limbs_value(limbs@.map_values(|s: Scalar| s.val()), limbs@.len() as int),
{
    let ghost ls = limbs@.map_values(|s: Scalar| s.val());
    let shift_step = Base::from_u128(0x1_0000_0000_0000_0000 * 16);
    let mut shift = Base::from_u128(1);
    let mut acc = Base::from_u128(0);
    let mut i: usize = 0;
    proof {
        vstd::arithmetic::div_mod::lemma_small_mod(0, crate::field::fq_modulus());
    }
    while i < limbs.len()
        invariant
            ls == limbs@.map_values(|s: Scalar| s.val()),
            i <= limbs@.len(),
            shift_step.val() == limb_base(),
            shift.val() == qpow(limb_base(), i as nat),
            acc.val() == limbs_value(ls, i as int),
        decreases limbs@.len() - i,
    {
        let limb = Base::from_scalar(&limbs[i]);
        acc = acc.add(&limb.mul(&shift));
        shift = shift.mul(&shift_step);
        i = i + 1;
    }
    acc
}

/// The statements at the protocol's accumulator positions, if all exist.
pub open spec fn gathered(statements: Seq<Vec<Scalar>>, indices: Seq<(usize, usize)>) -> Option<Seq<Scalar>> {
    if forall|k: int| 0 <= k < indices.len() ==> #[trigger] indices[k].0 < statements.len()
        && indices[k].1 < statements[indices[k].0 as int]@.len() {
        Some(Seq::new(indices.len(), |k: int| statements[indices[k].0 as int]@[indices[k].1 as int]))
    } else {
        None
    }
}

/// The coordinate made of the limbs at positions `start..start + LIMBS`.
pub open spec fn coordinate(limbs: Seq<Scalar>, start: int) -> nat {
    limbs_value(limbs.subrange(start, start + LIMBS).map_values(|s: Scalar| s.val()), LIMBS as int)
}

/// Reads the nested accumulator that a protocol with accumulator positions
/// carries in its statements: the affine coordinates of `lhs` and `rhs`,
/// `LIMBS` limbs each. Nothing when the protocol has no such positions.
/// Positions that are missing from the statements, or coordinates that are
/// not a point of the curve, are a malformed encoding of the nested
/// accumulator and are reported as a `Transcript` error of kind
/// `InvalidData`; the proof is then rejected rather than checked without
/// its nested accumulator.
pub fn extract_nested(protocol: &Protocol, statements: &Vec<Vec<Scalar>>) -> (r: Result<Option<Accumulator>, Error>)
    ensures
        opt_acc_view(r) == nested_spec(*protocol, statements@),
        protocol.accumulator_indices is None ==> r == Ok::<Option<Accumulator>, Error>(None),
        protocol.accumulator_indices matches Some(ix) ==> {
            let ok = ix@.len() == 4 * LIMBS && gathered(statements@, ix@) is Some && {
                let ls = gathered(statements@, ix@)->Some_0;
                g1_from_xy_of(coordinate(ls, 0), coordinate(ls, 4)) is Some
                    && g1_from_xy_of(coordinate(ls, 8), coordinate(ls, 12)) is Some
            };
            &&& (r is Ok <==> ok)
            &&& r is Err ==> r->Err_0 is Transcript
            &&& ok ==> (r matches Ok(Some(acc)) && {
                let ls = gathered(statements@, ix@)->Some_0;
                &&& acc.lhs@ == base_view(g1_from_xy_of(coordinate(ls, 0), coordinate(ls, 4))->Some_0)
                &&& acc.rhs@ == base_view(g1_from_xy_of(coordinate(ls, 8), coordinate(ls, 12))->Some_0)
            })
        },
{
    let indices = match &protocol.accumulator_indices {
        None => {
            return Ok(None);
        },
        Some(ix) => ix,
    };
    if indices.len() != 4 * LIMBS {
        return Err(Error::Transcript(std::io::ErrorKind::InvalidData, String::new()));
    }
    let mut limbs: Vec<Scalar> = Vec::new();
    let mut k: usize = 0;
    while k < indices.len()
        invariant
            protocol.accumulator_indices == Some(*indices),
            indices@.len() == 4 * LIMBS,
            k <= indices@.len(),
            limbs@.len() == k,
            forall|j: int| 0 <= j < k ==> #[trigger] indices@[j].0 < statements@.len()
                && indices@[j].1 < statements@[indices@[j].0 as int]@.len()
                && limbs@[j] == statements@[indices@[j].0 as int]@[indices@[j].1 as int],
        decreases indices@.len() - k,
    {
        let (c, row) = indices[k];
        if c >= statements.len() || row >= statements[c].len() {
            proof {
                assert(!(indices@[k as int].0 < statements@.len() && indices@[k as int].1 < statements@[indices@[k as int].0 as int]@.len()));
                assert(gathered(statements@, indices@) is None);
            }
            return Err(Error::Transcript(std::io::ErrorKind::InvalidData, String::new()));
        }
        limbs.push(statements[c][row]);
        k = k + 1;
    }
    proof {
        assert(gathered(statements@, indices@) is Some);
        assert(gathered(statements@, indices@)->Some_0 =~= limbs@);
    }
    let mut coords: Vec<Base> = Vec::new();
    let mut j: usize = 0;
    while j < 4
        invariant
            limbs@.len() == 4 * LIMBS,
            j <= 4,
            coords@.len() == j,
            forall|m: int| 0 <= m < j ==> (#[trigger] coords@[m]).val() == coordinate(limbs@, m * 4),
        decreases 4 - j,
    {
        let mut part: Vec<Scalar> = Vec::new();
        let mut m: usize = 0;
        while m < LIMBS
            invariant
                limbs@.len() == 4 * LIMBS,
                j < 4,
                m <= LIMBS,
                part@ == limbs@.subrange(j * 4, j * 4 + m),
            decreases LIMBS - m,
        {
            part.push(limbs[j * 4 + m]);
            proof {
                assert(limbs@.subrange(j * 4, j * 4 + m + 1) =~= limbs@.subrange(j * 4, j * 4 + m).push(limbs@[j * 4 + m]));
            }
            m = m + 1;
        }
        coords.push(fe_from_limbs(&part));
        j = j + 1;
    }
    let lhs = match EcPoint::from_xy(&coords[0], &coords[1]) {
        Some(p) => p,
        None => {
            return Err(Error::Transcript(std::io::ErrorKind::InvalidData, String::new()));
        },
    };
    let rhs = match EcPoint::from_xy(&coords[2], &coords[3]) {
        Some(p) => p,
        None => {
            return Err(Error::Transcript(std::io::ErrorKind::InvalidData, String::new()));
        },
    };
    proof {
        assert(coords@[1].val() == coordinate(limbs@, 4));
        assert(coords@[2].val() == coordinate(limbs@, 8));
        assert(coords@[3].val() == coordinate(limbs@, 12));
    }
    Ok(Some(Accumulator::new(Msm::base(lhs), Msm::base(rhs))))
}

/// The nested accumulator a protocol's statements carry, as MSMs, as
/// `extract_nested` reads it; `None` when it is malformed.
pub open spec fn nested_spec(protocol: Protocol, statements: Seq<Vec<Scalar>>) -> Option<Option<(MsmView, MsmView)>> {
    match protocol.accumulator_indices {
        None => Some(None),
        Some(ix) => if ix@.len() == 4 * LIMBS && gathered(statements, ix@) is Some && {
            let ls = gathered(statements, ix@)->Some_0;
            g1_from_xy_of(coordinate(ls, 0), coordinate(ls, 4)) is Some
                && g1_from_xy_of(coordinate(ls, 8), coordinate(ls, 12)) is Some
        } {
            let ls = gathered(statements, ix@)->Some_0;
            Some(Some((
                base_view(g1_from_xy_of(coordinate(ls, 0), coordinate(ls, 4))->Some_0),
                base_view(g1_from_xy_of(coordinate(ls, 8), coordinate(ls, 12))->Some_0),
            )))
        } else {
            None
        },
    }
}

pub open spec fn opt_acc_view(r: Result<Option<Accumulator>, Error>) -> Option<Option<(MsmView, MsmView)>> {
    match r {
        Ok(Some(a)) => Some(Some((a.lhs@, a.rhs@))),
        Ok(None) => Some(None),
        Err(_) => None,
    }
}

/// What becomes of an accumulator: which nested accumulator a proof's
/// statements carry, and what is done with the merged result.
pub trait AccumulationStrategy: Sized {
    type Output;

    /// The outcome of `extract_accumulator`.
    spec fn extracts(&self, protocol: Protocol, statements: Seq<Vec<Scalar>>) -> Option<Option<(MsmView, MsmView)>>;

    /// `process` may turn the accumulator `(lhs, rhs)` into `out`, leaving
    /// the strategy as `after`.
    spec fn processes(&self, lhs: MsmView, rhs: MsmView, out: Self::Output, after: Self) -> bool;

    fn extract_accumulator(&self, protocol: &Protocol, statements: &Vec<Vec<Scalar>>) -> (r: Result<Option<Accumulator>, Error>)
        ensures
            opt_acc_view(r) == self.extracts(*protocol, statements@),
            r is Err ==> r->Err_0 is Transcript,
    ;

    fn process(&mut self, proof: PlonkProof, accumulator: Accumulator) -> (out: Self::Output)
        ensures
            old(self).processes(accumulator.lhs@, accumulator.rhs@, out, *final(self)),
    ;
}

/// Keeps the accumulator open: successive proofs are merged into it and
/// the pairing check is left to the caller.
pub struct SameCurveAccumulation {
    pub accumulator: Option<Accumulator>,
}

impl SameCurveAccumulation {
    pub fn new() -> (r: SameCurveAccumulation)
        ensures
            r.accumulator is None,
    {
        SameCurveAccumulation { accumulator: None }
    }

    /// The accumulated pair as points, with `g1` for the constant terms.
    pub fn finalize(&self, g1: &EcPoint) -> (r: Option<(EcPoint, EcPoint)>)
        ensures
            self.accumulator is None <==> r is None,
            self.accumulator matches Some(acc) ==> (r matches Some(p) && p.0.enc() == msm_eval(acc.lhs@, g1.enc())
                && p.1.enc() == msm_eval(acc.rhs@, g1.enc())),
    {
        match &self.accumulator {
            Some(acc) => Some((acc.lhs.evaluate(g1), acc.rhs.evaluate(g1))),
            None => None,
        }
    }
}

impl AccumulationStrategy for SameCurveAccumulation {
    type Output = ();

    open spec fn extracts(&self, protocol: Protocol, statements: Seq<Vec<Scalar>>) -> Option<Option<(MsmView, MsmView)>> {
        nested_spec(protocol, statements)
    }

    /// The kept accumulator becomes the merge of the previous one, if any,
    /// with the new one.
    open spec fn processes(&self, lhs: MsmView, rhs: MsmView, out: (), after: Self) -> bool {
        after.accumulator matches Some(acc) && match self.accumulator {
            Some(prev) => acc.lhs@ == msm_add(prev.lhs@, lhs) && acc.rhs@ == msm_add(prev.rhs@, rhs),
            None => acc.lhs@ == lhs && acc.rhs@ == rhs,
        }
    }

    fn extract_accumulator(&self, protocol: &Protocol, statements: &Vec<Vec<Scalar>>) -> (r: Result<Option<Accumulator>, Error>) {
        extract_nested(protocol, statements)
    }

    /// Merges the accumulator into the one kept.
    fn process(&mut self, proof: PlonkProof, accumulator: Accumulator)
        ensures
            final(self).accumulator matches Some(acc) && (match old(self).accumulator {
                Some(prev) => acc.lhs@ == msm_add(prev.lhs@, accumulator.lhs@) && acc.rhs@ == msm_add(prev.rhs@, accumulator.rhs@),
                None => acc.lhs@ == accumulator.lhs@ && acc.rhs@ == accumulator.rhs@,
            }),
    {
        let merged = match &self.accumulator {
            Some(prev) => prev.add(&accumulator),
            None => accumulator,
        };
        self.accumulator = Some(merged);
    }
}

/// Decides at once: the accumulator is evaluated and its pairing check
/// performed.
pub struct PairingCheckStrategy {
    pub g1: EcPoint,
    pub g2: G2Point,
    pub s_g2: G2Point,
}

impl PairingCheckStrategy {
    pub fn new(g1: EcPoint, g2: G2Point, s_g2: G2Point) -> (r: PairingCheckStrategy)
        ensures
            r.g1 == g1,
            r.g2 == g2,
            r.s_g2 == s_g2,
    {
        PairingCheckStrategy { g1, g2, s_g2 }
    }
}

impl AccumulationStrategy for PairingCheckStrategy {
    type Output = bool;

    open spec fn extracts(&self, protocol: Protocol, statements: Seq<Vec<Scalar>>) -> Option<Option<(MsmView, MsmView)>> {
        nested_spec(protocol, statements)
    }

    /// The answer is the pairing check of the evaluated pair.
    open spec fn processes(&self, lhs: MsmView, rhs: MsmView, out: bool, after: Self) -> bool {
        &&& out == pairing_check_of(msm_eval(lhs, self.g1.enc()), msm_eval(rhs, self.g1.enc()), self.g2.enc(), self.s_g2.enc())
        &&& after == *self
    }

    fn extract_accumulator(&self, protocol: &Protocol, statements: &Vec<Vec<Scalar>>) -> (r: Result<Option<Accumulator>, Error>) {
        extract_nested(protocol, statements)
    }

    /// Whether `e(lhs, g2) == e(rhs, s_g2)` for the evaluated pair.
    fn process(&mut self, proof: PlonkProof, accumulator: Accumulator) -> (r: bool)
        ensures
            r == pairing_check_of(
                msm_eval(accumulator.lhs@, old(self).g1.enc()),
                msm_eval(accumulator.rhs@, old(self).g1.enc()),
                old(self).g2.enc(),
                old(self).s_g2.enc(),
            ),
    {
        let lhs = accumulator.lhs.evaluate(&self.g1);
        let rhs = accumulator.rhs.evaluate(&self.g1);
        pairing_check(&lhs, &rhs, &self.g2, &self.s_g2)
    }
}

} // verus!
