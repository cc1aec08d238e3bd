//! The PLONK accumulation scheme with SHPLONK batched openings: a proof is
//! read from the transcript, its claims are checked through the derived
//! quotient evaluation, and its openings are batched by rotation into an
//! accumulator.
use crate::domain::{CommonPolynomialEvaluation, Domain};
use crate::expression::{lookup, lookup_query, CommonPolynomial, Expression, Query, Rotation};
use crate::field::{fadd, fmul, fneg, fpow, fsub, fr_modulus, g1_decodes, le_value, lemma_fmul_comm, EcPoint, Scalar};
use crate::msm::{msm_add, msm_scale, msm_sum, msm_zero, Msm, MsmView};
use crate::protocol::{lemma_sum_counts_prefix, sum_counts, Protocol};
use crate::transcript::{
    ENCODED_LEN, lemma_segment_skip, segment,
    challenge_items, point_items, read_n_ec_points, read_n_scalars, scalar_items, squeeze_n_challenges,
    TranscriptItem, TranscriptRead,
};
use crate::strategy::{AccumulationStrategy, Accumulator};
use crate::Error;
use vstd::prelude::*;

verus! {

/// The values a proof supplies, in the order the transcript yields them.
pub struct PlonkProof {
    pub statements: Vec<Vec<Scalar>>,
    pub auxiliaries: Vec<EcPoint>,
    pub challenges: Vec<Scalar>,
    pub alpha: Scalar,
    pub quotients: Vec<EcPoint>,
    pub z: Scalar,
    pub evaluations: Vec<Scalar>,
    pub v: Scalar,
    pub ws: Vec<EcPoint>,
    pub u: Scalar,
}

// ---------------------------------------------------------------------
// Rotation sets

/// The polynomials opened at one rotation.
pub struct RotationSet {
    pub rotation: Rotation,
    pub polys: Vec<usize>,
}

/// The position of the set of rotation `rot`, if there is one.
pub open spec fn find_set(sets: Seq<(Rotation, Seq<usize>)>, rot: Rotation) -> Option<int>
    decreases sets.len(),
{
    if sets.len() == 0 {
        None
    } else {
        match find_set(sets.drop_last(), rot) {
            Some(p) => Some(p),
            None => if sets.last().0 == rot {
                Some(sets.len() - 1)
            } else {
                None
            },
        }
    }
}

/// Queries grouped by rotation: sets in order of first appearance, each
/// with its polynomials in query order.
pub open spec fn rotation_sets_spec(queries: Seq<Query>) -> Seq<(Rotation, Seq<usize>)>
    decreases queries.len(),
{
    if queries.len() == 0 {
        seq![]
    } else {
        let sets = rotation_sets_spec(queries.drop_last());
        let q = queries.last();
        match find_set(sets, q.rotation) {
            Some(p) => sets.update(p, (sets[p].0, sets[p].1.push(q.poly))),
            None => sets.push((q.rotation, seq![q.poly])),
        }
    }
}

pub open spec fn sets_view(sets: Seq<RotationSet>) -> Seq<(Rotation, Seq<usize>)> {
    sets.map_values(|s: RotationSet| (s.rotation, s.polys@))
}

proof fn lemma_find_set_bound(sets: Seq<(Rotation, Seq<usize>)>, rot: Rotation)
    ensures
        find_set(sets, rot) matches Some(p) ==> 0 <= p < sets.len() && sets[p].0 == rot,
        find_set(sets, rot) is None ==> forall|k: int| 0 <= k < sets.len() ==> sets[k].0 != rot,
    decreases sets.len(),
{
    if sets.len() > 0 {
        lemma_find_set_bound(sets.drop_last(), rot);
        if find_set(sets, rot) is None {
            assert forall|k: int| 0 <= k < sets.len() implies sets[k].0 != rot by {
                if k < sets.len() - 1 {
                    assert(sets.drop_last()[k] == sets[k]);
                }
            }
        }
    }
}

/// The first position of rotation `rot`; sets never repeat a rotation.
proof fn lemma_find_set_first(sets: Seq<(Rotation, Seq<usize>)>, rot: Rotation, k: int)
    requires
        0 <= k < sets.len(),
        sets[k].0 == rot,
        forall|a: int, b: int| 0 <= a < b < sets.len() ==> sets[a].0 != sets[b].0,
    ensures
        find_set(sets, rot) == Some(k),
    decreases sets.len(),
{
    if k < sets.len() - 1 {
        lemma_find_set_first(sets.drop_last(), rot, k);
    } else {
        lemma_find_set_bound(sets.drop_last(), rot);
    }
}

proof fn lemma_rotation_sets_distinct(queries: Seq<Query>)
    ensures
        forall|a: int, b: int| 0 <= a < b < rotation_sets_spec(queries).len() ==>
            rotation_sets_spec(queries)[a].0 != rotation_sets_spec(queries)[b].0,
    decreases queries.len(),
{
    if queries.len() > 0 {
        lemma_rotation_sets_distinct(queries.drop_last());
        lemma_find_set_bound(rotation_sets_spec(queries.drop_last()), queries.last().rotation);
    }
}

fn copy_polys(v: &Vec<usize>) -> (r: Vec<usize>)
    ensures
        r@ == v@,
{
    let mut r: Vec<usize> = Vec::new();
    let mut i: usize = 0;
    while i < v.len()
        invariant
            i <= v@.len(),
            r@ == v@.subrange(0, i as int),
        decreases v@.len() - i,
    {
        r.push(v[i]);
        proof {
            assert(v@.subrange(0, i + 1) =~= v@.subrange(0, i as int).push(v@[i as int]));
        }
        i = i + 1;
    }
    proof {
        assert(v@.subrange(0, i as int) =~= v@);
    }
    r
}

/// Groups the protocol's queries by rotation.
pub fn rotation_sets(protocol: &Protocol) -> (r: Vec<RotationSet>)
    ensures
        sets_view(r@) == rotation_sets_spec(protocol.queries@),
{
    let mut sets: Vec<RotationSet> = Vec::new();
    let mut i: usize = 0;
    proof {
        assert(sets_view(sets@) =~= Seq::<(Rotation, Seq<usize>)>::empty());
        assert(protocol.queries@.subrange(0, 0) =~= Seq::<Query>::empty());
    }
    while i < protocol.queries.len()
        invariant
            i <= protocol.queries@.len(),
            sets_view(sets@) == rotation_sets_spec(protocol.queries@.subrange(0, i as int)),
        decreases protocol.queries@.len() - i,
    {
        let q = protocol.queries[i];
        let ghost prev = sets_view(sets@);
        proof {
            assert(protocol.queries@.subrange(0, i + 1).drop_last() =~= protocol.queries@.subrange(0, i as int));
            lemma_rotation_sets_distinct(protocol.queries@.subrange(0, i as int));
            lemma_find_set_bound(prev, q.rotation);
        }
        let mut pos: usize = 0;
        while pos < sets.len() && sets[pos].rotation != q.rotation
            invariant
                pos <= sets@.len(),
                prev == sets_view(sets@),
                forall|k: int| 0 <= k < pos ==> prev[k].0 != q.rotation,
            decreases sets@.len() - pos,
        {
            pos = pos + 1;
        }
        if pos < sets.len() {
            proof {
                lemma_find_set_first(prev, q.rotation, pos as int);
            }
            let mut polys = copy_polys(&sets[pos].polys);
            polys.push(q.poly);
            let rotation = sets[pos].rotation;
            sets.set(pos, RotationSet { rotation, polys });
            proof {
                assert(sets_view(sets@) =~= prev.update(pos as int, (prev[pos as int].0, prev[pos as int].1.push(q.poly))));
            }
        } else {
            proof {
                if let Some(p) = find_set(prev, q.rotation) {
                    assert(prev[p].0 == q.rotation);
                }
            }
            let mut polys: Vec<usize> = Vec::new();
            polys.push(q.poly);
            assert(polys@ =~= seq![q.poly]);
            sets.push(RotationSet { rotation: q.rotation, polys });
            proof {
                assert(sets_view(sets@) =~= prev.push((q.rotation, seq![q.poly])));
            }
        }
        i = i + 1;
    }
    proof {
        assert(protocol.queries@.subrange(0, i as int) =~= protocol.queries@);
    }
    sets
}

// ---------------------------------------------------------------------
// Reading the proof

/// The number of proof bytes a proof of this protocol occupies: one
/// encoding per auxiliary commitment, quotient piece, evaluation and
/// opening commitment.
pub open spec fn proof_len(protocol: Protocol) -> nat {
    ENCODED_LEN as nat * (protocol.num_auxiliary_total() + (protocol.max_degree_spec() - 1) as nat
        + protocol.evaluations@.len() + rotation_sets_spec(protocol.queries@).len())
}

/// The stream holds a proof in this protocol's layout: enough bytes, the
/// auxiliary commitments and quotient pieces as valid points, then the
/// evaluations as canonical scalars, then the opening commitments as
/// valid points.
pub open spec fn stream_fits(protocol: Protocol, bytes: Seq<u8>) -> bool {
    let a = protocol.num_auxiliary_total() as int;
    let q = protocol.max_degree_spec() - 1;
    let e = protocol.evaluations@.len() as int;
    let w = rotation_sets_spec(protocol.queries@).len() as int;
    &&& bytes.len() >= proof_len(protocol)
    &&& forall|k: int| 0 <= k < a + q ==> #[trigger] g1_decodes(segment(bytes, k))
    &&& forall|k: int| a + q <= k < a + q + e ==> #[trigger] le_value(segment(bytes, k)) < fr_modulus()
    &&& forall|k: int| a + q + e <= k < a + q + e + w ==> #[trigger] g1_decodes(segment(bytes, k))
}

/// The segments read after the auxiliaries sit at their offsets in the
/// whole stream.
proof fn lemma_read_segments(proof: PlonkProof, protocol: Protocol, rem0: Seq<u8>, pre_q: Seq<u8>, pre_e: Seq<u8>, pre_w: Seq<u8>)
    requires
        proof.fits(protocol),
        protocol.wf(),
        proof.auxiliaries@.len() == protocol.num_auxiliary_total(),
        rem0.len() >= ENCODED_LEN * proof.auxiliaries@.len(),
        pre_q == rem0.skip(ENCODED_LEN * proof.auxiliaries@.len()),
        pre_q.len() >= ENCODED_LEN * proof.quotients@.len(),
        pre_e == pre_q.skip(ENCODED_LEN * proof.quotients@.len()),
        pre_e.len() >= ENCODED_LEN * proof.evaluations@.len(),
        pre_w == pre_e.skip(ENCODED_LEN * proof.evaluations@.len()),
        pre_w.len() >= ENCODED_LEN * proof.ws@.len(),
        forall|k: int| 0 <= k < proof.auxiliaries@.len() ==> #[trigger] proof.auxiliaries@[k].enc() == segment(rem0, k)
            && g1_decodes(segment(rem0, k)),
        forall|k: int| 0 <= k < proof.quotients@.len() ==> #[trigger] proof.quotients@[k].enc() == segment(pre_q, k)
            && g1_decodes(segment(pre_q, k)),
        forall|k: int| 0 <= k < proof.evaluations@.len() ==> #[trigger] proof.evaluations@[k].val() == le_value(segment(pre_e, k))
            && le_value(segment(pre_e, k)) < fr_modulus(),
        forall|k: int| 0 <= k < proof.ws@.len() ==> #[trigger] proof.ws@[k].enc() == segment(pre_w, k)
            && g1_decodes(segment(pre_w, k)),
    ensures
        proof.decoded_from(rem0),
        stream_fits(protocol, rem0),
{
    let a = proof.auxiliaries@.len() as int;
    let q = proof.quotients@.len() as int;
    let e = proof.evaluations@.len() as int;
    let w = proof.ws@.len() as int;
    assert(pre_e =~= rem0.skip(ENCODED_LEN * (a + q)));
    assert(pre_w =~= rem0.skip(ENCODED_LEN * (a + q + e)));
    assert forall|k: int| 0 <= k < q implies #[trigger] proof.quotients@[k].enc() == segment(rem0, a + k)
        && g1_decodes(segment(rem0, a + k)) by {
        lemma_segment_skip(rem0, a, k);
    }
    assert forall|k: int| 0 <= k < e implies #[trigger] proof.evaluations@[k].val() == le_value(segment(rem0, a + q + k))
        && le_value(segment(rem0, a + q + k)) < fr_modulus() by {
        lemma_segment_skip(rem0, a + q, k);
    }
    assert forall|k: int| 0 <= k < w implies #[trigger] proof.ws@[k].enc() == segment(rem0, a + q + e + k)
        && g1_decodes(segment(rem0, a + q + e + k)) by {
        lemma_segment_skip(rem0, a + q + e, k);
    }
    assert forall|k: int| 0 <= k < a + q implies #[trigger] g1_decodes(segment(rem0, k)) by {
        if k < a {
            assert(proof.auxiliaries@[k].enc() == segment(rem0, k));
        } else {
            assert(proof.quotients@[k - a].enc() == segment(rem0, a + (k - a)));
        }
    }
    assert forall|k: int| a + q <= k < a + q + e implies #[trigger] le_value(segment(rem0, k)) < fr_modulus() by {
        assert(proof.evaluations@[k - a - q].val() == le_value(segment(rem0, a + q + (k - a - q))));
    }
    assert forall|k: int| a + q + e <= k < a + q + e + w implies #[trigger] g1_decodes(segment(rem0, k)) by {
        assert(proof.ws@[k - a - q - e].enc() == segment(rem0, a + q + e + (k - a - q - e)));
    }
}

proof fn lemma_sum_counts_zero(s: Seq<usize>, i: int)
    requires
        sum_counts(s) == 0,
        0 <= i < s.len(),
    ensures
        s[i] == 0,
    decreases s.len(),
{
    if i < s.len() - 1 {
        lemma_sum_counts_zero(s.drop_last(), i);
    }
}

/// The history of absorbing every statement, column by column.
pub open spec fn statement_items(statements: Seq<Vec<Scalar>>) -> Seq<TranscriptItem>
    decreases statements.len(),
{
    if statements.len() == 0 {
        seq![]
    } else {
        statement_items(statements.drop_last()) + scalar_items(statements.last()@)
    }
}

/// The history of the phases: each reads its auxiliary commitments, then
/// squeezes its challenges.
pub open spec fn phase_items(
    num_auxiliary: Seq<usize>,
    num_challenge: Seq<usize>,
    auxiliaries: Seq<EcPoint>,
    challenges: Seq<Scalar>,
) -> Seq<TranscriptItem>
    decreases num_auxiliary.len(),
{
    if num_auxiliary.len() == 0 || num_challenge.len() == 0 {
        seq![]
    } else {
        let na = num_auxiliary.last() as int;
        let nc = num_challenge.last() as int;
        phase_items(
            num_auxiliary.drop_last(),
            num_challenge.drop_last(),
            auxiliaries.subrange(0, auxiliaries.len() - na),
            challenges.subrange(0, challenges.len() - nc),
        ) + point_items(auxiliaries.subrange(auxiliaries.len() - na, auxiliaries.len() as int))
            + challenge_items(challenges.subrange(challenges.len() - nc, challenges.len() as int))
    }
}

impl PlonkProof {
    /// Everything reading this proof absorbs and squeezes, in order.
    pub open spec fn transcript_items(self, protocol: Protocol) -> Seq<TranscriptItem> {
        statement_items(self.statements@)
            + phase_items(protocol.num_auxiliary@, protocol.num_challenge@, self.auxiliaries@, self.challenges@)
            + seq![TranscriptItem::Challenge(self.alpha)]
            + point_items(self.quotients@)
            + seq![TranscriptItem::Challenge(self.z)]
            + scalar_items(self.evaluations@)
            + seq![TranscriptItem::Challenge(self.v)]
            + point_items(self.ws@)
            + seq![TranscriptItem::Challenge(self.u)]
    }

    /// Each value read is decoded from its segment of the stream, in the
    /// order auxiliaries, quotient pieces, evaluations, opening commitments.
    pub open spec fn decoded_from(self, bytes: Seq<u8>) -> bool {
        let a = self.auxiliaries@.len() as int;
        let q = self.quotients@.len() as int;
        let e = self.evaluations@.len() as int;
        &&& forall|k: int| 0 <= k < a ==> #[trigger] self.auxiliaries@[k].enc() == segment(bytes, k)
            && g1_decodes(segment(bytes, k))
        &&& forall|k: int| 0 <= k < q ==> #[trigger] self.quotients@[k].enc() == segment(bytes, a + k)
            && g1_decodes(segment(bytes, a + k))
        &&& forall|k: int| 0 <= k < e ==> #[trigger] self.evaluations@[k].val() == le_value(segment(bytes, a + q + k))
            && le_value(segment(bytes, a + q + k)) < fr_modulus()
        &&& forall|k: int| 0 <= k < self.ws@.len() ==> #[trigger] self.ws@[k].enc() == segment(bytes, a + q + e + k)
            && g1_decodes(segment(bytes, a + q + e + k))
    }

    /// The proof has the shape the protocol prescribes.
    pub open spec fn fits(self, protocol: Protocol) -> bool {
        &&& self.statements@.len() == protocol.num_statement
        &&& self.auxiliaries@.len() == protocol.num_auxiliary_total()
        &&& self.challenges@.len() == protocol.num_challenge_total()
        &&& self.quotients@.len() == protocol.max_degree_spec() - 1
        &&& self.evaluations@.len() == protocol.evaluations@.len()
        &&& self.ws@.len() == rotation_sets_spec(protocol.queries@).len()
    }

    /// Reads a proof: the statements are absorbed, then per phase the
    /// auxiliary commitments are read and the challenges squeezed, then
    /// `alpha`, the quotient pieces, `z`, the evaluations, `v`, one opening
    /// commitment per rotation set and `u`, in this order.
    #[verifier::rlimit(100)]
    pub fn read<T: TranscriptRead>(
        protocol: &Protocol,
        statements: Vec<Vec<Scalar>>,
        transcript: &mut T,
    ) -> (r: Result<PlonkProof, Error>)
        requires
            protocol.wf(),
        ensures
            (r matches Err(Error::InvalidInstances)) <==> statements@.len() != protocol.num_statement,
            r is Err ==> (r->Err_0 is InvalidInstances || r->Err_0 is Transcript),
            r is Ok ==> r->Ok_0.statements@ == statements@,
            r is Ok ==> r->Ok_0.fits(*protocol),
            r is Ok ==> final(transcript).log() == old(transcript).log() + r->Ok_0.transcript_items(*protocol),
            statements@.len() != protocol.num_statement ==> *final(transcript) == *old(transcript),
            r is Ok ==> old(transcript).remaining().len() >= proof_len(*protocol)
                && final(transcript).remaining() == old(transcript).remaining().skip(proof_len(*protocol) as int),
            r is Ok ==> r->Ok_0.decoded_from(old(transcript).remaining()),
            r is Ok ==> stream_fits(*protocol, old(transcript).remaining()),
            statements@.len() == protocol.num_statement
                && (forall|c: int| 0 <= c < statements@.len() ==> (#[trigger] statements@[c])@.len() == 0)
                && protocol.num_auxiliary_total() == 0 && protocol.max_degree_spec() == 1
                && protocol.evaluations@.len() == 0 && protocol.queries@.len() == 0 ==> r is Ok,
    {
        let ghost rem0 = transcript.remaining();
        if statements.len() != protocol.num_statement {
            return Err(Error::InvalidInstances);
        }
        let ghost start = transcript.log();
        let mut c: usize = 0;
        proof {
            assert(statements@.subrange(0, 0) =~= Seq::<Vec<Scalar>>::empty());
            assert(start + statement_items(Seq::<Vec<Scalar>>::empty()) =~= start);
        }
        while c < statements.len()
            invariant
                c <= statements@.len(),
                statements@.len() == protocol.num_statement,
                transcript.remaining() == rem0,
                rem0 == old(transcript).remaining(),
                transcript.log() == start + statement_items(statements@.subrange(0, c as int)),
            decreases statements@.len() - c,
        {
            let ghost before = transcript.log();
            let mut k: usize = 0;
            proof {
                assert(before + scalar_items(statements@[c as int]@.subrange(0, 0)) =~= before);
            }
            while k < statements[c].len()
                invariant
                    c < statements@.len(),
                    statements@.len() == protocol.num_statement,
                    transcript.remaining() == rem0,
                    k <= statements@[c as int]@.len(),
                    transcript.log() == before + scalar_items(statements@[c as int]@.subrange(0, k as int)),
                decreases statements@[c as int]@.len() - k,
            {
                transcript.common_scalar(&statements[c][k])?;
                proof {
                    assert(scalar_items(statements@[c as int]@.subrange(0, k + 1)) =~= scalar_items(
                        statements@[c as int]@.subrange(0, k as int),
                    ).push(TranscriptItem::Scalar(statements@[c as int]@[k as int])));
                }
                k = k + 1;
            }
            proof {
                assert(statements@[c as int]@.subrange(0, k as int) =~= statements@[c as int]@);
                assert(statements@.subrange(0, c + 1).drop_last() =~= statements@.subrange(0, c as int));
                assert(start + statement_items(statements@.subrange(0, c + 1)) =~= start + statement_items(
                    statements@.subrange(0, c as int),
                ) + scalar_items(statements@[c as int]@));
            }
            c = c + 1;
        }
        proof {
            assert(statements@.subrange(0, c as int) =~= statements@);
        }
        let ghost after_statements = transcript.log();

        let mut auxiliaries: Vec<EcPoint> = Vec::new();
        let mut challenges: Vec<Scalar> = Vec::new();
        let mut phase: usize = 0;
        proof {
            assert(protocol.num_auxiliary@.subrange(0, 0) =~= Seq::<usize>::empty());
            assert(protocol.num_challenge@.subrange(0, 0) =~= Seq::<usize>::empty());
            assert(after_statements + phase_items(seq![], seq![], auxiliaries@, challenges@) =~= after_statements);
        }
        while phase < protocol.num_auxiliary.len()
            invariant
                protocol.wf(),
                statements@.len() == protocol.num_statement,
                rem0 == old(transcript).remaining(),
                rem0.len() >= ENCODED_LEN * auxiliaries@.len(),
                transcript.remaining() == rem0.skip(ENCODED_LEN * auxiliaries@.len()),
                protocol.num_auxiliary_total() == 0 ==> auxiliaries@.len() == 0,
                forall|k: int| 0 <= k < auxiliaries@.len() ==> #[trigger] auxiliaries@[k].enc() == segment(rem0, k)
                    && g1_decodes(segment(rem0, k)),
                phase <= protocol.num_auxiliary@.len(),
                auxiliaries@.len() == sum_counts(protocol.num_auxiliary@.subrange(0, phase as int)),
                challenges@.len() == sum_counts(protocol.num_challenge@.subrange(0, phase as int)),
                transcript.log() == after_statements + phase_items(
                    protocol.num_auxiliary@.subrange(0, phase as int),
                    protocol.num_challenge@.subrange(0, phase as int),
                    auxiliaries@,
                    challenges@,
                ),
            decreases protocol.num_auxiliary@.len() - phase,
        {
            let ghost log0 = transcript.log();
            let ghost aux0 = auxiliaries@;
            let ghost ch0 = challenges@;
            proof {
                if protocol.num_auxiliary_total() == 0 {
                    lemma_sum_counts_zero(protocol.num_auxiliary@, phase as int);
                }
            }
            let ghost pre = transcript.remaining();
            let points = read_n_ec_points(transcript, protocol.num_auxiliary[phase])?;
            let cs = squeeze_n_challenges(transcript, protocol.num_challenge[phase]);
            let mut j: usize = 0;
            while j < points.len()
                invariant
                    j <= points@.len(),
                    auxiliaries@ == aux0 + points@.subrange(0, j as int),
                decreases points@.len() - j,
            {
                auxiliaries.push(points[j]);
                proof {
                    assert(points@.subrange(0, j + 1) =~= points@.subrange(0, j as int).push(points@[j as int]));
                }
                j = j + 1;
            }
            let mut j: usize = 0;
            while j < cs.len()
                invariant
                    j <= cs@.len(),
                    challenges@ == ch0 + cs@.subrange(0, j as int),
                decreases cs@.len() - j,
            {
                challenges.push(cs[j]);
                proof {
                    assert(cs@.subrange(0, j + 1) =~= cs@.subrange(0, j as int).push(cs@[j as int]));
                }
                j = j + 1;
            }
            proof {
                assert(points@.subrange(0, points@.len() as int) =~= points@);
                assert(cs@.subrange(0, cs@.len() as int) =~= cs@);
                let na = protocol.num_auxiliary@.subrange(0, phase + 1);
                let nc = protocol.num_challenge@.subrange(0, phase + 1);
                assert(na.drop_last() =~= protocol.num_auxiliary@.subrange(0, phase as int));
                assert(nc.drop_last() =~= protocol.num_challenge@.subrange(0, phase as int));
                assert(auxiliaries@.subrange(0, auxiliaries@.len() - points@.len()) =~= aux0);
                assert(challenges@.subrange(0, challenges@.len() - cs@.len()) =~= ch0);
                assert(auxiliaries@.subrange(auxiliaries@.len() - points@.len(), auxiliaries@.len() as int) =~= points@);
                assert(challenges@.subrange(challenges@.len() - cs@.len(), challenges@.len() as int) =~= cs@);
                lemma_sum_counts_prefix(protocol.num_auxiliary@, phase + 1);
                lemma_sum_counts_prefix(protocol.num_challenge@, phase + 1);
                assert(rem0.skip(ENCODED_LEN * aux0.len()).skip(ENCODED_LEN * points@.len()) =~= rem0.skip(ENCODED_LEN * auxiliaries@.len()));
                assert forall|k: int| 0 <= k < auxiliaries@.len() implies #[trigger] auxiliaries@[k].enc() == segment(rem0, k)
                    && g1_decodes(segment(rem0, k)) by {
                    if k >= aux0.len() {
                        assert(auxiliaries@[k] == points@[k - aux0.len()]);
                        lemma_segment_skip(rem0, aux0.len() as int, k - aux0.len());
                    } else {
                        assert(auxiliaries@[k] == aux0[k]);
                    }
                }
            }
            phase = phase + 1;
        }
        proof {
            assert(protocol.num_auxiliary@.subrange(0, phase as int) =~= protocol.num_auxiliary@);
            assert(protocol.num_challenge@.subrange(0, phase as int) =~= protocol.num_challenge@);
        }

        let alpha = transcript.squeeze_challenge();
        let max_degree = protocol.max_degree();
        let ghost pre_q = transcript.remaining();
        let quotients = read_n_ec_points(transcript, max_degree - 1)?;
        let z = transcript.squeeze_challenge();
        let ghost pre_e = transcript.remaining();
        let evaluations = read_n_scalars(transcript, protocol.evaluations.len())?;
        let v = transcript.squeeze_challenge();
        let sets = rotation_sets(protocol);
        let ghost pre_w = transcript.remaining();
        let ws = read_n_ec_points(transcript, sets.len())?;
        let u = transcript.squeeze_challenge();
        let proof = PlonkProof { statements, auxiliaries, challenges, alpha, quotients, z, evaluations, v, ws, u };
        proof {
            assert(sets_view(sets@).len() == sets@.len());
            let a = ENCODED_LEN * proof.auxiliaries@.len();
            let b = ENCODED_LEN * proof.quotients@.len();
            let c = ENCODED_LEN * proof.evaluations@.len();
            let d = ENCODED_LEN * proof.ws@.len();
            assert(rem0.skip(a).skip(b).skip(c).skip(d) =~= rem0.skip(a + b + c + d));
            assert(a + b + c + d == proof_len(*protocol)) by (nonlinear_arith)
                requires
                    a == ENCODED_LEN * proof.auxiliaries@.len(),
                    b == ENCODED_LEN * proof.quotients@.len(),
                    c == ENCODED_LEN * proof.evaluations@.len(),
                    d == ENCODED_LEN * proof.ws@.len(),
                    proof_len(*protocol) == ENCODED_LEN * (proof.auxiliaries@.len() + proof.quotients@.len()
                        + proof.evaluations@.len() + proof.ws@.len()),
            ;
            assert(transcript.log() =~= old(transcript).log() + proof.transcript_items(*protocol));
            lemma_read_segments(proof, *protocol, rem0, pre_q, pre_e, pre_w);
        }
        Ok(proof)
    }
}

// ---------------------------------------------------------------------
// Commitments and evaluations

/// `1 * base`.
pub open spec fn base_view(e: Seq<u8>) -> MsmView {
    MsmView { constant: 0, scalars: seq![1nat], bases: seq![e] }
}

/// The quotient commitment recombined from its pieces: `sum(zn^i * piece_i)`.
pub open spec fn quotient_view(qs: Seq<EcPoint>, zn: nat) -> MsmView {
    msm_sum(Seq::new(qs.len(), |k: int| msm_scale(base_view(qs[k].enc()), fpow(zn, k as nat))))
}

pub open spec fn opt_view(o: Option<Msm>) -> Option<MsmView> {
    match o {
        Some(m) => Some(m@),
        None => None,
    }
}

/// The sum, from the left, of `fmul(L_k(z), column[k])` over the first `n` rows.
pub open spec fn statement_eval(common: CommonPolynomialEvaluation, col: Seq<Scalar>, n: int) -> nat
    decreases n,
{
    if n <= 0 {
        0
    } else {
        fadd(
            statement_eval(common, col, n - 1),
            fmul(common.common_val(CommonPolynomial::Lagrange((n - 1) as i32)), col[n - 1].val()),
        )
    }
}

/// The sum, from the left, of `alpha^(count - 1 - j) * relation_j` over the
/// first `n` relations; the first relation that fails to evaluate decides.
pub open spec fn relations_sum(
    rels: Seq<Expression>,
    common: CommonPolynomialEvaluation,
    evals: Seq<(Query, Scalar)>,
    challenges: Seq<Scalar>,
    alpha: nat,
    n: int,
) -> Result<nat, Error>
    decreases n,
{
    if n <= 0 {
        Ok(0)
    } else {
        match relations_sum(rels, common, evals, challenges, alpha, n - 1) {
            Err(e) => Err(e),
            Ok(acc) => match rels[n - 1].eval_spec(common, evals, challenges) {
                Err(e) => Err(e),
                Ok(x) => Ok(fadd(acc, fmul(fpow(alpha, (rels.len() - n) as nat), x))),
            },
        }
    }
}

/// `x^i` for `i` in `0..n`.
pub fn powers(x: &Scalar, n: usize) -> (r: Vec<Scalar>)
    ensures
        r@.len() == n,
        forall|i: int| 0 <= i < n ==> #[trigger] r@[i].val() == fpow(x.val(), i as nat),
{
    let mut r: Vec<Scalar> = Vec::new();
    let mut acc = Scalar::from_u64(1);
    let mut i: usize = 0;
    while i < n
        invariant
            i <= n,
            r@.len() == i,
            acc.val() == fpow(x.val(), i as nat),
            forall|k: int| 0 <= k < i ==> #[trigger] r@[k].val() == fpow(x.val(), k as nat),
        decreases n - i,
    {
        r.push(acc);
        proof {
            lemma_fmul_comm(fpow(x.val(), i as nat), x.val());
        }
        acc = acc.mul(x);
        i = i + 1;
    }
    r
}

impl PlonkProof {
    /// The commitment of polynomial `i`: preprocessed ones as given, each
    /// statement column as the constant term folded with the Lagrange values
    /// at `z`, auxiliaries as read, and the quotient recombined from its
    /// pieces with powers of `z^n`.
    pub open spec fn commitment_spec(self, protocol: Protocol, common: CommonPolynomialEvaluation, i: int) -> Option<MsmView> {
        let p = protocol.preprocessed@.len() as int;
        let s = protocol.num_statement as int;
        let v = protocol.vanishing_poly_spec() as int;
        if i < p {
            Some(base_view(protocol.preprocessed@[i].enc()))
        } else if i < p + s {
            let col = self.statements@[i - p]@;
            Some(MsmView { constant: statement_eval(common, col, col.len() as int), scalars: seq![], bases: seq![] })
        } else if i < v {
            Some(base_view(self.auxiliaries@[i - p - s].enc()))
        } else {
            Some(quotient_view(self.quotients@, common.zn.val()))
        }
    }

    pub fn commitments(&self, protocol: &Protocol, common: &CommonPolynomialEvaluation) -> (r: Vec<Option<Msm>>)
        requires
            common.wf(protocol.domain, self.z.val()),
            protocol.wf(),
            self.fits(*protocol),
            self.common_covers(*protocol, *common),
        ensures
            r@.len() == protocol.vanishing_poly_spec() + 1,
            forall|i: int| 0 <= i < r@.len() ==> opt_view(#[trigger] r@[i]) == self.commitment_spec(*protocol, *common, i),
    {
        let ghost zn = common.zn.val();
        let folded = self.statement_evaluations(protocol, common);
        let vanishing = protocol.vanishing_poly();
        let np = protocol.preprocessed.len();
        let ns = protocol.num_statement;
        let mut r: Vec<Option<Msm>> = Vec::new();
        let mut i: usize = 0;
        while i < np
            invariant
                np == protocol.preprocessed@.len(),
                ns == protocol.num_statement,
                i <= np,
                r@.len() == i,
                forall|k: int| 0 <= k < i ==> opt_view(#[trigger] r@[k]) == self.commitment_spec(*protocol, *common, k),
            decreases np - i,
        {
            r.push(Some(Msm::base(protocol.preprocessed[i])));
            i = i + 1;
        }
        let mut i: usize = 0;
        while i < ns
            invariant
                protocol.wf(),
                np == protocol.preprocessed@.len(),
                ns == protocol.num_statement,
                vanishing == protocol.vanishing_poly_spec(),
                self.fits(*protocol),
                self.base_entries(*protocol, *common, folded@),
                i <= ns,
                r@.len() == np + i,
                forall|k: int| 0 <= k < np + i ==> opt_view(#[trigger] r@[k]) == self.commitment_spec(*protocol, *common, k),
            decreases ns - i,
        {
            proof {
                assert(folded@[i as int].1.val() == statement_eval(*common, self.statements@[i as int]@, self.statements@[i as int]@.len() as int));
            }
            r.push(Some(Msm::scalar(folded[i].1)));
            i = i + 1;
        }
        let mut i: usize = 0;
        while i < self.auxiliaries.len()
            invariant
                protocol.wf(),
                self.fits(*protocol),
                np == protocol.preprocessed@.len(),
                ns == protocol.num_statement,
                vanishing == protocol.vanishing_poly_spec(),
                i <= self.auxiliaries@.len(),
                r@.len() == np + ns + i,
                forall|k: int| 0 <= k < np + ns + i ==> opt_view(#[trigger] r@[k]) == self.commitment_spec(*protocol, *common, k),
            decreases self.auxiliaries@.len() - i,
        {
            r.push(Some(Msm::base(self.auxiliaries[i])));
            i = i + 1;
        }
        let pows = powers(&common.zn, self.quotients.len());
        let mut pieces: Vec<Msm> = Vec::new();
        let mut k: usize = 0;
        while k < self.quotients.len()
            invariant
                k <= self.quotients@.len(),
                pows@.len() == self.quotients@.len(),
                forall|i: int| 0 <= i < pows@.len() ==> #[trigger] pows@[i].val() == fpow(zn, i as nat),
                pieces@.len() == k,
                forall|i: int| 0 <= i < k ==> (#[trigger] pieces@[i])@ == msm_scale(
                    base_view(self.quotients@[i].enc()),
                    fpow(zn, i as nat),
                ),
            decreases self.quotients@.len() - k,
        {
            pieces.push(Msm::base(self.quotients[k]).scale(&pows[k]));
            k = k + 1;
        }
        let quotient = Msm::sum(&pieces);
        proof {
            assert(pieces@.map_values(|m: Msm| m@) =~= Seq::new(
                self.quotients@.len(),
                |k: int| msm_scale(base_view(self.quotients@[k].enc()), fpow(zn, k as nat)),
            ));
        }
        r.push(Some(quotient));
        proof {
            assert(r@.len() == vanishing + 1);
            assert forall|k: int| 0 <= k < r@.len() implies opt_view(#[trigger] r@[k]) == self.commitment_spec(*protocol, *common, k) by {
                if k == vanishing {
                    assert(opt_view(r@[k]) == Some(quotient_view(self.quotients@, zn)));
                }
            }
        }
        r
    }

    /// The statement evaluations are those of the first entries, then come
    /// the protocol's evaluation queries with the values read.
    pub open spec fn base_entries(self, protocol: Protocol, common: CommonPolynomialEvaluation, e: Seq<(Query, Scalar)>) -> bool {
        let p = protocol.preprocessed@.len();
        let s = protocol.num_statement as int;
        &&& e.len() == s + protocol.evaluations@.len()
        &&& forall|i: int| 0 <= i < s ==> (#[trigger] e[i]).0 == (Query { poly: (p + i) as usize, rotation: Rotation(0) })
            && e[i].1.val() == statement_eval(common, self.statements@[i]@, self.statements@[i]@.len() as int)
        &&& forall|j: int| 0 <= j < protocol.evaluations@.len() ==> #[trigger] e[s + j] == (
            protocol.evaluations@[j],
            self.evaluations@[j],
        )
    }

    /// Lagrange values for every statement row and every row a relation
    /// uses are at hand.
    pub open spec fn common_covers(self, protocol: Protocol, common: CommonPolynomialEvaluation) -> bool {
        &&& forall|c: int, k: i32| #![trigger self.statements@[c], common.has_lagrange(k)]
            0 <= c < self.statements@.len() && 0 <= k < self.statements@[c]@.len() ==> common.has_lagrange(k)
        &&& forall|j: int, i: i32| 0 <= j < protocol.relations@.len() && #[trigger] protocol.relations@[j].uses_lagrange(i)
            ==> common.has_lagrange(i)
        &&& forall|c: int| 0 <= c < self.statements@.len() ==> (#[trigger] self.statements@[c])@.len() <= i32::MAX
    }

    fn statement_evaluations(&self, protocol: &Protocol, common: &CommonPolynomialEvaluation) -> (r: Vec<(Query, Scalar)>)
        requires
            protocol.wf(),
            self.fits(*protocol),
            self.common_covers(*protocol, *common),
        ensures
            self.base_entries(*protocol, *common, r@),
    {
        let np = protocol.preprocessed.len();
        let mut r: Vec<(Query, Scalar)> = Vec::new();
        let mut c: usize = 0;
        while c < self.statements.len()
            invariant
                protocol.wf(),
                self.fits(*protocol),
                self.common_covers(*protocol, *common),
                np == protocol.preprocessed@.len(),
                c <= self.statements@.len(),
                r@.len() == c,
                forall|i: int| 0 <= i < c ==> (#[trigger] r@[i]).0 == (Query { poly: (np + i) as usize, rotation: Rotation(0) })
                    && r@[i].1.val() == statement_eval(*common, self.statements@[i]@, self.statements@[i]@.len() as int),
            decreases self.statements@.len() - c,
        {
            let col = &self.statements[c];
            let mut acc = Scalar::from_u64(0);
            let mut k: usize = 0;
            while k < col.len()
                invariant
                    self.common_covers(*protocol, *common),
                    c < self.statements@.len(),
                    *col == self.statements@[c as int],
                    k <= col@.len(),
                    acc.val() == statement_eval(*common, col@, k as int),
                decreases col@.len() - k,
            {
                proof {
                    assert(common.has_lagrange(k as i32));
                }
                let l = common.get(&CommonPolynomial::Lagrange(k as i32));
                acc = acc.add(&l.mul(&col[k]));
                k = k + 1;
            }
            proof {
                vstd::arithmetic::div_mod::lemma_small_mod(0, crate::field::fr_modulus());
            }
            r.push((Query { poly: np + c, rotation: Rotation(0) }, acc));
            c = c + 1;
        }
        let mut j: usize = 0;
        while j < protocol.evaluations.len()
            invariant
                protocol.wf(),
                self.fits(*protocol),
                np == protocol.preprocessed@.len(),
                j <= protocol.evaluations@.len(),
                r@.len() == protocol.num_statement + j,
                forall|i: int| 0 <= i < protocol.num_statement ==> (#[trigger] r@[i]).0 == (Query { poly: (np + i) as usize, rotation: Rotation(0) })
                    && r@[i].1.val() == statement_eval(*common, self.statements@[i]@, self.statements@[i]@.len() as int),
                forall|jj: int| 0 <= jj < j ==> #[trigger] r@[protocol.num_statement + jj] == (
                    protocol.evaluations@[jj],
                    self.evaluations@[jj],
                ),
            decreases protocol.evaluations@.len() - j,
        {
            r.push((protocol.evaluations[j], self.evaluations[j]));
            j = j + 1;
        }
        r
    }

    fn quotient_evaluation(
        &self,
        protocol: &Protocol,
        common: &CommonPolynomialEvaluation,
        entries: &Vec<(Query, Scalar)>,
    ) -> (r: Result<Scalar, Error>)
        requires
            protocol.wf(),
            self.common_covers(*protocol, *common),
        ensures
            match r {
                Ok(x) => relations_sum(protocol.relations@, *common, entries@, self.challenges@, self.alpha.val(), protocol.relations@.len() as int)
                    matches Ok(s) && x.val() == fmul(s, common.zn_minus_one_inv.val()),
                Err(e) => relations_sum(protocol.relations@, *common, entries@, self.challenges@, self.alpha.val(), protocol.relations@.len() as int)
                    == Err::<nat, Error>(e),
            },
    {
        let n = protocol.relations.len();
        let pows = powers(&self.alpha, n);
        let mut acc = Scalar::from_u64(0);
        let mut j: usize = 0;
        proof {
            vstd::arithmetic::div_mod::lemma_small_mod(0, crate::field::fr_modulus());
        }
        while j < n
            invariant
                n == protocol.relations@.len(),
                self.common_covers(*protocol, *common),
                pows@.len() == n,
                forall|i: int| 0 <= i < n ==> #[trigger] pows@[i].val() == fpow(self.alpha.val(), i as nat),
                j <= n,
                relations_sum(protocol.relations@, *common, entries@, self.challenges@, self.alpha.val(), j as int)
                    == Ok::<nat, Error>(acc.val()),
            decreases n - j,
        {
            proof {
                assert forall|i: i32| #[trigger] protocol.relations@[j as int].uses_lagrange(i) implies common.has_lagrange(i) by {
                    assert(protocol.relations@[j as int].uses_lagrange(i));
                }
            }
            let x = match protocol.relations[j].evaluate(common, entries, &self.challenges) {
                Ok(x) => x,
                Err(e) => {
                    proof {
                        lemma_relations_sum_err(protocol.relations@, *common, entries@, self.challenges@, self.alpha.val(), j + 1, n as int);
                    }
                    return Err(e);
                },
            };
            acc = acc.add(&pows[n - 1 - j].mul(&x));
            j = j + 1;
        }
        Ok(acc.mul(&common.zn_minus_one_inv))
    }

    /// The evaluation map: statement evaluations, the evaluations read, and
    /// last the quotient evaluation derived from the relations.
    pub fn evaluations(&self, protocol: &Protocol, common: &CommonPolynomialEvaluation) -> (r: Result<Vec<(Query, Scalar)>, Error>)
        requires
            common.wf(protocol.domain, self.z.val()),
            protocol.wf(),
            self.fits(*protocol),
            self.common_covers(*protocol, *common),
        ensures
            match r {
                Ok(e) => {
                    let b = e@.drop_last();
                    &&& e@.len() > 0
                    &&& self.base_entries(*protocol, *common, b)
                    &&& e@.last().0 == (Query { poly: protocol.vanishing_poly_spec() as usize, rotation: Rotation(0) })
                    &&& relations_sum(protocol.relations@, *common, b, self.challenges@, self.alpha.val(), protocol.relations@.len() as int)
                        matches Ok(s) && e@.last().1.val() == fmul(s, common.zn_minus_one_inv.val())
                },
                Err(x) => exists|b: Seq<(Query, Scalar)>| self.base_entries(*protocol, *common, b)
                    && relations_sum(protocol.relations@, *common, b, self.challenges@, self.alpha.val(), protocol.relations@.len() as int)
                        == Err::<nat, Error>(x),
            },
    {
        let mut entries = self.statement_evaluations(protocol, common);
        let ghost b = entries@;
        let q = self.quotient_evaluation(protocol, common, &entries)?;
        let vanishing = protocol.vanishing_poly();
        entries.push((Query { poly: vanishing, rotation: Rotation(0) }, q));
        proof {
            assert(entries@.drop_last() =~= b);
        }
        Ok(entries)
    }
}

// ---------------------------------------------------------------------
// Batched openings

/// `sum over the first n polynomials j of (C_j - e_j * G) * pv[count - 1 - j]`,
/// or the query of the first polynomial without a commitment or an
/// evaluation.
pub open spec fn set_msm_spec(
    polys: Seq<usize>,
    rotation: Rotation,
    comms: Seq<Option<MsmView>>,
    evals: Seq<(Query, Scalar)>,
    pv: Seq<nat>,
    n: int,
) -> Result<MsmView, Error>
    decreases n,
{
    if n <= 0 {
        Ok(msm_zero())
    } else {
        match set_msm_spec(polys, rotation, comms, evals, pv, n - 1) {
            Err(e) => Err(e),
            Ok(acc) => {
                let poly = polys[n - 1];
                let q = Query { poly, rotation };
                if poly < comms.len() && comms[poly as int] is Some && lookup(evals, q) is Some {
                    let term = msm_add(
                        comms[poly as int]->Some_0,
                        MsmView { constant: fneg(lookup(evals, q)->Some_0.val()), scalars: seq![], bases: seq![] },
                    );
                    Ok(msm_add(acc, msm_scale(term, pv[polys.len() - n])))
                } else {
                    Err(Error::MissingQuery(q))
                }
            },
        }
    }
}

proof fn lemma_set_msm_err(
    polys: Seq<usize>,
    rotation: Rotation,
    comms: Seq<Option<MsmView>>,
    evals: Seq<(Query, Scalar)>,
    pv: Seq<nat>,
    m: int,
    n: int,
)
    requires
        0 < m <= n,
        set_msm_spec(polys, rotation, comms, evals, pv, m) is Err,
    ensures
        set_msm_spec(polys, rotation, comms, evals, pv, n) == set_msm_spec(polys, rotation, comms, evals, pv, m),
    decreases n - m,
{
    if n > m {
        lemma_set_msm_err(polys, rotation, comms, evals, pv, m, n - 1);
    }
}

pub open spec fn scalar_vals(s: Seq<Scalar>) -> Seq<nat> {
    s.map_values(|x: Scalar| x.val())
}

impl RotationSet {
    /// The opening claims of this set, polynomial `j` weighted by
    /// `powers_of_v[count - 1 - j]`.
    pub fn msm(
        &self,
        commitments: &Vec<Option<Msm>>,
        evaluations: &Vec<(Query, Scalar)>,
        powers_of_v: &Vec<Scalar>,
    ) -> (r: Result<Msm, Error>)
        requires
            powers_of_v@.len() >= self.polys@.len(),
        ensures
            match r {
                Ok(m) => set_msm_spec(self.polys@, self.rotation, commitments@.map_values(|o: Option<Msm>| opt_view(o)), evaluations@, scalar_vals(powers_of_v@), self.polys@.len() as int)
                    == Ok::<MsmView, Error>(m@),
                Err(e) => set_msm_spec(self.polys@, self.rotation, commitments@.map_values(|o: Option<Msm>| opt_view(o)), evaluations@, scalar_vals(powers_of_v@), self.polys@.len() as int)
                    == Err::<MsmView, Error>(e),
            },
    {
        let ghost comms = commitments@.map_values(|o: Option<Msm>| opt_view(o));
        let ghost pv = scalar_vals(powers_of_v@);
        let n = self.polys.len();
        let mut acc = Msm::zero();
        let mut j: usize = 0;
        while j < n
            invariant
                n == self.polys@.len(),
                powers_of_v@.len() >= n,
                comms == commitments@.map_values(|o: Option<Msm>| opt_view(o)),
                pv == scalar_vals(powers_of_v@),
                j <= n,
                set_msm_spec(self.polys@, self.rotation, comms, evaluations@, pv, j as int) == Ok::<MsmView, Error>(acc@),
            decreases n - j,
        {
            let poly = self.polys[j];
            let q = Query { poly, rotation: self.rotation };
            let found = lookup_query(evaluations, &q);
            if poly >= commitments.len() || commitments[poly].is_none() || found.is_none() {
                proof {
                    lemma_set_msm_err(self.polys@, self.rotation, comms, evaluations@, pv, j + 1, n as int);
                }
                return Err(Error::MissingQuery(q));
            }
            let eval = found.unwrap();
            let term = match &commitments[poly] {
                Some(c) => c.add(&Msm::scalar(eval.neg())),
                None => Msm::zero(),
            };
            let scaled = term.scale(&powers_of_v[n - 1 - j]);
            acc = acc.add(&scaled);
            j = j + 1;
        }
        Ok(acc)
    }
}

/// The largest number of polynomials in a set.
pub open spec fn max_set_len(sets: Seq<(Rotation, Seq<usize>)>, n: int) -> nat
    decreases n,
{
    if n <= 0 {
        0
    } else {
        let a = sets[n - 1].1.len();
        let b = max_set_len(sets, n - 1);
        if a >= b { a } else { b }
    }
}

proof fn lemma_max_set_len(sets: Seq<(Rotation, Seq<usize>)>, n: int, k: int)
    requires
        0 <= k < n <= sets.len(),
    ensures
        sets[k].1.len() <= max_set_len(sets, n),
    decreases n,
{
    if k < n - 1 {
        lemma_max_set_len(sets, n - 1, k);
    }
}

/// `f`: the sets' combined claims, the set at position `i` weighted by
/// `u^(count - 1 - i)`, over the first `n` sets.
pub open spec fn batched_f(
    sets: Seq<(Rotation, Seq<usize>)>,
    comms: Seq<Option<MsmView>>,
    evals: Seq<(Query, Scalar)>,
    pv: Seq<nat>,
    u: nat,
    n: int,
) -> Result<MsmView, Error>
    decreases n,
{
    if n <= 0 {
        Ok(msm_zero())
    } else {
        match batched_f(sets, comms, evals, pv, u, n - 1) {
            Err(e) => Err(e),
            Ok(acc) => match set_msm_spec(sets[n - 1].1, sets[n - 1].0, comms, evals, pv, sets[n - 1].1.len() as int) {
                Err(e) => Err(e),
                Ok(m) => Ok(msm_add(acc, msm_scale(m, fpow(u, (sets.len() - n) as nat)))),
            },
        }
    }
}

proof fn lemma_batched_f_err(
    sets: Seq<(Rotation, Seq<usize>)>,
    comms: Seq<Option<MsmView>>,
    evals: Seq<(Query, Scalar)>,
    pv: Seq<nat>,
    u: nat,
    m: int,
    n: int,
)
    requires
        0 < m <= n,
        batched_f(sets, comms, evals, pv, u, m) is Err,
    ensures
        batched_f(sets, comms, evals, pv, u, n) == batched_f(sets, comms, evals, pv, u, m),
    decreases n - m,
{
    if n > m {
        lemma_batched_f_err(sets, comms, evals, pv, u, m, n - 1);
    }
}

/// The opening commitment of set `i` weighted by `u^(count - 1 - i)`.
pub open spec fn weighted_w(ws: Seq<EcPoint>, u: nat, i: int) -> MsmView {
    msm_scale(base_view(ws[i].enc()), fpow(u, (ws.len() - 1 - i) as nat))
}

/// The SHPLONK accumulator of a proof: `rhs = sum(u^(k-1-i) * W_i)` and
/// `lhs = f + sum(u^(k-1-i) * W_i * z * omega^rotation_i)`.
pub open spec fn shplonk_spec(
    domain: Domain,
    sets: Seq<(Rotation, Seq<usize>)>,
    comms: Seq<Option<MsmView>>,
    evals: Seq<(Query, Scalar)>,
    ws: Seq<EcPoint>,
    z: nat,
    v: nat,
    u: nat,
) -> Result<(MsmView, MsmView), Error> {
    match batched_f(sets, comms, evals, Seq::new(max_set_len(sets, sets.len() as int), |i: int| fpow(v, i as nat)), u, sets.len() as int) {
        Err(e) => Err(e),
        Ok(f) => {
            let k = ws.len();
            let rhs = msm_sum(Seq::new(k, |i: int| weighted_w(ws, u, i)));
            let shifted = msm_sum(Seq::new(k, |i: int| msm_scale(
                weighted_w(ws, u, i),
                fmul(fmul(1, domain.omega_pow(sets[i].0.0 as int)), z),
            )));
            Ok((msm_add(f, shifted), rhs))
        },
    }
}

// ---------------------------------------------------------------------
// The scheme

impl PlonkProof {
    /// `e` is the evaluation map of this proof: statement evaluations and
    /// read evaluations, then the derived quotient evaluation.
    pub open spec fn evaluation_map(self, protocol: Protocol, common: CommonPolynomialEvaluation, e: Seq<(Query, Scalar)>) -> bool {
        let b = e.drop_last();
        &&& e.len() > 0
        &&& self.base_entries(protocol, common, b)
        &&& e.last().0 == (Query { poly: protocol.vanishing_poly_spec() as usize, rotation: Rotation(0) })
        &&& relations_sum(protocol.relations@, common, b, self.challenges@, self.alpha.val(), protocol.relations@.len() as int)
            matches Ok(s) && e.last().1.val() == fmul(s, common.zn_minus_one_inv.val())
    }

    /// The commitments of this proof, as MSMs.
    pub open spec fn commitment_views(self, protocol: Protocol, common: CommonPolynomialEvaluation) -> Seq<Option<MsmView>> {
        Seq::new((protocol.vanishing_poly_spec() + 1) as nat, |i: int| self.commitment_spec(protocol, common, i))
    }

    /// The outcome of accumulating this proof with the common polynomial
    /// values `common`: an error of the relations, or of the openings, or
    /// the accumulator `(lhs, rhs)`.
    pub open spec fn accumulates_to(
        self,
        protocol: Protocol,
        common: CommonPolynomialEvaluation,
        r: Result<(MsmView, MsmView), Error>,
    ) -> bool {
        ||| exists|b: Seq<(Query, Scalar)>| self.base_entries(protocol, common, b)
            && r is Err
            && relations_sum(protocol.relations@, common, b, self.challenges@, self.alpha.val(), protocol.relations@.len() as int)
                == Err::<nat, Error>(r->Err_0)
        ||| exists|e: Seq<(Query, Scalar)>| self.evaluation_map(protocol, common, e)
            && r == shplonk_spec(
                protocol.domain,
                rotation_sets_spec(protocol.queries@),
                self.commitment_views(protocol, common),
                e,
                self.ws@,
                self.z.val(),
                self.v.val(),
                self.u.val(),
            )
    }

    /// Steps after reading: the commitment and evaluation maps, the
    /// opening claims grouped by rotation and batched with powers of `v`
    /// and `u`, and the accumulator they make.
    pub fn accumulator(&self, protocol: &Protocol, common: &CommonPolynomialEvaluation) -> (r: Result<(Msm, Msm), Error>)
        requires
            common.wf(protocol.domain, self.z.val()),
            protocol.wf(),
            self.fits(*protocol),
            self.common_covers(*protocol, *common),
        ensures
            self.accumulates_to(
                *protocol,
                *common,
                match r {
                    Ok(p) => Ok((p.0@, p.1@)),
                    Err(e) => Err(e),
                },
            ),
    {
        let commitments = self.commitments(protocol, common);
        let ghost comms = commitments@.map_values(|o: Option<Msm>| opt_view(o));
        proof {
            assert(comms =~= self.commitment_views(*protocol, *common));
        }
        let evaluations = match self.evaluations(protocol, common) {
            Ok(e) => e,
            Err(x) => {
                proof {
                    let b = choose|b: Seq<(Query, Scalar)>| self.base_entries(*protocol, *common, b)
                        && relations_sum(protocol.relations@, *common, b, self.challenges@, self.alpha.val(), protocol.relations@.len() as int)
                            == Err::<nat, Error>(x);
                    assert(self.base_entries(*protocol, *common, b));
                }
                return Err(x);
            },
        };
        proof {
            assert(self.evaluation_map(*protocol, *common, evaluations@));
        }
        let sets = rotation_sets(protocol);
        let ghost sv = rotation_sets_spec(protocol.queries@);
        let k = sets.len();
        let mut max_len: usize = 0;
        let mut i: usize = 0;
        while i < k
            invariant
                k == sets@.len(),
                sv == sets_view(sets@),
                i <= k,
                max_len == max_set_len(sv, i as int),
            decreases k - i,
        {
            if sets[i].polys.len() >= max_len {
                max_len = sets[i].polys.len();
            }
            i = i + 1;
        }
        let powers_of_u = powers(&self.u, k);
        let powers_of_v = powers(&self.v, max_len);
        let ghost pv = Seq::new(max_len as nat, |i: int| fpow(self.v.val(), i as nat));
        proof {
            assert(scalar_vals(powers_of_v@) =~= pv);
        }
        let mut f = Msm::zero();
        let mut i: usize = 0;
        while i < k
            invariant
                k == sets@.len(),
                sv == sets_view(sets@),
                i <= k,
                max_len == max_set_len(sv, k as int),
                powers_of_u@.len() == k,
                forall|j: int| 0 <= j < k ==> #[trigger] powers_of_u@[j].val() == fpow(self.u.val(), j as nat),
                scalar_vals(powers_of_v@) == pv,
                powers_of_v@.len() == max_len,
                pv == Seq::new(max_len as nat, |i: int| fpow(self.v.val(), i as nat)),
                sv == rotation_sets_spec(protocol.queries@),
                comms == self.commitment_views(*protocol, *common),
                self.evaluation_map(*protocol, *common, evaluations@),
                comms == commitments@.map_values(|o: Option<Msm>| opt_view(o)),
                batched_f(sv, comms, evaluations@, pv, self.u.val(), i as int) == Ok::<MsmView, Error>(f@),
            decreases k - i,
        {
            proof {
                lemma_max_set_len(sv, k as int, i as int);
                assert(sv[i as int] == (sets@[i as int].rotation, sets@[i as int].polys@));
            }
            let m = match sets[i].msm(&commitments, &evaluations, &powers_of_v) {
                Ok(m) => m,
                Err(x) => {
                    proof {
                        assert(batched_f(sv, comms, evaluations@, pv, self.u.val(), i + 1) == Err::<MsmView, Error>(x));
                        lemma_batched_f_err(sv, comms, evaluations@, pv, self.u.val(), i + 1, k as int);
                        assert(self.evaluation_map(*protocol, *common, evaluations@));
                        assert(shplonk_spec(
                            protocol.domain,
                            sv,
                            comms,
                            evaluations@,
                            self.ws@,
                            self.z.val(),
                            self.v.val(),
                            self.u.val(),
                        ) == Err::<(MsmView, MsmView), Error>(x));
                    }
                    return Err(x);
                },
            };
            f = f.add(&m.scale(&powers_of_u[k - 1 - i]));
            i = i + 1;
        }
        let mut rhs_terms: Vec<Msm> = Vec::new();
        let mut shifted: Vec<Msm> = Vec::new();
        let one = Scalar::from_u64(1);
        let mut i: usize = 0;
        while i < k
            invariant
                self.fits(*protocol),
                k == sets@.len(),
                sv == sets_view(sets@),
                sv == rotation_sets_spec(protocol.queries@),
                one.val() == 1,
                i <= k,
                powers_of_u@.len() == k,
                forall|j: int| 0 <= j < k ==> #[trigger] powers_of_u@[j].val() == fpow(self.u.val(), j as nat),
                rhs_terms@.len() == i,
                shifted@.len() == i,
                forall|j: int| 0 <= j < i ==> (#[trigger] rhs_terms@[j])@ == weighted_w(self.ws@, self.u.val(), j),
                forall|j: int| 0 <= j < i ==> (#[trigger] shifted@[j])@ == msm_scale(
                    weighted_w(self.ws@, self.u.val(), j),
                    fmul(fmul(1, protocol.domain.omega_pow(sv[j].0.0 as int)), self.z.val()),
                ),
            decreases k - i,
        {
            let w = Msm::base(self.ws[i]).scale(&powers_of_u[k - 1 - i]);
            let z_omega = protocol.domain.rotate_scalar(&one, sets[i].rotation).mul(&self.z);
            shifted.push(w.scale(&z_omega));
            rhs_terms.push(w);
            i = i + 1;
        }
        let shifted_sum = Msm::sum(&shifted);
        let lhs = f.add(&shifted_sum);
        let rhs = Msm::sum(&rhs_terms);
        proof {
            assert(rhs_terms@.map_values(|m: Msm| m@) =~= Seq::new(k as nat, |j: int| weighted_w(self.ws@, self.u.val(), j)));
            assert(shifted@.map_values(|m: Msm| m@) =~= Seq::new(k as nat, |j: int| msm_scale(
                weighted_w(self.ws@, self.u.val(), j),
                fmul(fmul(1, protocol.domain.omega_pow(sv[j].0.0 as int)), self.z.val()),
            )));
            assert(self.evaluation_map(*protocol, *common, evaluations@));
        }
        Ok((lhs, rhs))
    }
}

pub open spec fn acc_views(r: Result<Accumulator, Error>) -> Result<(MsmView, MsmView), Error> {
    match r {
        Ok(a) => Ok((a.lhs@, a.rhs@)),
        Err(e) => Err(e),
    }
}

impl PlonkProof {
    /// Some denominator of the common polynomial evaluation is zero:
    /// `z^n == 1`, or `z` is the generator power of a row whose Lagrange
    /// value is needed.
    pub open spec fn denominator_vanishes(self, protocol: Protocol) -> bool {
        ||| fsub(fpow(self.z.val(), protocol.domain.n as nat), 1) == 0
        ||| exists|i: i32| #[trigger] protocol.uses_row(self.statements@, i)
            && fsub(self.z.val(), protocol.domain.omega_pow(i as int)) == 0
    }

    /// What accumulating a read proof yields: a transcript error when a
    /// denominator vanishes at `z`, else the outcome of batching with the
    /// common polynomial values at `z`.
    pub open spec fn read_outcome(self, protocol: Protocol, r: Result<(MsmView, MsmView), Error>) -> bool {
        if self.denominator_vanishes(protocol) {
            r matches Err(Error::Transcript(_, _))
        } else {
            exists|common: CommonPolynomialEvaluation| common.wf(protocol.domain, self.z.val())
                && self.common_covers(protocol, common)
                && self.accumulates_to(protocol, common, r)
        }
    }

    /// The accumulator of a proof that was read: the common polynomials are
    /// evaluated at `z` for the rows needed, then the openings are batched.
    pub fn accumulate_read(&self, protocol: &Protocol) -> (r: Result<Accumulator, Error>)
        requires
            protocol.wf(),
            self.fits(*protocol),
            forall|c: int| 0 <= c < self.statements@.len() ==> (#[trigger] self.statements@[c])@.len() <= i32::MAX,
        ensures
            self.read_outcome(*protocol, acc_views(r)),
            (r matches Err(Error::Transcript(_, _))) <==> self.denominator_vanishes(*protocol),
            r is Err ==> (r->Err_0 is Transcript || r->Err_0 is MissingQuery || r->Err_0 is MissingChallenge),
    {
        let rows = protocol.langranges(&self.statements);
        let common = match CommonPolynomialEvaluation::new(&protocol.domain, &rows, &self.z) {
            Some(c) => c,
            None => {
                proof {
                    if fsub(fpow(self.z.val(), protocol.domain.n as nat), 1) != 0 {
                        let k = choose|k: int| 0 <= k < rows@.len()
                            && fsub(self.z.val(), protocol.domain.omega_pow(#[trigger] rows@[k] as int)) == 0;
                        assert(rows@.contains(rows@[k]));
                        assert(protocol.uses_row(self.statements@, rows@[k]));
                    }
                }
                return Err(Error::Transcript(std::io::ErrorKind::InvalidData, String::new()));
            },
        };
        proof {
            assert forall|i: i32| #[trigger] protocol.uses_row(self.statements@, i)
                implies fsub(self.z.val(), protocol.domain.omega_pow(i as int)) != 0 by {
                if (0 <= i && exists|c: int| 0 <= c < self.statements@.len() && i < (#[trigger] self.statements@[c])@.len()) {
                    let c = choose|c: int| 0 <= c < self.statements@.len() && i < (#[trigger] self.statements@[c])@.len();
                    assert(rows@.contains(i));
                } else {
                    let j = choose|j: int| 0 <= j < protocol.relations@.len() && #[trigger] protocol.relations@[j].uses_lagrange(i);
                    assert(rows@.contains(i));
                }
                let m = choose|m: int| 0 <= m < rows@.len() && rows@[m] == i;
                assert(fsub(self.z.val(), protocol.domain.omega_pow(rows@[m] as int)) != 0);
            }
            assert(!self.denominator_vanishes(*protocol));
            assert forall|c: int, k: i32| #![trigger self.statements@[c], common.has_lagrange(k)]
                0 <= c < self.statements@.len() && 0 <= k < self.statements@[c]@.len() implies common.has_lagrange(k) by {
                assert(rows@.contains(k));
                let m = choose|m: int| 0 <= m < rows@.len() && rows@[m] == k;
                assert(common.has_lagrange(rows@[m]));
            }
            assert forall|j: int, i: i32| 0 <= j < protocol.relations@.len() && #[trigger] protocol.relations@[j].uses_lagrange(i)
                implies common.has_lagrange(i) by {
                assert(rows@.contains(i));
                let m = choose|m: int| 0 <= m < rows@.len() && rows@[m] == i;
                assert(common.has_lagrange(rows@[m]));
            }
            assert(self.common_covers(*protocol, common));
        }
        match self.accumulator(protocol, &common) {
            Ok((lhs, rhs)) => Ok(Accumulator::new(lhs, rhs)),
            Err(e) => {
                proof {
                    lemma_accumulates_to_err(*self, *protocol, common, e);
                }
                Err(e)
            },
        }
    }
}

/// `proof` is what reading `statements` took from a transcript that went
/// from history `log0` and stream `rem0` to `log1` and `rem1`, after the
/// protocol's initial state was absorbed.
pub open spec fn read_exactly(
    proof: PlonkProof,
    protocol: Protocol,
    statements: Seq<Vec<Scalar>>,
    log0: Seq<TranscriptItem>,
    rem0: Seq<u8>,
    log1: Seq<TranscriptItem>,
    rem1: Seq<u8>,
) -> bool {
    &&& proof.statements@ == statements
    &&& proof.fits(protocol)
    &&& log1 == log0.push(TranscriptItem::Scalar(protocol.transcript_initial_state)) + proof.transcript_items(protocol)
    &&& rem0.len() >= proof_len(protocol)
    &&& rem1 == rem0.skip(proof_len(protocol) as int)
    &&& proof.decoded_from(rem0)
}

/// The PLONK accumulation scheme with SHPLONK openings.
pub struct PlonkAccumulationScheme;

impl PlonkAccumulationScheme {
    /// Reads one proof and returns it with its accumulator: absorbs the
    /// protocol's initial state, reads the proof, and accumulates it with
    /// `PlonkProof::accumulate_read`.
    pub fn accumulate_proof<T: TranscriptRead>(
        protocol: &Protocol,
        statements: Vec<Vec<Scalar>>,
        transcript: &mut T,
    ) -> (r: Result<(PlonkProof, Accumulator), Error>)
        requires
            protocol.wf(),
            forall|c: int| 0 <= c < statements@.len() ==> (#[trigger] statements@[c])@.len() <= i32::MAX,
        ensures
            (r matches Err(Error::InvalidInstances)) <==> statements@.len() != protocol.num_statement,
            statements@.len() != protocol.num_statement ==> final(transcript).remaining() == old(transcript).remaining()
                && (final(transcript).log() == old(transcript).log().push(TranscriptItem::Scalar(protocol.transcript_initial_state))
                    || final(transcript).log() == old(transcript).log()),
            statements@.len() == protocol.num_statement && !stream_fits(*protocol, old(transcript).remaining())
                ==> r matches Err(Error::Transcript(_, _)),
            r matches Ok((proof, acc)) ==> (read_exactly(proof, *protocol, statements@, old(transcript).log(),
                old(transcript).remaining(), final(transcript).log(), final(transcript).remaining())
                && proof.read_outcome(*protocol, Ok((acc.lhs@, acc.rhs@)))),
            r is Err && (r->Err_0 is MissingQuery || r->Err_0 is MissingChallenge) ==> (exists|proof: PlonkProof|
                read_exactly(proof, *protocol, statements@, old(transcript).log(), old(transcript).remaining(),
                    final(transcript).log(), final(transcript).remaining())
                && #[trigger] proof.read_outcome(*protocol, Err(r->Err_0))),
    {
        let absorbed = transcript.common_scalar(&protocol.transcript_initial_state);
        if statements.len() != protocol.num_statement {
            return Err(Error::InvalidInstances);
        }
        if let Err(e) = absorbed {
            return Err(e);
        }
        let proof = PlonkProof::read(protocol, statements, transcript)?;
        match proof.accumulate_read(protocol) {
            Ok(acc) => Ok((proof, acc)),
            Err(e) => {
                proof {
                    assert(proof.read_outcome(*protocol, acc_views(Err::<Accumulator, Error>(e))));
                }
                Err(e)
            },
        }
    }

    /// Verifies one proof under a strategy: the proof's accumulator is
    /// merged with the one the strategy finds in its statements, if any,
    /// and handed to the strategy. Every error before that leaves the
    /// strategy as it was.
    pub fn accumulate<T: TranscriptRead, S: AccumulationStrategy>(
        protocol: &Protocol,
        statements: Vec<Vec<Scalar>>,
        transcript: &mut T,
        strategy: &mut S,
    ) -> (r: Result<S::Output, Error>)
        requires
            protocol.wf(),
            forall|c: int| 0 <= c < statements@.len() ==> (#[trigger] statements@[c])@.len() <= i32::MAX,
        ensures
            (r matches Err(Error::InvalidInstances)) <==> statements@.len() != protocol.num_statement,
            statements@.len() != protocol.num_statement ==> final(transcript).remaining() == old(transcript).remaining()
                && (final(transcript).log() == old(transcript).log().push(TranscriptItem::Scalar(protocol.transcript_initial_state))
                    || final(transcript).log() == old(transcript).log()),
            statements@.len() == protocol.num_statement && !stream_fits(*protocol, old(transcript).remaining())
                ==> (r matches Err(Error::Transcript(_, _))) && *final(strategy) == *old(strategy),
            r is Err && (r->Err_0 is MissingQuery || r->Err_0 is MissingChallenge)
                && !(old(strategy).extracts(*protocol, statements@) is None) ==> (exists|proof: PlonkProof| read_exactly(proof, *protocol, statements@, old(transcript).log(),
                    old(transcript).remaining(), final(transcript).log(), final(transcript).remaining())
                    && #[trigger] proof.read_outcome(*protocol, Err(r->Err_0))),
            r is Err ==> *final(strategy) == *old(strategy),
            r matches Ok(out) ==> (exists|proof: PlonkProof, lhs: MsmView, rhs: MsmView| {
                &&& read_exactly(proof, *protocol, statements@, old(transcript).log(), old(transcript).remaining(),
                    final(transcript).log(), final(transcript).remaining())
                &&& #[trigger] proof.read_outcome(*protocol, Ok((lhs, rhs)))
                &&& match old(strategy).extracts(*protocol, statements@) {
                    Some(Some(nested)) => old(strategy).processes(msm_add(lhs, nested.0), msm_add(rhs, nested.1), out, *final(strategy)),
                    Some(None) => old(strategy).processes(lhs, rhs, out, *final(strategy)),
                    None => false,
                }
            }),
    {
        let (proof, accumulator) = Self::accumulate_proof(protocol, statements, transcript)?;
        let ghost lhs = accumulator.lhs@;
        let ghost rhs = accumulator.rhs@;
        let ghost read = proof;
        let merged = match strategy.extract_accumulator(protocol, &proof.statements)? {
            Some(nested) => accumulator.add(&nested),
            None => accumulator,
        };
        let out = strategy.process(proof, merged);
        proof {
            assert(read.read_outcome(*protocol, Ok((lhs, rhs))));
        }
        Ok(out)
    }
}

/// Evaluating an expression fails only on a missing query or challenge.
proof fn lemma_eval_err(
    e: Expression,
    common: CommonPolynomialEvaluation,
    evals: Seq<(Query, Scalar)>,
    challenges: Seq<Scalar>,
)
    ensures
        e.eval_spec(common, evals, challenges) matches Err(x) ==> (x is MissingQuery || x is MissingChallenge),
    decreases e,
{
    match e {
        Expression::Negated(a) => lemma_eval_err(*a, common, evals, challenges),
        Expression::Sum(a, b) => {
            lemma_eval_err(*a, common, evals, challenges);
            lemma_eval_err(*b, common, evals, challenges);
        },
        Expression::Product(a, b) => {
            lemma_eval_err(*a, common, evals, challenges);
            lemma_eval_err(*b, common, evals, challenges);
        },
        Expression::Scaled(a, _) => lemma_eval_err(*a, common, evals, challenges),
        _ => {},
    }
}

proof fn lemma_relations_sum_err_kind(
    rels: Seq<Expression>,
    common: CommonPolynomialEvaluation,
    evals: Seq<(Query, Scalar)>,
    challenges: Seq<Scalar>,
    alpha: nat,
    n: int,
)
    ensures
        relations_sum(rels, common, evals, challenges, alpha, n) matches Err(x) ==> (x is MissingQuery || x is MissingChallenge),
    decreases n,
{
    if n > 0 {
        lemma_relations_sum_err_kind(rels, common, evals, challenges, alpha, n - 1);
        lemma_eval_err(rels[n - 1], common, evals, challenges);
    }
}

proof fn lemma_set_msm_err_kind(
    polys: Seq<usize>,
    rotation: Rotation,
    comms: Seq<Option<MsmView>>,
    evals: Seq<(Query, Scalar)>,
    pv: Seq<nat>,
    n: int,
)
    ensures
        set_msm_spec(polys, rotation, comms, evals, pv, n) matches Err(x) ==> x is MissingQuery,
    decreases n,
{
    if n > 0 {
        lemma_set_msm_err_kind(polys, rotation, comms, evals, pv, n - 1);
    }
}

proof fn lemma_batched_f_err_kind(
    sets: Seq<(Rotation, Seq<usize>)>,
    comms: Seq<Option<MsmView>>,
    evals: Seq<(Query, Scalar)>,
    pv: Seq<nat>,
    u: nat,
    n: int,
)
    ensures
        batched_f(sets, comms, evals, pv, u, n) matches Err(x) ==> x is MissingQuery,
    decreases n,
{
    if n > 0 {
        lemma_batched_f_err_kind(sets, comms, evals, pv, u, n - 1);
        lemma_set_msm_err_kind(sets[n - 1].1, sets[n - 1].0, comms, evals, pv, sets[n - 1].1.len() as int);
    }
}

/// Batching a read proof fails only on a missing query or challenge.
proof fn lemma_accumulates_to_err(proof: PlonkProof, protocol: Protocol, common: CommonPolynomialEvaluation, x: Error)
    requires
        proof.accumulates_to(protocol, common, Err(x)),
    ensures
        x is MissingQuery || x is MissingChallenge,
{
    if exists|b: Seq<(Query, Scalar)>| proof.base_entries(protocol, common, b)
        && relations_sum(protocol.relations@, common, b, proof.challenges@, proof.alpha.val(), protocol.relations@.len() as int)
            == Err::<nat, Error>(x) {
        let b = choose|b: Seq<(Query, Scalar)>| proof.base_entries(protocol, common, b)
            && relations_sum(protocol.relations@, common, b, proof.challenges@, proof.alpha.val(), protocol.relations@.len() as int)
                == Err::<nat, Error>(x);
        lemma_relations_sum_err_kind(protocol.relations@, common, b, proof.challenges@, proof.alpha.val(), protocol.relations@.len() as int);
    } else {
        let e = choose|e: Seq<(Query, Scalar)>| proof.evaluation_map(protocol, common, e)
            && Err::<(MsmView, MsmView), Error>(x) == shplonk_spec(
                protocol.domain,
                rotation_sets_spec(protocol.queries@),
                proof.commitment_views(protocol, common),
                e,
                proof.ws@,
                proof.z.val(),
                proof.v.val(),
                proof.u.val(),
            );
        let sets = rotation_sets_spec(protocol.queries@);
        lemma_batched_f_err_kind(
            sets,
            proof.commitment_views(protocol, common),
            e,
            Seq::new(max_set_len(sets, sets.len() as int), |i: int| fpow(proof.v.val(), i as nat)),
            proof.u.val(),
            sets.len() as int,
        );
    }
}

/// Once a relation fails to evaluate, the sum fails with its error.
proof fn lemma_relations_sum_err(
    rels: Seq<Expression>,
    common: CommonPolynomialEvaluation,
    evals: Seq<(Query, Scalar)>,
    challenges: Seq<Scalar>,
    alpha: nat,
    m: int,
    n: int,
)
    requires
        0 < m <= n,
        relations_sum(rels, common, evals, challenges, alpha, m) is Err,
    ensures
        relations_sum(rels, common, evals, challenges, alpha, n) == relations_sum(rels, common, evals, challenges, alpha, m),
    decreases n - m,
{
    if n > m {
        lemma_relations_sum_err(rels, common, evals, challenges, alpha, m, n - 1);
    }
}


} // verus!
