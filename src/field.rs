//! Scalars of the BN256 scalar field and points of its pairing groups.
//!
//! Scalars are held as their canonical 32-byte little-endian encoding and
//! points as their compressed encoding; the arithmetic itself is done by
//! `halo2curves`.
use halo2curves::bn256;
use halo2curves::ff::{Field, FromUniformBytes};
use halo2curves::group::cofactor::CofactorGroup;
use halo2curves::group::GroupEncoding;
use halo2curves::pairing::Engine;
use halo2curves::CurveAffine;
use vstd::arithmetic::div_mod::{lemma_mul_mod_noop_left, lemma_mul_mod_noop_right};
use vstd::arithmetic::mul::lemma_mul_is_associative;
use vstd::prelude::*;

verus! {

/// The order of the BN256 scalar field.
pub open spec fn fr_modulus() -> nat {
    0x30644e72e131a029b85045b68181585d * 0x1_0000_0000_0000_0000 * 0x1_0000_0000_0000_0000
        + 0x2833e84879b9709143e1f593f0000001
}

/// The natural number that a little-endian byte string encodes.
pub open spec fn le_value(b: Seq<u8>) -> nat
    decreases b.len(),
{
    if b.len() == 0 {
        0
    } else {
        b[0] as nat + 256 * le_value(b.drop_first())
    }
}

pub open spec fn fadd(a: nat, b: nat) -> nat {
    (a + b) % fr_modulus()
}

pub open spec fn fmul(a: nat, b: nat) -> nat {
    (a * b) % fr_modulus()
}

pub open spec fn fneg(a: nat) -> nat {
    ((fr_modulus() - a % fr_modulus()) as nat) % fr_modulus()
}

pub open spec fn fsub(a: nat, b: nat) -> nat {
    fadd(a, fneg(b))
}

/// `a` raised to `e` in the field.
pub open spec fn fpow(a: nat, e: nat) -> nat
    decreases e,
{
    if e == 0 {
        1
    } else {
        fmul(a, fpow(a, (e - 1) as nat))
    }
}

/// `256^n`.
pub open spec fn pow256(n: nat) -> nat
    decreases n,
{
    if n == 0 {
        1
    } else {
        256 * pow256((n - 1) as nat)
    }
}

proof fn lemma_le_value_push(s: Seq<u8>, b: u8)
    ensures
        le_value(s.push(b)) == le_value(s) + pow256(s.len()) * b,
    decreases s.len(),
{
    if s.len() == 0 {
        assert(s.push(b).drop_first() =~= Seq::<u8>::empty());
        assert(le_value(Seq::<u8>::empty()) == 0);
        assert(le_value(s) == 0);
        assert(s.push(b)[0] == b);
        assert(pow256(0) == 1);
    } else {
        let n = s.len();
        lemma_le_value_push(s.drop_first(), b);
        assert(s.push(b).drop_first() =~= s.drop_first().push(b));
        assert(s.push(b)[0] == s[0]);
        assert(pow256(n) == 256 * pow256((n - 1) as nat));
        let p = pow256((n - 1) as nat);
        assert(256 * (le_value(s.drop_first()) + p * b) == 256 * le_value(s.drop_first()) + (256 * p) * b)
            by (nonlinear_arith);
    }
}

/// The 32-byte little-endian encoding of `v`.
fn le_bytes_of(v: u128) -> (r: [u8; 32])
    ensures
        le_value(r@) == v as nat,
{
    let mut bytes = [0u8; 32];
    let mut x: u128 = v;
    let mut i: usize = 0;
    proof {
        reveal_with_fuel(pow256, 17);
        assert(bytes@.take(0) =~= Seq::<u8>::empty());
        assert(le_value(Seq::<u8>::empty()) == 0);
        assert(le_value(bytes@.take(i as int)) == 0);
        assert(pow256(i as nat) == 1);
        assert(pow256(i as nat) * x == x as nat);
    }
    while i < 32
        invariant
            i <= 32,
            v as nat == le_value(bytes@.take(i as int)) + pow256(i as nat) * x,
            i <= 16 ==> (x as nat) < pow256((16 - i) as nat),
            i >= 16 ==> x == 0,
        decreases 32 - i,
    {
        let b = (x % 256) as u8;
        let ghost prefix = bytes@.take(i as int);
        bytes[i] = b;
        proof {
            assert(bytes@.take(i + 1) =~= prefix.push(b));
            lemma_le_value_push(prefix, b);
            let p = pow256(i as nat);
            assert(pow256((i + 1) as nat) == 256 * p);
            assert(p * (b as nat) + (256 * p) * ((x / 256) as nat) == p * (x as nat)) by (nonlinear_arith)
                requires
                    b as nat == (x % 256) as nat,
                    x as nat == 256 * ((x / 256) as nat) + (x % 256) as nat,
            ;
            if i < 16 {
                let q = pow256((15 - i) as nat);
                assert(pow256((16 - i) as nat) == 256 * q);
                assert(((x / 256) as nat) < q) by (nonlinear_arith)
                    requires
                        (x as nat) < 256 * q,
                        x as nat == 256 * ((x / 256) as nat) + (x % 256) as nat,
                ;
            }
        }
        x = x / 256;
        i = i + 1;
    }
    proof {
        assert(bytes@.take(32) =~= bytes@);
    }
    bytes
}

/// An element of the BN256 scalar field.
#[derive(Clone, Copy, Debug, PartialEq, Eq)]
pub struct Scalar {
    bytes: [u8; 32],
}

impl Scalar {
    /// The element's value, in `0..fr_modulus()`.
    pub closed spec fn val(self) -> nat {
        le_value(self.bytes@)
    }

    #[verifier::type_invariant]
    spec fn canonical(self) -> bool {
        le_value(self.bytes@) < fr_modulus()
    }

    /// The canonical little-endian encoding.
    pub closed spec fn repr(self) -> Seq<u8> {
        self.bytes@
    }

    pub fn to_bytes(&self) -> (r: [u8; 32])
        ensures
            r@ == self.repr(),
            le_value(r@) == self.val(),
    {
        self.bytes
    }

    /// Relies on `bn256::Fr::from_bytes`: the bytes are read little-endian
    /// and accepted when they encode a value below the modulus.
    #[verifier::external_body]
    pub fn from_bytes(b: [u8; 32]) -> (r: Option<Scalar>)
        ensures
            r is Some <==> le_value(b@) < fr_modulus(),
            r is Some ==> r->Some_0.val() == le_value(b@),
    {
        Option::<bn256::Fr>::from(bn256::Fr::from_bytes(&b)).map(|f| Scalar { bytes: f.to_bytes() })
    }

    /// The field element of value `v`, below the modulus.
    pub fn from_u64(v: u64) -> (r: Scalar)
        ensures
            r.val() == v as nat,
    {
        Scalar { bytes: le_bytes_of(v as u128) }
    }

    /// Relies on `FromUniformBytes<64> for bn256::Fr`: the 64 bytes are read
    /// little-endian and reduced modulo the field order.
    #[verifier::external_body]
    pub fn from_uniform_bytes(b: &[u8; 64]) -> (r: Scalar)
        ensures
            r.val() == le_value(b@) % fr_modulus(),
    {
        Scalar { bytes: <bn256::Fr as FromUniformBytes<64>>::from_uniform_bytes(b).to_bytes() }
    }

    /// Relies on `bn256::Fr + bn256::Fr`.
    #[verifier::external_body]
    pub fn add(&self, o: &Scalar) -> (r: Scalar)
        ensures
            r.val() == fadd(self.val(), o.val()),
    {
        let a = bn256::Fr::from_bytes(&self.bytes).unwrap();
        let b = bn256::Fr::from_bytes(&o.bytes).unwrap();
        Scalar { bytes: (a + b).to_bytes() }
    }

    /// Relies on `bn256::Fr - bn256::Fr`.
    #[verifier::external_body]
    pub fn sub(&self, o: &Scalar) -> (r: Scalar)
        ensures
            r.val() == fsub(self.val(), o.val()),
    {
        let a = bn256::Fr::from_bytes(&self.bytes).unwrap();
        let b = bn256::Fr::from_bytes(&o.bytes).unwrap();
        Scalar { bytes: (a - b).to_bytes() }
    }

    /// Relies on `bn256::Fr * bn256::Fr`.
    #[verifier::external_body]
    pub fn mul(&self, o: &Scalar) -> (r: Scalar)
        ensures
            r.val() == fmul(self.val(), o.val()),
    {
        let a = bn256::Fr::from_bytes(&self.bytes).unwrap();
        let b = bn256::Fr::from_bytes(&o.bytes).unwrap();
        Scalar { bytes: (a * b).to_bytes() }
    }

    /// Relies on `-bn256::Fr`.
    #[verifier::external_body]
    pub fn neg(&self) -> (r: Scalar)
        ensures
            r.val() == fneg(self.val()),
    {
        let a = bn256::Fr::from_bytes(&self.bytes).unwrap();
        Scalar { bytes: (-a).to_bytes() }
    }

    /// Relies on `Field::invert` of `bn256::Fr`: the inverse of a non-zero
    /// element, nothing for zero.
    #[verifier::external_body]
    pub fn invert(&self) -> (r: Option<Scalar>)
        ensures
            r is Some <==> self.val() != 0,
            r is Some ==> fmul(self.val(), r->Some_0.val()) == 1,
            r is Some ==> r->Some_0.val() < fr_modulus(),
    {
        let a = bn256::Fr::from_bytes(&self.bytes).unwrap();
        Option::<bn256::Fr>::from(a.invert()).map(|f| Scalar { bytes: f.to_bytes() })
    }
}

/// Whether `bn256::G1Affine::from_bytes` accepts a compressed encoding.
pub uninterp spec fn g1_decodes(b: Seq<u8>) -> bool;

/// The compressed encoding of the sum of two decoded points
/// (`bn256::G1 + bn256::G1`).
pub uninterp spec fn g1_add_of(a: Seq<u8>, b: Seq<u8>) -> Seq<u8>;

/// The compressed encoding of a decoded point times a scalar of the given
/// value (`bn256::G1 * bn256::Fr`).
pub uninterp spec fn g1_mul_of(p: Seq<u8>, s: nat) -> Seq<u8>;

/// Whether `bn256::G2Affine::from_bytes` accepts a compressed encoding.
pub uninterp spec fn g2_decodes(b: Seq<u8>) -> bool;

/// Whether the decoded G2 point lies in the prime-order subgroup
/// (`CofactorGroup::is_torsion_free` of `bn256::G2`).
pub uninterp spec fn g2_torsion_free(b: Seq<u8>) -> bool;

/// Relies on `bn256::G2Affine::from_bytes`: whether the compressed
/// encoding is accepted.
#[verifier::external_body]
fn g2_decode_check(b: &[u8; 64]) -> (r: bool)
    ensures
        r == g2_decodes(b@),
{
    bool::from(bn256::G2Affine::from_bytes(&bn256::G2Compressed::from(*b)).is_some())
}

/// Relies on `CofactorGroup::is_torsion_free` of `bn256::G2`: whether the
/// decoded point has the group's prime order.
#[verifier::external_body]
fn g2_subgroup_check(b: &[u8; 64]) -> (r: bool)
    requires
        g2_decodes(b@),
    ensures
        r == g2_torsion_free(b@),
{
    let p = bn256::G2Affine::from_bytes(&bn256::G2Compressed::from(*b)).unwrap();
    bool::from(bn256::G2::from(p).is_torsion_free())
}

/// Whether `Bn256::pairing(lhs, g2) == Bn256::pairing(rhs, s_g2)`.
pub uninterp spec fn pairing_check_of(lhs: Seq<u8>, rhs: Seq<u8>, g2: Seq<u8>, s_g2: Seq<u8>) -> bool;

/// A point of the BN256 group G1, in compressed form.
#[derive(Clone, Copy, Debug, PartialEq, Eq)]
pub struct EcPoint {
    bytes: [u8; 32],
}

impl EcPoint {
    /// The compressed encoding.
    pub closed spec fn enc(self) -> Seq<u8> {
        self.bytes@
    }

    #[verifier::type_invariant]
    spec fn decodes(self) -> bool {
        g1_decodes(self.bytes@)
    }

    pub fn to_bytes(&self) -> (r: [u8; 32])
        ensures
            r@ == self.enc(),
    {
        self.bytes
    }

    /// Relies on `bn256::G1Affine::from_bytes`: a point when the compressed
    /// encoding is valid.
    #[verifier::external_body]
    pub fn from_bytes(b: [u8; 32]) -> (r: Option<EcPoint>)
        ensures
            r is Some <==> g1_decodes(b@),
            r is Some ==> r->Some_0.enc() == b@,
    {
        let repr = bn256::G1Compressed::from(b);
        Option::<bn256::G1Affine>::from(bn256::G1Affine::from_bytes(&repr)).map(|_| EcPoint { bytes: b })
    }

    /// Relies on `bn256::G1 + bn256::G1`; the sum's encoding decodes again.
    #[verifier::external_body]
    pub fn add(&self, o: &EcPoint) -> (r: EcPoint)
        ensures
            r.enc() == g1_add_of(self.enc(), o.enc()),
    {
        let a = bn256::G1::from_bytes(&bn256::G1Compressed::from(self.bytes)).unwrap();
        let b = bn256::G1::from_bytes(&bn256::G1Compressed::from(o.bytes)).unwrap();
        EcPoint { bytes: (a + b).to_bytes().into() }
    }

    /// Relies on `bn256::G1 * bn256::Fr`; the product's encoding decodes again.
    #[verifier::external_body]
    pub fn mul(&self, s: &Scalar) -> (r: EcPoint)
        ensures
            r.enc() == g1_mul_of(self.enc(), s.val()),
    {
        let a = bn256::G1::from_bytes(&bn256::G1Compressed::from(self.bytes)).unwrap();
        let b = bn256::Fr::from_bytes(&s.bytes).unwrap();
        EcPoint { bytes: (a * b).to_bytes().into() }
    }
}

/// A point of the BN256 group G2, in compressed form.
#[derive(Clone, Copy, Debug, PartialEq, Eq)]
pub struct G2Point {
    bytes: [u8; 64],
}

impl G2Point {
    pub closed spec fn enc(self) -> Seq<u8> {
        self.bytes@
    }

    #[verifier::type_invariant]
    spec fn decodes(self) -> bool {
        g2_decodes(self.bytes@) && g2_torsion_free(self.bytes@)
    }

    /// A point when the compressed encoding is valid and the point lies in
    /// the prime-order subgroup, as the pairing needs.
    pub fn from_bytes(b: [u8; 64]) -> (r: Option<G2Point>)
        ensures
            r is Some <==> g2_decodes(b@) && g2_torsion_free(b@),
            r is Some ==> r->Some_0.enc() == b@,
    {
        if g2_decode_check(&b) && g2_subgroup_check(&b) {
            Some(G2Point { bytes: b })
        } else {
            None
        }
    }
}

/// The order of the BN256 base field.
pub open spec fn fq_modulus() -> nat {
    0x30644e72e131a029b85045b68181585d * 0x1_0000_0000_0000_0000 * 0x1_0000_0000_0000_0000
        + 0x97816a916871ca8d3c208c16d87cfd47
}

pub open spec fn qadd(a: nat, b: nat) -> nat {
    (a + b) % fq_modulus()
}

pub open spec fn qmul(a: nat, b: nat) -> nat {
    (a * b) % fq_modulus()
}

/// An element of the BN256 base field, the field of point coordinates.
#[derive(Clone, Copy, Debug, PartialEq, Eq)]
pub struct Base {
    bytes: [u8; 32],
}

impl Base {
    pub closed spec fn val(self) -> nat {
        le_value(self.bytes@)
    }

    #[verifier::type_invariant]
    spec fn canonical(self) -> bool {
        le_value(self.bytes@) < fq_modulus()
    }

    /// The same value: the scalar field's modulus is below the base
    /// field's, so a canonical scalar encoding is a canonical base encoding.
    pub fn from_scalar(s: &Scalar) -> (r: Base)
        ensures
            r.val() == s.val(),
    {
        proof {
            use_type_invariant(s);
        }
        Base { bytes: s.bytes }
    }

    /// The base field element of value `v`, below the modulus.
    pub fn from_u128(v: u128) -> (r: Base)
        ensures
            r.val() == v as nat,
    {
        Base { bytes: le_bytes_of(v) }
    }

    /// Relies on `bn256::Fq + bn256::Fq`.
    #[verifier::external_body]
    pub fn add(&self, o: &Base) -> (r: Base)
        ensures
            r.val() == qadd(self.val(), o.val()),
    {
        let a = bn256::Fq::from_bytes(&self.bytes).unwrap();
        let b = bn256::Fq::from_bytes(&o.bytes).unwrap();
        Base { bytes: (a + b).to_bytes() }
    }

    /// Relies on `bn256::Fq * bn256::Fq`.
    #[verifier::external_body]
    pub fn mul(&self, o: &Base) -> (r: Base)
        ensures
            r.val() == qmul(self.val(), o.val()),
    {
        let a = bn256::Fq::from_bytes(&self.bytes).unwrap();
        let b = bn256::Fq::from_bytes(&o.bytes).unwrap();
        Base { bytes: (a * b).to_bytes() }
    }
}

/// The compressed encoding of the affine point `(x, y)`, when it is on
/// the curve (`bn256::G1Affine::from_xy`).
pub uninterp spec fn g1_from_xy_of(x: nat, y: nat) -> Option<Seq<u8>>;

impl EcPoint {
    /// Relies on `bn256::G1Affine::from_xy`: the point with these affine
    /// coordinates, when it is on the curve.
    #[verifier::external_body]
    pub fn from_xy(x: &Base, y: &Base) -> (r: Option<EcPoint>)
        ensures
            r is Some <==> g1_from_xy_of(x.val(), y.val()) is Some,
            r is Some ==> g1_from_xy_of(x.val(), y.val()) == Some(r->Some_0.enc()),
    {
        let a = bn256::Fq::from_bytes(&x.bytes).unwrap();
        let b = bn256::Fq::from_bytes(&y.bytes).unwrap();
        Option::<bn256::G1Affine>::from(bn256::G1Affine::from_xy(a, b)).map(|p| EcPoint { bytes: p.to_bytes().into() })
    }
}

/// Relies on `Bn256::pairing`: compares `e(lhs, g2)` with `e(rhs, s_g2)`.
/// G1 has prime order and `G2Point` admits only points of the prime-order
/// subgroup, so every decoding here succeeds and the Miller loop value is
/// invertible in the final exponentiation.
#[verifier::external_body]
pub fn pairing_check(lhs: &EcPoint, rhs: &EcPoint, g2: &G2Point, s_g2: &G2Point) -> (r: bool)
    ensures
        r == pairing_check_of(lhs.enc(), rhs.enc(), g2.enc(), s_g2.enc()),
{
    let l = bn256::G1Affine::from_bytes(&bn256::G1Compressed::from(lhs.bytes)).unwrap();
    let r = bn256::G1Affine::from_bytes(&bn256::G1Compressed::from(rhs.bytes)).unwrap();
    let a = bn256::G2Affine::from_bytes(&bn256::G2Compressed::from(g2.bytes)).unwrap();
    let b = bn256::G2Affine::from_bytes(&bn256::G2Compressed::from(s_g2.bytes)).unwrap();
    bn256::Bn256::pairing(&l, &a) == bn256::Bn256::pairing(&r, &b)
}

pub proof fn lemma_fmul_assoc(a: nat, b: nat, c: nat)
    ensures
        fmul(fmul(a, b), c) == fmul(a, fmul(b, c)),
{
    let p = fr_modulus() as int;
    let (x, y, z) = (a as int, b as int, c as int);
    lemma_mul_mod_noop_left(x * y, z, p);
    lemma_mul_mod_noop_right(x, y * z, p);
    lemma_mul_is_associative(x, y, z);
}

pub proof fn lemma_fmul_comm(a: nat, b: nat)
    ensures
        fmul(a, b) == fmul(b, a),
{
    assert(a * b == b * a) by (nonlinear_arith);
}

pub proof fn lemma_fmul_one(a: nat)
    requires
        a < fr_modulus(),
    ensures
        fmul(a, 1) == a,
        fmul(1, a) == a,
{
    vstd::arithmetic::div_mod::lemma_small_mod(a, fr_modulus());
}

pub proof fn lemma_fmul_zero(a: nat)
    ensures
        fmul(a, 0) == 0,
        fmul(0, a) == 0,
{
    assert(0 * (a as int) == 0 && (a as int) * 0 == 0) by (nonlinear_arith);
    vstd::arithmetic::div_mod::lemma_small_mod(0, fr_modulus());
}

pub proof fn lemma_fadd_assoc(a: nat, b: nat, c: nat)
    ensures
        fadd(fadd(a, b), c) == fadd(a, fadd(b, c)),
{
    let p = fr_modulus() as int;
    let (x, y, z) = (a as int, b as int, c as int);
    vstd::arithmetic::div_mod::lemma_add_mod_noop_right(z, x + y, p);
    vstd::arithmetic::div_mod::lemma_add_mod_noop_right(x, y + z, p);
    assert((x + y) % p + z == z + (x + y) % p);
    assert(z + (x + y) == x + (y + z));
}

/// The value is below the modulus whenever it is a field result.
pub proof fn lemma_fmul_bound(a: nat, b: nat)
    ensures
        fmul(a, b) < fr_modulus(),
        fadd(a, b) < fr_modulus(),
        fneg(a) < fr_modulus(),
{
}

pub proof fn lemma_fpow_bound(a: nat, e: nat)
    ensures
        fpow(a, e) < fr_modulus(),
{
}

pub proof fn lemma_fpow_add(a: nat, e1: nat, e2: nat)
    ensures
        fpow(a, e1 + e2) == fmul(fpow(a, e1), fpow(a, e2)),
    decreases e1,
{
    if e1 == 0 {
        lemma_fpow_bound(a, e2);
        lemma_fmul_one(fpow(a, e2));
        assert(e1 + e2 == e2);
    } else {
        let e = (e1 - 1) as nat;
        lemma_fpow_add(a, e, e2);
        assert((e1 + e2 - 1) as nat == e + e2);
        lemma_fmul_assoc(a, fpow(a, e), fpow(a, e2));
    }
}

/// In a commutative ring an element has at most one inverse.
pub proof fn lemma_inverse_unique(a: nat, x: nat, y: nat)
    requires
        fmul(a, x) == 1,
        fmul(a, y) == 1,
        x < fr_modulus(),
        y < fr_modulus(),
    ensures
        x == y,
{
    lemma_fmul_one(x);
    lemma_fmul_one(y);
    lemma_fmul_assoc(x, a, y);
    lemma_fmul_comm(x, a);
}

/// `fmul(fmul(x, y), z) == x` when `y` and `z` are inverse to each other.
pub proof fn lemma_fmul_cancel(x: nat, y: nat, z: nat)
    requires
        fmul(y, z) == 1,
        x < fr_modulus(),
    ensures
        fmul(fmul(x, y), z) == x,
{
    lemma_fmul_assoc(x, y, z);
    lemma_fmul_one(x);
}

/// The product of the first `i` values.
pub open spec fn fprod(s: Seq<Scalar>, i: int) -> nat
    decreases i,
{
    if i <= 0 {
        1
    } else {
        fmul(fprod(s, i - 1), s[i - 1].val())
    }
}

proof fn lemma_fprod_zero(s: Seq<Scalar>, i: int, j: int)
    requires
        0 <= j < i <= s.len(),
        s[j].val() == 0,
    ensures
        fprod(s, i) == 0,
    decreases i,
{
    if i - 1 > j {
        lemma_fprod_zero(s, i - 1, j);
        lemma_fmul_zero(s[i - 1].val());
    } else {
        lemma_fmul_zero(fprod(s, i - 1));
    }
}

/// Batch inversion agrees with inverting one value at a time: where each
/// `batch[i]` and each `single[i]` inverts `values[i]`, the two are equal.
pub proof fn lemma_batch_invert_matches_single(values: Seq<Scalar>, batch: Seq<Scalar>, single: Seq<Scalar>)
    requires
        batch.len() == values.len(),
        single.len() == values.len(),
        forall|i: int| 0 <= i < values.len() ==> fmul(#[trigger] values[i].val(), batch[i].val()) == 1,
        forall|i: int| 0 <= i < values.len() ==> fmul(#[trigger] values[i].val(), single[i].val()) == 1,
        forall|i: int| 0 <= i < values.len() ==> #[trigger] batch[i].val() < fr_modulus(),
        forall|i: int| 0 <= i < values.len() ==> #[trigger] single[i].val() < fr_modulus(),
    ensures
        forall|i: int| 0 <= i < values.len() ==> #[trigger] batch[i].val() == single[i].val(),
{
    assert forall|i: int| 0 <= i < values.len() implies #[trigger] batch[i].val() == single[i].val() by {
        lemma_inverse_unique(values[i].val(), batch[i].val(), single[i].val());
    }
}

/// Inverts every value with a single field inversion; nothing when one of
/// them is zero.
pub fn batch_invert(values: &Vec<Scalar>) -> (r: Option<Vec<Scalar>>)
    ensures
        r is None <==> exists|i: int| 0 <= i < values@.len() && #[trigger] values@[i].val() == 0,
        r is Some ==> r->Some_0@.len() == values@.len(),
        r is Some ==> forall|i: int|
            0 <= i < values@.len() ==> fmul(#[trigger] values@[i].val(), r->Some_0@[i].val()) == 1
                && r->Some_0@[i].val() < fr_modulus(),
{
    let n = values.len();
    let mut prefix: Vec<Scalar> = Vec::new();
    let mut acc = Scalar::from_u64(1);
    let mut i: usize = 0;
    while i < n
        invariant
            n == values@.len(),
            i <= n,
            prefix@.len() == i,
            acc.val() == fprod(values@, i as int),
            forall|k: int| 0 <= k < i ==> #[trigger] prefix@[k].val() == fprod(values@, k),
        decreases n - i,
    {
        prefix.push(acc);
        acc = acc.mul(&values[i]);
        i = i + 1;
    }
    match acc.invert() {
        Some(inv) => {
            assert forall|k: int| 0 <= k < n implies #[trigger] values@[k].val() != 0 by {
                if values@[k].val() == 0 {
                    lemma_fprod_zero(values@, n as int, k);
                }
            }
            let mut out = values.clone();
            let mut inv_acc = inv;
            let mut j: usize = n;
            while j > 0
                invariant
                    n == values@.len(),
                    j <= n,
                    prefix@.len() == n,
                    out@.len() == n,
                    forall|k: int| 0 <= k < n ==> #[trigger] prefix@[k].val() == fprod(values@, k),
                    fmul(fprod(values@, j as int), inv_acc.val()) == 1,
                    forall|k: int| j <= k < n ==> fmul(#[trigger] values@[k].val(), out@[k].val()) == 1
                        && out@[k].val() < fr_modulus(),
                decreases j,
            {
                let d = values[j - 1];
                let p = prefix[j - 1];
                let x = inv_acc.mul(&p);
                let ghost iv = inv_acc.val();
                let ghost pv = fprod(values@, j - 1);
                let ghost dv = d.val();
                proof {
                    // fprod(j) == fmul(pv, dv), and iv inverts it.
                    lemma_fmul_comm(fprod(values@, j as int), iv);
                    lemma_fmul_comm(iv, pv);
                    lemma_fmul_assoc(dv, pv, iv);
                    lemma_fmul_comm(dv, pv);
                    lemma_fmul_comm(iv, dv);
                    lemma_fmul_assoc(pv, dv, iv);
                }
                out.set(j - 1, x);
                inv_acc = inv_acc.mul(&d);
                j = j - 1;
            }
            Some(out)
        },
        None => {
            let mut out: Vec<Scalar> = Vec::new();
            let mut k: usize = 0;
            while k < n
                invariant
                    n == values@.len(),
                    k <= n,
                    out@.len() == k,
                    forall|m: int| 0 <= m < k ==> #[trigger] values@[m].val() != 0,
                    forall|m: int| 0 <= m < k ==> fmul(#[trigger] values@[m].val(), out@[m].val()) == 1
                        && out@[m].val() < fr_modulus(),
                decreases n - k,
            {
                match values[k].invert() {
                    Some(x) => out.push(x),
                    None => {
                        return None;
                    },
                }
                k = k + 1;
            }
            Some(out)
        },
    }
}

} // verus!
