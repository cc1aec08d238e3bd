//! Fiat-Shamir transcripts: what was absorbed and squeezed, in order, and
//! a native back end that reads a proof from bytes and hashes with BLAKE2b.
use crate::field::{fr_modulus, g1_decodes, le_value, EcPoint, Scalar};
use crate::Error;
use vstd::prelude::*;

verus! {

/// One step of a transcript's history.
#[derive(Clone, Copy, Debug, PartialEq, Eq)]
pub enum TranscriptItem {
    /// A scalar was absorbed (written by both sides or read from the proof).
    Scalar(Scalar),
    /// A point was absorbed.
    Point(EcPoint),
    /// A challenge was squeezed.
    Challenge(Scalar),
}

/// The width of one encoded scalar or point in a proof stream.
pub const ENCODED_LEN: usize = 32;

/// A Fiat-Shamir transcript. Its history is the ordered record of all that
/// it absorbed and squeezed; its stream is the proof bytes not read yet.
pub trait Transcript {
    spec fn log(&self) -> Seq<TranscriptItem>;

    /// The proof bytes not read yet (none for a transcript that only writes).
    spec fn remaining(&self) -> Seq<u8>;

    /// Derives a challenge from everything absorbed so far.
    fn squeeze_challenge(&mut self) -> (c: Scalar)
        ensures
            final(self).log() == old(self).log().push(TranscriptItem::Challenge(c)),
            final(self).remaining() == old(self).remaining(),
    ;

    /// Absorbs a scalar; fails only on an error of the underlying sink, and
    /// then absorbs nothing.
    fn common_scalar(&mut self, s: &Scalar) -> (r: Result<(), Error>)
        ensures
            r is Ok ==> final(self).log() == old(self).log().push(TranscriptItem::Scalar(*s)),
            r is Err ==> r->Err_0 is Transcript && final(self).log() == old(self).log(),
            final(self).remaining() == old(self).remaining(),
    ;

    /// Absorbs a point; fails only on an error of the underlying sink, and
    /// then absorbs nothing.
    fn common_ec_point(&mut self, p: &EcPoint) -> (r: Result<(), Error>)
        ensures
            r is Ok ==> final(self).log() == old(self).log().push(TranscriptItem::Point(*p)),
            r is Err ==> r->Err_0 is Transcript && final(self).log() == old(self).log(),
            final(self).remaining() == old(self).remaining(),
    ;
}

/// A transcript that also reads the proof; every value read is absorbed.
/// A scalar is read from its 32-byte little-endian canonical encoding, a
/// point from its 32-byte compressed encoding.
pub trait TranscriptRead: Transcript {
    /// Fails when fewer than 32 bytes remain or they do not encode a value
    /// below the modulus.
    fn read_scalar(&mut self) -> (r: Result<Scalar, Error>)
        ensures
            r is Ok <==> old(self).remaining().len() >= ENCODED_LEN
                && le_value(old(self).remaining().take(ENCODED_LEN as int)) < fr_modulus(),
            r is Ok ==> r->Ok_0.val() == le_value(old(self).remaining().take(ENCODED_LEN as int))
                && final(self).remaining() == old(self).remaining().skip(ENCODED_LEN as int)
                && final(self).log() == old(self).log().push(TranscriptItem::Scalar(r->Ok_0)),
            r is Err ==> r->Err_0 is Transcript && final(self).log() == old(self).log(),
    ;

    /// Fails when fewer than 32 bytes remain or they are not a valid
    /// compressed point.
    fn read_ec_point(&mut self) -> (r: Result<EcPoint, Error>)
        ensures
            r is Ok <==> old(self).remaining().len() >= ENCODED_LEN
                && g1_decodes(old(self).remaining().take(ENCODED_LEN as int)),
            r is Ok ==> r->Ok_0.enc() == old(self).remaining().take(ENCODED_LEN as int)
                && final(self).remaining() == old(self).remaining().skip(ENCODED_LEN as int)
                && final(self).log() == old(self).log().push(TranscriptItem::Point(r->Ok_0)),
            r is Err ==> r->Err_0 is Transcript && final(self).log() == old(self).log(),
    ;
}

/// The `k`-th encoded value of a stream: bytes `32k .. 32k + 32`.
pub open spec fn segment(s: Seq<u8>, k: int) -> Seq<u8> {
    s.subrange(ENCODED_LEN * k, ENCODED_LEN * k + ENCODED_LEN)
}

/// Segments of a stream keep their place once a whole number of segments
/// was taken off its front.
pub proof fn lemma_segment_skip(s: Seq<u8>, a: int, k: int)
    requires
        0 <= a,
        0 <= k,
        ENCODED_LEN * (a + k) + ENCODED_LEN <= s.len(),
    ensures
        segment(s.skip(ENCODED_LEN * a), k) == segment(s, a + k),
{
    assert(segment(s.skip(ENCODED_LEN * a), k) =~= segment(s, a + k));
}

/// The history of squeezing `cs` in turn.
pub open spec fn challenge_items(cs: Seq<Scalar>) -> Seq<TranscriptItem> {
    cs.map_values(|c: Scalar| TranscriptItem::Challenge(c))
}

/// The history of absorbing the scalars `ss` in turn.
pub open spec fn scalar_items(ss: Seq<Scalar>) -> Seq<TranscriptItem> {
    ss.map_values(|s: Scalar| TranscriptItem::Scalar(s))
}

/// The history of absorbing the points `ps` in turn.
pub open spec fn point_items(ps: Seq<EcPoint>) -> Seq<TranscriptItem> {
    ps.map_values(|p: EcPoint| TranscriptItem::Point(p))
}

/// Squeezes `n` challenges in turn.
pub fn squeeze_n_challenges<T: Transcript>(t: &mut T, n: usize) -> (r: Vec<Scalar>)
    ensures
        r@.len() == n,
        final(t).log() == old(t).log() + challenge_items(r@),
        final(t).remaining() == old(t).remaining(),
{
    let mut r: Vec<Scalar> = Vec::new();
    let mut i: usize = 0;
    while i < n
        invariant
            i <= n,
            r@.len() == i,
            t.log() == old(t).log() + challenge_items(r@),
            t.remaining() == old(t).remaining(),
        decreases n - i,
    {
        let c = t.squeeze_challenge();
        proof {
            assert(challenge_items(r@.push(c)) =~= challenge_items(r@).push(TranscriptItem::Challenge(c)));
        }
        r.push(c);
        i = i + 1;
    }
    r
}

/// Reads `n` scalars in turn.
pub fn read_n_scalars<T: TranscriptRead>(t: &mut T, n: usize) -> (r: Result<Vec<Scalar>, Error>)
    ensures
        r is Ok ==> r->Ok_0@.len() == n && final(t).log() == old(t).log() + scalar_items(r->Ok_0@),
        r is Ok ==> old(t).remaining().len() >= ENCODED_LEN * n
            && final(t).remaining() == old(t).remaining().skip(ENCODED_LEN * n),
        r is Ok ==> forall|k: int| 0 <= k < n ==> #[trigger] le_value(segment(old(t).remaining(), k)) < fr_modulus(),
        r is Ok ==> forall|k: int| 0 <= k < n ==> (#[trigger] r->Ok_0@[k]).val() == le_value(segment(old(t).remaining(), k)),
        r is Err ==> r->Err_0 is Transcript,
        n == 0 ==> r is Ok && *final(t) == *old(t),
{
    let mut r: Vec<Scalar> = Vec::new();
    let mut i: usize = 0;
    assert(old(t).remaining().skip(0) =~= old(t).remaining());
    while i < n
        invariant
            i <= n,
            r@.len() == i,
            t.log() == old(t).log() + scalar_items(r@),
            old(t).remaining().len() >= ENCODED_LEN * i,
            t.remaining() == old(t).remaining().skip(ENCODED_LEN * i),
            i == 0 ==> *t == *old(t),
            forall|k: int| 0 <= k < i ==> #[trigger] le_value(segment(old(t).remaining(), k)) < fr_modulus(),
            forall|k: int| 0 <= k < i ==> (#[trigger] r@[k]).val() == le_value(segment(old(t).remaining(), k)),
        decreases n - i,
    {
        let ghost pre = t.remaining();
        let s = t.read_scalar()?;
        proof {
            assert(pre.take(ENCODED_LEN as int) =~= segment(old(t).remaining(), i as int));
            assert(s.val() == le_value(segment(old(t).remaining(), i as int)));
            assert(le_value(segment(old(t).remaining(), i as int)) < fr_modulus());
        }
        proof {
            assert(old(t).remaining().skip(ENCODED_LEN * i).skip(ENCODED_LEN as int) =~= old(t).remaining().skip(ENCODED_LEN * (i + 1)));
        }
        proof {
            assert(scalar_items(r@.push(s)) =~= scalar_items(r@).push(TranscriptItem::Scalar(s)));
        }
        let ghost prev = r@;
        r.push(s);
        proof {
            assert forall|k: int| 0 <= k < i + 1 implies #[trigger] r@[k] == (if k < i { prev[k] } else { s }) by {}
        }
        i = i + 1;
    }
    Ok(r)
}

/// Reads `n` points in turn.
pub fn read_n_ec_points<T: TranscriptRead>(t: &mut T, n: usize) -> (r: Result<Vec<EcPoint>, Error>)
    ensures
        r is Ok ==> r->Ok_0@.len() == n && final(t).log() == old(t).log() + point_items(r->Ok_0@),
        r is Ok ==> old(t).remaining().len() >= ENCODED_LEN * n
            && final(t).remaining() == old(t).remaining().skip(ENCODED_LEN * n),
        r is Ok ==> forall|k: int| 0 <= k < n ==> #[trigger] g1_decodes(segment(old(t).remaining(), k)),
        r is Ok ==> forall|k: int| 0 <= k < n ==> (#[trigger] r->Ok_0@[k]).enc() == segment(old(t).remaining(), k),
        r is Err ==> r->Err_0 is Transcript,
        n == 0 ==> r is Ok && *final(t) == *old(t),
{
    let mut r: Vec<EcPoint> = Vec::new();
    let mut i: usize = 0;
    assert(old(t).remaining().skip(0) =~= old(t).remaining());
    while i < n
        invariant
            i <= n,
            r@.len() == i,
            t.log() == old(t).log() + point_items(r@),
            old(t).remaining().len() >= ENCODED_LEN * i,
            t.remaining() == old(t).remaining().skip(ENCODED_LEN * i),
            i == 0 ==> *t == *old(t),
            forall|k: int| 0 <= k < i ==> #[trigger] g1_decodes(segment(old(t).remaining(), k)),
            forall|k: int| 0 <= k < i ==> (#[trigger] r@[k]).enc() == segment(old(t).remaining(), k),
        decreases n - i,
    {
        let ghost pre = t.remaining();
        let p = t.read_ec_point()?;
        proof {
            assert(pre.take(ENCODED_LEN as int) =~= segment(old(t).remaining(), i as int));
            assert(p.enc() == segment(old(t).remaining(), i as int));
            assert(g1_decodes(segment(old(t).remaining(), i as int)));
        }
        proof {
            assert(old(t).remaining().skip(ENCODED_LEN * i).skip(ENCODED_LEN as int) =~= old(t).remaining().skip(ENCODED_LEN * (i + 1)));
        }
        proof {
            assert(point_items(r@.push(p)) =~= point_items(r@).push(TranscriptItem::Point(p)));
        }
        let ghost prev = r@;
        r.push(p);
        proof {
            assert forall|k: int| 0 <= k < i + 1 implies #[trigger] r@[k] == (if k < i { prev[k] } else { p }) by {}
        }
        i = i + 1;
    }
    Ok(r)
}

/// The BLAKE2b-512 digest of the bytes (`blake2b_simd::blake2b`).
pub uninterp spec fn blake2b_of(data: Seq<u8>) -> Seq<u8>;

/// Relies on `blake2b_simd::blake2b`: the 64-byte digest with default
/// parameters.
#[verifier::external_body]
fn blake2b(data: &Vec<u8>) -> (r: [u8; 64])
    ensures
        r@ == blake2b_of(data@),
{
    *blake2b_simd::blake2b(data.as_slice()).as_array()
}

/// Tags that separate the kinds of absorbed data in the hashed state.
pub const TAG_SCALAR: u8 = 1;
pub const TAG_POINT: u8 = 2;
pub const TAG_CHALLENGE: u8 = 3;

/// The bytes one history item adds to the hashed state.
pub open spec fn encode_item(item: TranscriptItem) -> Seq<u8> {
    match item {
        TranscriptItem::Scalar(s) => seq![TAG_SCALAR] + s.repr(),
        TranscriptItem::Point(p) => seq![TAG_POINT] + p.enc(),
        TranscriptItem::Challenge(_) => seq![TAG_CHALLENGE],
    }
}

/// The hashed state after a whole history.
pub open spec fn encode_log(log: Seq<TranscriptItem>) -> Seq<u8>
    decreases log.len(),
{
    if log.len() == 0 {
        seq![]
    } else {
        encode_log(log.drop_last()) + encode_item(log.last())
    }
}

/// The value of the challenge a native transcript squeezes after `log`:
/// the BLAKE2b digest of the state and the challenge tag, reduced.
pub open spec fn native_challenge(log: Seq<TranscriptItem>) -> nat {
    le_value(blake2b_of(encode_log(log).push(TAG_CHALLENGE))) % fr_modulus()
}

/// A transcript over an in-memory proof, hashing with BLAKE2b.
pub struct NativeTranscript {
    stream: Vec<u8>,
    pos: usize,
    items: Vec<TranscriptItem>,
}

/// Appends `bytes` to `dst`.
fn append_bytes(dst: &mut Vec<u8>, bytes: &[u8])
    ensures
        final(dst)@ == old(dst)@ + bytes@,
{
    let mut i: usize = 0;
    while i < bytes.len()
        invariant
            i <= bytes@.len(),
            dst@ == old(dst)@ + bytes@.subrange(0, i as int),
        decreases bytes@.len() - i,
    {
        dst.push(bytes[i]);
        proof {
            assert(bytes@.subrange(0, i + 1) =~= bytes@.subrange(0, i as int).push(bytes@[i as int]));
        }
        i = i + 1;
    }
    proof {
        assert(bytes@.subrange(0, i as int) =~= bytes@);
    }
}

/// Appends the encoding of one history item to `dst`.
fn encode_item_into(dst: &mut Vec<u8>, item: &TranscriptItem)
    ensures
        final(dst)@ == old(dst)@ + encode_item(*item),
{
    match item {
        TranscriptItem::Scalar(s) => {
            dst.push(TAG_SCALAR);
            append_bytes(dst, &s.to_bytes());
        },
        TranscriptItem::Point(p) => {
            dst.push(TAG_POINT);
            append_bytes(dst, &p.to_bytes());
        },
        TranscriptItem::Challenge(_) => {
            dst.push(TAG_CHALLENGE);
        },
    }
    proof {
        assert(final(dst)@ =~= old(dst)@ + encode_item(*item));
    }
}

impl NativeTranscript {
    /// The proof bytes not read yet.
    pub closed spec fn unread(self) -> Seq<u8> {
        if self.pos <= self.stream@.len() {
            self.stream@.skip(self.pos as int)
        } else {
            seq![]
        }
    }

    /// A transcript over `proof`, with nothing absorbed yet.
    pub fn new(proof: Vec<u8>) -> (r: NativeTranscript)
        ensures
            r.log() == Seq::<TranscriptItem>::empty(),
            r.remaining() == proof@,
    {
        let r = NativeTranscript { stream: proof, pos: 0, items: Vec::new() };
        proof {
            assert(r.stream@.skip(0) =~= r.stream@);
            assert(r.items@ =~= Seq::<TranscriptItem>::empty());
        }
        r
    }

    /// The next `32` bytes of the proof, if there are that many.
    fn take32(&mut self) -> (r: Option<[u8; 32]>)
        ensures
            r is Some <==> old(self).unread().len() >= 32,
            r is Some ==> r->Some_0@ == old(self).unread().take(32)
                && final(self).unread() == old(self).unread().skip(32),
            r is None ==> final(self).unread() == old(self).unread(),
            final(self).items == old(self).items,
    {
        if self.pos > self.stream.len() || self.stream.len() - self.pos < 32 {
            return None;
        }
        let mut b = [0u8; 32];
        let mut i: usize = 0;
        let start: usize = self.pos;
        let len: usize = self.stream.len();
        while i < 32
            invariant
                i <= 32,
                start == self.pos,
                len == self.stream@.len(),
                start + 32 <= len,
                forall|k: int| 0 <= k < i ==> b@[k] == self.stream@[self.pos + k],
            decreases 32 - i,
        {
            b[i] = self.stream[start + i];
            i = i + 1;
        }
        let ghost before = self.unread();
        self.pos = self.pos + 32;
        proof {
            assert(b@ =~= before.take(32));
            assert(self.unread() =~= before.skip(32));
        }
        Some(b)
    }
}

impl Transcript for NativeTranscript {
    closed spec fn log(&self) -> Seq<TranscriptItem> {
        self.items@
    }

    closed spec fn remaining(&self) -> Seq<u8> {
        self.unread()
    }

    fn squeeze_challenge(&mut self) -> (c: Scalar)
        ensures
            c.val() == native_challenge(old(self).log()),
    {
        let mut data: Vec<u8> = Vec::new();
        let mut i: usize = 0;
        while i < self.items.len()
            invariant
                i <= self.items@.len(),
                data@ == encode_log(self.items@.subrange(0, i as int)),
            decreases self.items@.len() - i,
        {
            proof {
                assert(self.items@.subrange(0, i + 1).drop_last() =~= self.items@.subrange(0, i as int));
            }
            encode_item_into(&mut data, &self.items[i]);
            i = i + 1;
        }
        proof {
            assert(self.items@.subrange(0, i as int) =~= self.items@);
        }
        data.push(TAG_CHALLENGE);
        let digest = blake2b(&data);
        let c = Scalar::from_uniform_bytes(&digest);
        self.items.push(TranscriptItem::Challenge(c));
        c
    }

    fn common_scalar(&mut self, s: &Scalar) -> (r: Result<(), Error>)
        ensures
            r is Ok,
    {
        self.items.push(TranscriptItem::Scalar(*s));
        Ok(())
    }

    fn common_ec_point(&mut self, p: &EcPoint) -> (r: Result<(), Error>)
        ensures
            r is Ok,
    {
        self.items.push(TranscriptItem::Point(*p));
        Ok(())
    }
}

impl TranscriptRead for NativeTranscript {
    fn read_scalar(&mut self) -> (r: Result<Scalar, Error>) {
        let b = match self.take32() {
            Some(b) => b,
            None => {
                return Err(Error::Transcript(std::io::ErrorKind::UnexpectedEof, String::new()));
            },
        };
        match Scalar::from_bytes(b) {
            Some(s) => {
                let _ = self.common_scalar(&s);
                Ok(s)
            },
            None => Err(Error::Transcript(std::io::ErrorKind::InvalidData, String::new())),
        }
    }

    fn read_ec_point(&mut self) -> (r: Result<EcPoint, Error>) {
        let b = match self.take32() {
            Some(b) => b,
            None => {
                return Err(Error::Transcript(std::io::ErrorKind::UnexpectedEof, String::new()));
            },
        };
        match EcPoint::from_bytes(b) {
            Some(p) => {
                let _ = self.common_ec_point(&p);
                Ok(p)
            },
            None => Err(Error::Transcript(std::io::ErrorKind::InvalidData, String::new())),
        }
    }
}

/// Two histories made of the same absorbs and squeezes in the same order;
/// what the squeezes returned is not compared.
pub open spec fn same_script(h1: Seq<TranscriptItem>, h2: Seq<TranscriptItem>) -> bool {
    &&& h1.len() == h2.len()
    &&& forall|i: int| 0 <= i < h1.len() ==> (#[trigger] h1[i] == h2[i] || (h1[i] is Challenge && h2[i] is Challenge))
}

/// Native transcripts fed the same absorbs and squeezes in the same order
/// squeeze the same next challenge; by induction over the squeezes, they
/// yield the same challenge sequence.
pub proof fn lemma_transcript_determinism(h1: Seq<TranscriptItem>, h2: Seq<TranscriptItem>)
    requires
        same_script(h1, h2),
    ensures
        encode_log(h1) == encode_log(h2),
        native_challenge(h1) == native_challenge(h2),
    decreases h1.len(),
{
    if h1.len() > 0 {
        assert(same_script(h1.drop_last(), h2.drop_last())) by {
            assert forall|i: int| 0 <= i < h1.drop_last().len() implies (#[trigger] h1.drop_last()[i] == h2.drop_last()[i]
                || (h1.drop_last()[i] is Challenge && h2.drop_last()[i] is Challenge)) by {
                assert(h1[i] == h2[i] || (h1[i] is Challenge && h2[i] is Challenge));
            }
        }
        lemma_transcript_determinism(h1.drop_last(), h2.drop_last());
        assert(h1.last() == h2.last() || (h1.last() is Challenge && h2.last() is Challenge));
        assert(encode_item(h1.last()) == encode_item(h2.last()));
    }
}

} // verus!
