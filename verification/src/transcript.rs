//! Fiat–Shamir transcripts: a Merlin transcript together with the record of
//! everything written to it and drawn from it. Merlin is deterministic, so
//! every challenge is a function of that record.
use vstd::prelude::*;
use crate::field::{q, le_val, le32, lemma_enc_le32, Fr, fr_from_raw};
use crate::group::Pt;
use crate::traits::ByteSerializable;

verus! {

#[verifier::external_type_specification]
#[verifier::external_body]
pub struct ExTranscript(merlin::Transcript);

/// One operation on a transcript.
pub enum TranscriptEntry {
    /// Creation with a domain-separation label.
    Init(Seq<char>),
    /// A labelled message.
    Message(Seq<char>, Seq<u8>),
    /// A labelled 64-bit integer.
    U64(Seq<char>, u64),
    /// A labelled challenge of the given number of bytes.
    Challenge(Seq<char>, nat),
}

/// The bytes that `Transcript::challenge_bytes` of `merlin` writes, for a
/// transcript that went through the given operations, with the given label
/// and number of bytes.
pub uninterp spec fn merlin_challenge(log: Seq<TranscriptEntry>, label: Seq<char>, len: nat) -> Seq<u8>;

/// A Merlin transcript and the operations it went through.
pub struct TitanTranscript {
    inner: merlin::Transcript,
    log: Ghost<Seq<TranscriptEntry>>,
}

impl View for TitanTranscript {
    type V = Seq<TranscriptEntry>;

    closed spec fn view(&self) -> Seq<TranscriptEntry> {
        self.log@
    }
}

/// A new Merlin transcript (`Transcript::new`) with a domain-separation label.
#[verifier::external_body]
fn merlin_new(label: &'static str) -> merlin::Transcript {
    merlin::Transcript::new(label.as_bytes())
}

/// Appends a labelled message (`Transcript::append_message`); Merlin asserts
/// that the length fits in 32 bits.
#[verifier::external_body]
fn merlin_append(t: &mut merlin::Transcript, label: &'static str, message: &[u8])
    requires
        message@.len() <= u32::MAX,
{
    t.append_message(label.as_bytes(), message)
}

/// Appends a labelled 64-bit integer (`Transcript::append_u64`).
#[verifier::external_body]
fn merlin_append_u64(t: &mut merlin::Transcript, label: &'static str, x: u64) {
    t.append_u64(label.as_bytes(), x)
}

impl TitanTranscript {
    /// Draws `len` challenge bytes (`Transcript::challenge_bytes` of `merlin`):
    /// they are the named function of the operations recorded so far.
    #[verifier::external_body]
    fn squeeze(&mut self, label: &'static str, len: usize) -> (r: Vec<u8>)
        requires
            len <= u32::MAX,
        ensures
            r@ == merlin_challenge(old(self)@, label@, len as nat),
            r@.len() == len,
            final(self)@ == old(self)@,
    {
        let mut buf = vec![0u8; len];
        self.inner.challenge_bytes(label.as_bytes(), &mut buf);
        buf
    }

    /// A new transcript with a domain-separation label.
    pub fn new(label: &'static str) -> (r: Self)
        ensures
            r@ == seq![TranscriptEntry::Init(label@)],
    {
        let log: Ghost<Seq<TranscriptEntry>> = Ghost(Seq::empty().push(TranscriptEntry::Init(label@)));
        TitanTranscript { inner: merlin_new(label), log }
    }

    /// Appends a labelled message.
    pub fn append_message(&mut self, label: &'static str, message: &[u8])
        requires
            message@.len() <= u32::MAX,
        ensures
            final(self)@ == old(self)@.push(TranscriptEntry::Message(label@, message@)),
    {
        merlin_append(&mut self.inner, label, message);
        proof {
            self.log@ = self.log@.push(TranscriptEntry::Message(label@, message@));
        }
    }

    /// Appends a labelled 64-bit integer.
    pub fn append_u64(&mut self, label: &'static str, x: u64)
        ensures
            final(self)@ == old(self)@.push(TranscriptEntry::U64(label@, x)),
    {
        merlin_append_u64(&mut self.inner, label, x);
        proof {
            self.log@ = self.log@.push(TranscriptEntry::U64(label@, x));
        }
    }

    /// Draws `len` challenge bytes.
    pub fn challenge_bytes(&mut self, label: &'static str, len: usize) -> (r: Vec<u8>)
        requires
            len <= u32::MAX,
        ensures
            r@ == merlin_challenge(old(self)@, label@, len as nat),
            r@.len() == len,
            final(self)@ == old(self)@.push(TranscriptEntry::Challenge(label@, len as nat)),
    {
        let r = self.squeeze(label, len);
        proof {
            self.log@ = self.log@.push(TranscriptEntry::Challenge(label@, len as nat));
        }
        r
    }
}

/// The scalar that 64 challenge bytes stand for: their first 32 bytes as a
/// little-endian integer, reduced modulo `q`.
pub open spec fn challenge_scalar(bytes: Seq<u8>) -> int {
    (le_val(bytes.take(32)) as int) % q()
}

/// Appends the encoding of a value.
pub fn append_to_transcript<C: ByteSerializable>(t: &mut TitanTranscript, label: &'static str, elem: &C)
    ensures
        final(t)@ == old(t)@.push(TranscriptEntry::Message(label@, elem.ser())),
{
    let bytes = elem.serialize_to_bytes();
    t.append_message(label, bytes.as_slice());
}

/// Draws a scalar from 64 challenge bytes.
pub fn get_challenge(t: &mut TitanTranscript, label: &'static str) -> (r: Fr)
    ensures
        r.val() == challenge_scalar(merlin_challenge(old(t)@, label@, 64)),
        r.enc() == le32(r.val()),
        final(t)@ == old(t)@.push(TranscriptEntry::Challenge(label@, 64)),
{
    let buf = t.challenge_bytes(label, 64);
    let r = Fr::deserialize_from_bytes(buf.as_slice()).unwrap();
    proof {
        use_type_invariant(&r);
        crate::field::lemma_canonical_enc(r);
    }
    r
}

/// Draws a 64-bit integer from 8 challenge bytes, read little-endian.
pub fn get_challenge_u64(t: &mut TitanTranscript, label: &'static str) -> (r: u64)
    ensures
        r as int == le_val(merlin_challenge(old(t)@, label@, 8)),
        final(t)@ == old(t)@.push(TranscriptEntry::Challenge(label@, 8)),
{
    let buf = t.challenge_bytes(label, 8);
    let mut r: u64 = 0;
    let mut i: usize = 8;
    proof {
        assert(buf@.skip(8).len() == 0);
    }
    while i > 0
        invariant
            i <= 8,
            buf@.len() == 8,
            r as int == le_val(buf@.skip(i as int)),
        decreases i,
    {
        let ghost rest = buf@.skip(i as int);
        proof {
            assert(buf@.skip(i - 1).drop_first() =~= rest);
            assert(buf@.skip(i - 1)[0] == buf@[i - 1]);
            lemma_le_val_bound(buf@.skip(i - 1));
            lemma_pow256_mono((9 - i) as nat, 8);
            reveal_with_fuel(pow256, 9);
            assert(pow256(8) == 0x1_0000_0000_0000_0000);
        }
        r = r * 256 + buf[i - 1] as u64;
        i = i - 1;
    }
    proof {
        assert(buf@.skip(0) =~= buf@);
    }
    r
}

/// `256^n`.
pub open spec fn pow256(n: nat) -> nat
    decreases n,
{
    if n == 0 {
        1
    } else {
        256 * pow256((n - 1) as nat)
    }
}

proof fn lemma_pow256_mono(a: nat, b: nat)
    requires
        a <= b,
    ensures
        pow256(a) <= pow256(b),
    decreases b,
{
    if a < b {
        lemma_pow256_mono(a, (b - 1) as nat);
    }
}

proof fn lemma_le_val_bound(s: Seq<u8>)
    ensures
        le_val(s) < pow256(s.len()),
    decreases s.len(),
{
    if s.len() > 0 {
        lemma_le_val_bound(s.drop_first());
    }
}

/// Appends the encoding of a scalar.
pub fn transcript_append_scalar(t: &mut TitanTranscript, label: &'static str, s: &Fr)
    ensures
        final(t)@ == old(t)@.push(TranscriptEntry::Message(label@, s.enc())),
        s.enc() == le32(s.val()),
{
    let bytes = s.serialize_to_bytes();
    proof {
        lemma_enc_le32(*s);
    }
    t.append_message(label, bytes.as_slice());
}

/// Appends the encoding of a point.
pub fn transcript_append_point(t: &mut TitanTranscript, label: &'static str, p: &Pt)
    ensures
        final(t)@ == old(t)@.push(TranscriptEntry::Message(label@, p.encoding())),
{
    let bytes = p.serialize_to_bytes();
    t.append_message(label, bytes.as_slice());
}

/// Draws a scalar from 64 challenge bytes: the first 32 read as four
/// little-endian 64-bit limbs and reduced modulo `q`.
pub fn transcript_challenge_scalar(t: &mut TitanTranscript, label: &'static str) -> (r: Fr)
    ensures
        r.val() == challenge_scalar(merlin_challenge(old(t)@, label@, 64)),
        final(t)@ == old(t)@.push(TranscriptEntry::Challenge(label@, 64)),
{
    let buf = t.challenge_bytes(label, 64);
    let mut first: [u8; 32] = [0u8; 32];
    let mut i: usize = 0;
    while i < 32
        invariant
            i <= 32,
            buf@.len() == 64,
            forall|j: int| 0 <= j < i ==> first@[j] == buf@[j],
        decreases 32 - i,
    {
        first[i] = buf[i];
        i = i + 1;
    }
    proof {
        assert(first@ =~= buf@.take(32));
    }
    fr_from_raw(&first)
}

} // verus!
