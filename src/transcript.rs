//! The Fiat–Shamir transcript: a rolling Blake2s digest that absorbs byte
//! strings, and a ChaCha20 stream seeded from the digest that squeezes
//! challenges.
use crate::encoding::append_bytes;
use crate::field::{group_order, Scalar};
use ark_bn254::Fr;
use ark_ff::{BigInteger, PrimeField, UniformRand};
use blake2::{Blake2s256, Digest};
use rand_chacha::rand_core::SeedableRng;
use rand_chacha::ChaChaRng;
use vstd::prelude::*;

verus! {

/// The Blake2s-256 digest of a byte string.
pub uninterp spec fn blake2s_of(b: Seq<u8>) -> Seq<u8>;

/// The field element that `Fr::rand` draws from the ChaCha20 stream with this
/// seed, starting at this word position, and the word position after the draw.
pub uninterp spec fn chacha_scalar_of(seed: Seq<u8>, word_pos: int) -> (int, int);

/// Relies on `Digest::digest` for `Blake2s256`, whose output is 32 bytes.
#[verifier::external_body]
fn blake2s(b: &[u8]) -> (r: [u8; 32])
    ensures
        r@ == blake2s_of(b@),
{
    Blake2s256::digest(b).into()
}

/// Relies on `UniformRand::rand` for `Fr` on a `ChaChaRng` that `from_seed` and
/// `set_word_pos` put at the given state; `get_word_pos` reads the state after it.
#[verifier::external_body]
fn chacha_scalar(seed: &[u8; 32], word_pos: u128) -> (r: (Scalar, u128))
    ensures
        r.0.wf(),
        (r.0@, r.1 as int) == chacha_scalar_of(seed@, word_pos as int),
{
    let mut rng = ChaChaRng::from_seed(*seed);
    rng.set_word_pos(word_pos);
    let f = Fr::rand(&mut rng);
    (Scalar { bytes: f.into_bigint().to_bytes_le().try_into().unwrap() }, rng.get_word_pos())
}

/// The state of a transcript: the current digest and the position in the
/// stream that it seeds.
pub type TranscriptView = (Seq<u8>, int);

/// The transcript started from `seed`.
pub open spec fn fs_init(seed: Seq<u8>) -> TranscriptView {
    (blake2s_of(seed), 0)
}

/// The transcript after absorbing `b`: the digest of `b` followed by the
/// old digest, and a fresh stream.
pub open spec fn fs_absorb(t: TranscriptView, b: Seq<u8>) -> TranscriptView {
    (blake2s_of(b + t.0), 0)
}

/// The transcript after absorbing each byte string of `bs` in turn.
pub open spec fn fs_absorb_all(t: TranscriptView, bs: Seq<Seq<u8>>) -> TranscriptView
    decreases bs.len(),
{
    if bs.len() == 0 {
        t
    } else {
        fs_absorb_all(fs_absorb(t, bs[0]), bs.subrange(1, bs.len() as int))
    }
}

/// The challenge squeezed from a transcript.
pub open spec fn fs_challenge(t: TranscriptView) -> int {
    chacha_scalar_of(t.0, t.1).0 % group_order()
}

/// The transcript after a challenge is squeezed from it.
pub open spec fn fs_squeeze(t: TranscriptView) -> TranscriptView {
    (t.0, chacha_scalar_of(t.0, t.1).1)
}

/// A Fiat–Shamir transcript.
pub struct FiatShamirRng {
    pub seed: [u8; 32],
    pub word_pos: u128,
}

impl FiatShamirRng {
    pub open spec fn view(&self) -> TranscriptView {
        (self.seed@, self.word_pos as int)
    }

    /// A transcript whose digest is the digest of `seed`.
    pub fn from_seed(seed: &[u8]) -> (r: FiatShamirRng)
        ensures
            r@ == fs_init(seed@),
    {
        FiatShamirRng { seed: blake2s(seed), word_pos: 0 }
    }

    /// Replaces the digest with the digest of `b` followed by the old digest,
    /// and restarts the stream from it.
    pub fn absorb(&mut self, b: &[u8])
        ensures
            final(self)@ == fs_absorb(old(self)@, b@),
    {
        let mut bytes: Vec<u8> = Vec::new();
        append_bytes(&mut bytes, b);
        append_bytes(&mut bytes, &self.seed);
        assert(bytes@ =~= b@ + old(self).seed@);
        self.seed = blake2s(bytes.as_slice());
        self.word_pos = 0;
    }

    /// Draws a challenge from the stream.
    pub fn squeeze_scalar(&mut self) -> (r: Scalar)
        ensures
            r.wf(),
            r@ == fs_challenge(old(self)@),
            final(self)@ == fs_squeeze(old(self)@),
    {
        let (r, pos) = chacha_scalar(&self.seed, self.word_pos);
        self.word_pos = pos;
        proof {
            vstd::arithmetic::div_mod::lemma_small_mod(r@ as nat, group_order() as nat);
        }
        r
    }
}

/// Two transcripts started from the same seed and fed the same byte strings
/// in the same order give the same challenge.
pub proof fn lemma_transcript_deterministic(seed1: Seq<u8>, seed2: Seq<u8>, bs1: Seq<Seq<u8>>, bs2: Seq<Seq<u8>>)
    requires
        seed1 == seed2,
        bs1 == bs2,
    ensures
        fs_challenge(fs_absorb_all(fs_init(seed1), bs1)) == fs_challenge(fs_absorb_all(fs_init(seed2), bs2)),
{
}

} // verus!
