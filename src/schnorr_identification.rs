//! Schnorr identification: a proof of knowledge of `x` with `X = x * g`,
//! made non-interactive with a Fiat–Shamir transcript.
//!
//! Absorption schedule: the label `schnorr_identity`, then `g`, `X` and the
//! prover's commitment `R`, each compressed; then one challenge `c` is
//! squeezed. The prover answers `z = w - c * x` for its nonce `w`; the verifier
//! accepts when `z * g + c * X = R`.
use crate::algebra::{group_laws, is_scalar, lemma_challenge_separates, lemma_mul_injective, lemma_sigma_difference};
use vstd::arithmetic::div_mod::{lemma_add_mod_noop, lemma_mod_equivalence, lemma_small_mod};
use crate::encoding::{
    append_bytes, compressed_encoding, decode_point_at, decode_scalar_at, lemma_le_bytes_len, scalar_encoding,
};
use crate::error::{is_rejection, rejection, CryptoError};
use crate::field::{group_order, Scalar};
use crate::group::{g1_add_of, g1_mul_of, valid_point, Point, PointView};
use crate::transcript::{fs_absorb, fs_challenge, fs_squeeze, FiatShamirRng, TranscriptView};
use vstd::prelude::*;

verus! {

/// The bytes of the label `schnorr_identity`.
pub open spec fn schnorr_label() -> Seq<u8> {
    seq![115u8, 99, 104, 110, 111, 114, 114, 95, 105, 100, 101, 110, 116, 105, 116, 121]
}

fn label() -> (r: Vec<u8>)
    ensures
        r@ == schnorr_label(),
{
    let r = vec![115u8, 99, 104, 110, 111, 114, 114, 95, 105, 100, 101, 110, 116, 105, 116, 121];
    assert(r@ =~= schnorr_label());
    r
}

/// The transcript once the label, the generator, the statement and the
/// prover's commitment are absorbed.
pub open spec fn schnorr_absorbed(t: TranscriptView, g: PointView, x: PointView, r: PointView) -> TranscriptView {
    fs_absorb(
        fs_absorb(fs_absorb(fs_absorb(t, schnorr_label()), compressed_encoding(g)), compressed_encoding(x)),
        compressed_encoding(r),
    )
}

/// The verification equation `z * g + c * X = R`.
pub open spec fn schnorr_equation(g: PointView, x: PointView, r: PointView, z: int, c: int) -> bool {
    g1_add_of(g1_mul_of(g, z), g1_mul_of(x, c)) == r
}

/// The prover's answer `z = w - c * x`.
pub open spec fn schnorr_opening(w: int, c: int, x: int) -> int {
    (w - (c * x) % group_order()) % group_order()
}

/// A Schnorr proof: the commitment `R = w * g` and the answer `z`.
#[derive(Clone, Copy, Debug, PartialEq, Eq)]
pub struct Proof {
    pub random_commit: Point,
    pub opening: Scalar,
}

impl Proof {
    pub open spec fn wf(&self) -> bool {
        self.random_commit.wf() && self.opening.wf()
    }

    /// Checks the proof against the generator `pp` and the statement.
    pub fn verify(&self, pp: &Point, statement: &Point, fs_rng: &mut FiatShamirRng) -> (r: Result<(), CryptoError>)
        requires
            self.wf(),
            pp.wf(),
            statement.wf(),
        ensures
            ({
                let t = schnorr_absorbed(old(fs_rng)@, pp@, statement@, self.random_commit@);
                &&& final(fs_rng)@ == fs_squeeze(t)
                &&& (r is Ok <==> schnorr_equation(pp@, statement@, self.random_commit@, self.opening@, fs_challenge(t)))
            }),
            r is Err ==> is_rejection(r->Err_0, "Schnorr Identification"@),
    {
        fs_rng.absorb(label().as_slice());
        fs_rng.absorb(&pp.to_compressed());
        fs_rng.absorb(&statement.to_compressed());
        fs_rng.absorb(&self.random_commit.to_compressed());
        let c = fs_rng.squeeze_scalar();
        let lhs = pp.mul(&self.opening).add(&statement.mul(&c));
        if !lhs.equals(&self.random_commit) {
            return Err(rejection("Schnorr Identification"));
        }
        Ok(())
    }
}

/// The encoding of a proof: the compressed `random_commit`, then the 32 bytes of `opening`.
pub open spec fn proof_encoding(p: Proof) -> Seq<u8> {
    compressed_encoding(p.random_commit@) + scalar_encoding(p.opening)
}

impl Proof {
    /// The encoding.
    pub fn to_bytes(&self) -> (r: Vec<u8>)
        requires
            self.wf(),
        ensures
            r@ == proof_encoding(*self),
    {
        let mut r: Vec<u8> = Vec::new();
        append_bytes(&mut r, &self.random_commit.to_compressed());
        append_bytes(&mut r, &self.opening.to_bytes());
        r
    }

    /// The size of the encoding.
    pub fn serialized_size(&self) -> (r: usize)
        ensures
            r == proof_encoding(*self).len(),
    {
        proof {
            lemma_le_bytes_len(if self.random_commit@.2 { 0 } else { self.random_commit@.0 }, 32);
        }
        64
    }

    /// Decodes an encoding; the encoding of a proof gives it back.
    pub fn from_bytes(b: &[u8]) -> (r: Result<Proof, CryptoError>)
        ensures
            r is Ok ==> r->Ok_0.wf(),
            r is Err ==> r == Err::<Proof, CryptoError>(CryptoError::SerializationError),
            forall|p: Proof| p.wf() && proof_encoding(p) == b@ ==> r == Ok::<Proof, CryptoError>(p),
    {
        proof {
            assert forall|p: Proof| p.wf() && proof_encoding(p) == b@ implies b@.len() == 64 && b@.subrange(0, 32) == compressed_encoding(p.random_commit@) && b@.subrange(32, 64) == scalar_encoding(p.opening) by {
                lemma_proof_parts(p, b@);
            }
        }
        if b.len() != 64 {
            return Err(CryptoError::SerializationError);
        }
        let random_commit = match decode_point_at(b, 0) {
            Ok(x) => x,
            Err(e) => {
                return Err(e);
            },
        };
        let opening = match decode_scalar_at(b, 1) {
            Ok(x) => x,
            Err(e) => {
                return Err(e);
            },
        };
        let r = Proof { random_commit, opening };
        proof {
            assert forall|p: Proof| p.wf() && proof_encoding(p) == b@ implies r == p by {
                lemma_proof_parts(p, b@);
            }
        }
        Ok(r)
    }
}

/// The parts of a proof's encoding are the encodings of its fields.
pub proof fn lemma_proof_parts(p: Proof, b: Seq<u8>)
    requires
        proof_encoding(p) == b,
    ensures
        b.len() == 64 && b.subrange(0, 32) == compressed_encoding(p.random_commit@) && b.subrange(32, 64) == scalar_encoding(p.opening),
{
    lemma_le_bytes_len(if p.random_commit@.2 { 0 } else { p.random_commit@.0 }, 32);
    assert(b.subrange(0, 32) =~= compressed_encoding(p.random_commit@));
    assert(b.subrange(32, 64) =~= scalar_encoding(p.opening));
}

/// The Schnorr prover.
pub struct Prover;

impl Prover {
    /// Proves knowledge of `witness` for `statement = witness * pp`, with the
    /// nonce `random`.
    pub fn create_proof(
        pp: &Point,
        statement: &Point,
        witness: &Scalar,
        random: &Scalar,
        fs_rng: &mut FiatShamirRng,
    ) -> (r: Result<Proof, CryptoError>)
        requires
            pp.wf(),
            statement.wf(),
            witness.wf(),
            random.wf(),
        ensures
            r is Ok,
            ({
                let commit = g1_mul_of(pp@, random@);
                let t = schnorr_absorbed(old(fs_rng)@, pp@, statement@, commit);
                &&& r->Ok_0.wf()
                &&& r->Ok_0.random_commit@ == commit
                &&& r->Ok_0.opening@ == schnorr_opening(random@, fs_challenge(t), witness@)
                &&& final(fs_rng)@ == fs_squeeze(t)
            }),
    {
        let random_commit = pp.mul(random);
        fs_rng.absorb(label().as_slice());
        fs_rng.absorb(&pp.to_compressed());
        fs_rng.absorb(&statement.to_compressed());
        fs_rng.absorb(&random_commit.to_compressed());
        let c = fs_rng.squeeze_scalar();
        let opening = random.sub(&c.mul(witness));
        Ok(Proof { random_commit, opening })
    }
}

/// The Schnorr identification scheme.
pub struct SchnorrIdentification;

impl SchnorrIdentification {
    /// See [`Prover::create_proof`].
    pub fn prove(
        pp: &Point,
        statement: &Point,
        witness: &Scalar,
        random: &Scalar,
        fs_rng: &mut FiatShamirRng,
    ) -> (r: Result<Proof, CryptoError>)
        requires
            pp.wf(),
            statement.wf(),
            witness.wf(),
            random.wf(),
        ensures
            r is Ok,
            ({
                let commit = g1_mul_of(pp@, random@);
                let t = schnorr_absorbed(old(fs_rng)@, pp@, statement@, commit);
                &&& r->Ok_0.wf()
                &&& r->Ok_0.random_commit@ == commit
                &&& r->Ok_0.opening@ == schnorr_opening(random@, fs_challenge(t), witness@)
                &&& final(fs_rng)@ == fs_squeeze(t)
            }),
    {
        Prover::create_proof(pp, statement, witness, random, fs_rng)
    }

    /// See [`Proof::verify`].
    pub fn verify(pp: &Point, statement: &Point, proof: &Proof, fs_rng: &mut FiatShamirRng) -> (r: Result<(), CryptoError>)
        requires
            proof.wf(),
            pp.wf(),
            statement.wf(),
        ensures
            ({
                let t = schnorr_absorbed(old(fs_rng)@, pp@, statement@, proof.random_commit@);
                &&& final(fs_rng)@ == fs_squeeze(t)
                &&& (r is Ok <==> schnorr_equation(pp@, statement@, proof.random_commit@, proof.opening@, fs_challenge(t)))
            }),
            r is Err ==> is_rejection(r->Err_0, "Schnorr Identification"@),
    {
        proof.verify(pp, statement, fs_rng)
    }
}

/// Completeness: a proof made honestly for `X = x * g` is accepted by a
/// verifier whose transcript starts where the prover's did.
pub proof fn lemma_schnorr_complete(t: TranscriptView, g: PointView, x: int, w: int)
    requires
        group_laws(),
        valid_point(g),
        is_scalar(x),
        is_scalar(w),
    ensures
        ({
            let big_x = g1_mul_of(g, x);
            let commit = g1_mul_of(g, w);
            let c = fs_challenge(schnorr_absorbed(t, g, big_x, commit));
            schnorr_equation(g, big_x, commit, schnorr_opening(w, c, x), c)
        }),
{
    let commit = g1_mul_of(g, w);
    let c = fs_challenge(schnorr_absorbed(t, g, g1_mul_of(g, x), commit));
    lemma_sigma_difference(g, x, w, c);
}

/// Soundness against a wrong witness: a proof for `X = x * g` made with a
/// witness `x2` other than `x` is rejected, whenever the generator is not the
/// identity and the challenge is not zero.
pub proof fn lemma_schnorr_wrong_witness(t: TranscriptView, g: PointView, x: int, x2: int, w: int)
    requires
        group_laws(),
        valid_point(g),
        !g.2,
        is_scalar(x),
        is_scalar(x2),
        is_scalar(w),
        x != x2,
        fs_challenge(schnorr_absorbed(t, g, g1_mul_of(g, x), g1_mul_of(g, w))) != 0,
    ensures
        ({
            let big_x = g1_mul_of(g, x);
            let commit = g1_mul_of(g, w);
            let c = fs_challenge(schnorr_absorbed(t, g, big_x, commit));
            !schnorr_equation(g, big_x, commit, schnorr_opening(w, c, x2), c)
        }),
{
    let r = group_order();
    let big_x = g1_mul_of(g, x);
    let commit = g1_mul_of(g, w);
    let c = fs_challenge(schnorr_absorbed(t, g, big_x, commit));
    let k = (c * x) % r;
    let k2 = (c * x2) % r;
    let z2 = (w - k2) % r;
    reveal(group_laws);
    assert(is_scalar(c) && is_scalar(k) && is_scalar(k2) && is_scalar(z2));
    if schnorr_equation(g, big_x, commit, z2, c) {
        assert(x * c == c * x) by (nonlinear_arith);
        assert(g1_mul_of(g1_mul_of(g, x), c) == g1_mul_of(g, k));
        assert(g1_add_of(g1_mul_of(g, z2), g1_mul_of(g, k)) == g1_mul_of(g, (z2 + k) % r));
        assert(is_scalar((z2 + k) % r));
        lemma_mul_injective(g, (z2 + k) % r, w);
        lemma_add_mod_noop(w - k2, k, r);
        lemma_small_mod(k as nat, r as nat);
        lemma_small_mod(w as nat, r as nat);
        assert((w - k2 + k) % r == w % r);
        lemma_mod_equivalence(w - k2 + k, w, r);
        lemma_mod_equivalence(k, k2, r);
        lemma_small_mod(k2 as nat, r as nat);
        assert(k == k2);
        lemma_challenge_separates(g, x, x2, c);
    }
}

} // verus!
