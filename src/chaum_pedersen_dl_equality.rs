//! Chaum–Pedersen proof of discrete-logarithm equality: knowledge of `w`
//! with `X = w * g` and `Y = w * h`.
//!
//! Absorption schedule: the label `chaum_pedersen`, then `g`, `h`, `X`, `Y`,
//! and the prover's commitments `A = v * g` and `B = v * h`, each compressed;
//! then one challenge `c` is squeezed. The prover answers `r = v + c * w`; the
//! verifier accepts when `r * g = A + c * X` and `r * h = B + c * Y`.
use crate::algebra::{group_laws, is_scalar, lemma_sigma_sum, lemma_sigma_sum_wrong_witness};
use crate::encoding::{
    append_bytes, compressed_encoding, decode_point_at, decode_scalar_at, lemma_le_bytes_len, scalar_encoding,
};
use crate::error::{is_rejection, rejection, CryptoError};
use crate::field::{group_order, Scalar};
use crate::group::{g1_add_of, g1_mul_of, valid_point, Point, PointView};
use crate::transcript::{fs_absorb, fs_challenge, fs_squeeze, FiatShamirRng, TranscriptView};
use vstd::prelude::*;

verus! {

/// The bytes of the label `chaum_pedersen`.
pub open spec fn chaum_pedersen_label() -> Seq<u8> {
    seq![99u8, 104, 97, 117, 109, 95, 112, 101, 100, 101, 114, 115, 101, 110]
}

fn label() -> (r: Vec<u8>)
    ensures
        r@ == chaum_pedersen_label(),
{
    let r = vec![99u8, 104, 97, 117, 109, 95, 112, 101, 100, 101, 114, 115, 101, 110];
    assert(r@ =~= chaum_pedersen_label());
    r
}

/// The two bases `g` and `h`.
#[derive(Clone, Copy, Debug, PartialEq, Eq)]
pub struct Parameters {
    pub g: Point,
    pub h: Point,
}

impl Parameters {
    pub fn new(g: &Point, h: &Point) -> (r: Parameters)
        ensures
            r == (Parameters { g: *g, h: *h }),
    {
        Parameters { g: *g, h: *h }
    }

    pub open spec fn wf(&self) -> bool {
        self.g.wf() && self.h.wf()
    }
}

/// The two points `X` and `Y` said to share a discrete logarithm.
#[derive(Clone, Copy, Debug, PartialEq, Eq)]
pub struct Statement(pub Point, pub Point);

impl Statement {
    pub fn new(x: &Point, y: &Point) -> (r: Statement)
        ensures
            r == Statement(*x, *y),
    {
        Statement(*x, *y)
    }

    pub open spec fn wf(&self) -> bool {
        self.0.wf() && self.1.wf()
    }
}

/// The transcript once the label, the bases, the statement and the prover's
/// commitments are absorbed.
pub open spec fn chaum_pedersen_absorbed(
    t: TranscriptView,
    g: PointView,
    h: PointView,
    x: PointView,
    y: PointView,
    a: PointView,
    b: PointView,
) -> TranscriptView {
    let t1 = fs_absorb(fs_absorb(fs_absorb(t, chaum_pedersen_label()), compressed_encoding(g)), compressed_encoding(h));
    let t2 = fs_absorb(fs_absorb(t1, compressed_encoding(x)), compressed_encoding(y));
    fs_absorb(fs_absorb(t2, compressed_encoding(a)), compressed_encoding(b))
}

/// The two verification equations `r * g = A + c * X` and `r * h = B + c * Y`.
pub open spec fn chaum_pedersen_equations(
    g: PointView,
    h: PointView,
    x: PointView,
    y: PointView,
    a: PointView,
    b: PointView,
    r: int,
    c: int,
) -> bool {
    &&& g1_mul_of(g, r) == g1_add_of(a, g1_mul_of(x, c))
    &&& g1_mul_of(h, r) == g1_add_of(b, g1_mul_of(y, c))
}

/// The prover's answer `r = v + c * w`.
pub open spec fn chaum_pedersen_answer(v: int, c: int, w: int) -> int {
    (v + (c * w) % group_order()) % group_order()
}

/// A Chaum–Pedersen proof: the commitments `A`, `B` and the answer `r`.
#[derive(Clone, Copy, Debug, PartialEq, Eq)]
pub struct Proof {
    pub a: Point,
    pub b: Point,
    pub r: Scalar,
}

impl Proof {
    pub open spec fn wf(&self) -> bool {
        self.a.wf() && self.b.wf() && self.r.wf()
    }

    /// Checks the proof against the bases and the statement.
    pub fn verify(&self, parameters: &Parameters, statement: &Statement, fs_rng: &mut FiatShamirRng) -> (r: Result<
        (),
        CryptoError,
    >)
        requires
            self.wf(),
            parameters.wf(),
            statement.wf(),
        ensures
            ({
                let t = chaum_pedersen_absorbed(
                    old(fs_rng)@,
                    parameters.g@,
                    parameters.h@,
                    statement.0@,
                    statement.1@,
                    self.a@,
                    self.b@,
                );
                &&& final(fs_rng)@ == fs_squeeze(t)
                &&& (r is Ok <==> chaum_pedersen_equations(
                    parameters.g@,
                    parameters.h@,
                    statement.0@,
                    statement.1@,
                    self.a@,
                    self.b@,
                    self.r@,
                    fs_challenge(t),
                ))
            }),
            r is Err ==> is_rejection(r->Err_0, "Chaum-Pedersen"@),
    {
        fs_rng.absorb(label().as_slice());
        fs_rng.absorb(&parameters.g.to_compressed());
        fs_rng.absorb(&parameters.h.to_compressed());
        fs_rng.absorb(&statement.0.to_compressed());
        fs_rng.absorb(&statement.1.to_compressed());
        fs_rng.absorb(&self.a.to_compressed());
        fs_rng.absorb(&self.b.to_compressed());
        let c = fs_rng.squeeze_scalar();
        if !parameters.g.mul(&self.r).equals(&self.a.add(&statement.0.mul(&c))) {
            return Err(rejection("Chaum-Pedersen"));
        }
        if !parameters.h.mul(&self.r).equals(&self.b.add(&statement.1.mul(&c))) {
            return Err(rejection("Chaum-Pedersen"));
        }
        Ok(())
    }
}

/// The encoding of a proof: the compressed `a`, then the compressed `b`, then the 32 bytes of `r`.
pub open spec fn proof_encoding(p: Proof) -> Seq<u8> {
    compressed_encoding(p.a@) + compressed_encoding(p.b@) + scalar_encoding(p.r)
}

impl Proof {
    /// The encoding.
    pub fn to_bytes(&self) -> (r: Vec<u8>)
        requires
            self.wf(),
        ensures
            r@ == proof_encoding(*self),
    {
        let mut r: Vec<u8> = Vec::new();
        append_bytes(&mut r, &self.a.to_compressed());
        append_bytes(&mut r, &self.b.to_compressed());
        append_bytes(&mut r, &self.r.to_bytes());
        r
    }

    /// The size of the encoding.
    pub fn serialized_size(&self) -> (r: usize)
        ensures
            r == proof_encoding(*self).len(),
    {
        proof {
            lemma_le_bytes_len(if self.a@.2 { 0 } else { self.a@.0 }, 32);
            lemma_le_bytes_len(if self.b@.2 { 0 } else { self.b@.0 }, 32);
        }
        96
    }

    /// Decodes an encoding; the encoding of a proof gives it back.
    pub fn from_bytes(bytes: &[u8]) -> (r: Result<Proof, CryptoError>)
        ensures
            r is Ok ==> r->Ok_0.wf(),
            r is Err ==> r == Err::<Proof, CryptoError>(CryptoError::SerializationError),
            forall|p: Proof| p.wf() && proof_encoding(p) == bytes@ ==> r == Ok::<Proof, CryptoError>(p),
    {
        proof {
            assert forall|p: Proof| p.wf() && proof_encoding(p) == bytes@ implies bytes@.len() == 96 && bytes@.subrange(0, 32) == compressed_encoding(p.a@) && bytes@.subrange(32, 64) == compressed_encoding(p.b@) && bytes@.subrange(64, 96) == scalar_encoding(p.r) by {
                lemma_proof_parts(p, bytes@);
            }
        }
        if bytes.len() != 96 {
            return Err(CryptoError::SerializationError);
        }
        let a = match decode_point_at(bytes, 0) {
            Ok(x) => x,
            Err(e) => {
                return Err(e);
            },
        };
        let b = match decode_point_at(bytes, 1) {
            Ok(x) => x,
            Err(e) => {
                return Err(e);
            },
        };
        let r = match decode_scalar_at(bytes, 2) {
            Ok(x) => x,
            Err(e) => {
                return Err(e);
            },
        };
        let r = Proof { a, b, r };
        proof {
            assert forall|p: Proof| p.wf() && proof_encoding(p) == bytes@ implies r == p by {
                lemma_proof_parts(p, bytes@);
            }
        }
        Ok(r)
    }
}

/// The parts of a proof's encoding are the encodings of its fields.
pub proof fn lemma_proof_parts(p: Proof, bytes: Seq<u8>)
    requires
        proof_encoding(p) == bytes,
    ensures
        bytes.len() == 96 && bytes.subrange(0, 32) == compressed_encoding(p.a@) && bytes.subrange(32, 64) == compressed_encoding(p.b@) && bytes.subrange(64, 96) == scalar_encoding(p.r),
{
    lemma_le_bytes_len(if p.a@.2 { 0 } else { p.a@.0 }, 32);
    lemma_le_bytes_len(if p.b@.2 { 0 } else { p.b@.0 }, 32);
    assert(bytes.subrange(0, 32) =~= compressed_encoding(p.a@));
    assert(bytes.subrange(32, 64) =~= compressed_encoding(p.b@));
    assert(bytes.subrange(64, 96) =~= scalar_encoding(p.r));
}

/// The Chaum–Pedersen prover.
pub struct Prover;

impl Prover {
    /// Proves that `statement` shares the discrete logarithm `witness` under the
    /// two bases, with the nonce `omega`.
    pub fn create_proof(
        parameters: &Parameters,
        statement: &Statement,
        witness: &Scalar,
        omega: &Scalar,
        fs_rng: &mut FiatShamirRng,
    ) -> (r: Result<Proof, CryptoError>)
        requires
            parameters.wf(),
            statement.wf(),
            witness.wf(),
            omega.wf(),
        ensures
            r is Ok,
            ({
                let a = g1_mul_of(parameters.g@, omega@);
                let b = g1_mul_of(parameters.h@, omega@);
                let t = chaum_pedersen_absorbed(
                    old(fs_rng)@,
                    parameters.g@,
                    parameters.h@,
                    statement.0@,
                    statement.1@,
                    a,
                    b,
                );
                &&& r->Ok_0.wf()
                &&& r->Ok_0.a@ == a
                &&& r->Ok_0.b@ == b
                &&& r->Ok_0.r@ == chaum_pedersen_answer(omega@, fs_challenge(t), witness@)
                &&& final(fs_rng)@ == fs_squeeze(t)
            }),
    {
        fs_rng.absorb(label().as_slice());
        fs_rng.absorb(&parameters.g.to_compressed());
        fs_rng.absorb(&parameters.h.to_compressed());
        fs_rng.absorb(&statement.0.to_compressed());
        fs_rng.absorb(&statement.1.to_compressed());
        let a = parameters.g.mul(omega);
        let b = parameters.h.mul(omega);
        fs_rng.absorb(&a.to_compressed());
        fs_rng.absorb(&b.to_compressed());
        let c = fs_rng.squeeze_scalar();
        let r = omega.add(&c.mul(witness));
        Ok(Proof { a, b, r })
    }
}

/// The Chaum–Pedersen argument.
pub struct DLEquality;

impl DLEquality {
    /// See [`Prover::create_proof`].
    pub fn prove(
        parameters: &Parameters,
        statement: &Statement,
        witness: &Scalar,
        omega: &Scalar,
        fs_rng: &mut FiatShamirRng,
    ) -> (r: Result<Proof, CryptoError>)
        requires
            parameters.wf(),
            statement.wf(),
            witness.wf(),
            omega.wf(),
        ensures
            r is Ok,
            ({
                let a = g1_mul_of(parameters.g@, omega@);
                let b = g1_mul_of(parameters.h@, omega@);
                let t = chaum_pedersen_absorbed(
                    old(fs_rng)@,
                    parameters.g@,
                    parameters.h@,
                    statement.0@,
                    statement.1@,
                    a,
                    b,
                );
                &&& r->Ok_0.wf()
                &&& r->Ok_0.a@ == a
                &&& r->Ok_0.b@ == b
                &&& r->Ok_0.r@ == chaum_pedersen_answer(omega@, fs_challenge(t), witness@)
                &&& final(fs_rng)@ == fs_squeeze(t)
            }),
    {
        Prover::create_proof(parameters, statement, witness, omega, fs_rng)
    }

    /// See [`Proof::verify`].
    pub fn verify(parameters: &Parameters, statement: &Statement, proof: &Proof, fs_rng: &mut FiatShamirRng) -> (r:
        Result<(), CryptoError>)
        requires
            proof.wf(),
            parameters.wf(),
            statement.wf(),
        ensures
            ({
                let t = chaum_pedersen_absorbed(
                    old(fs_rng)@,
                    parameters.g@,
                    parameters.h@,
                    statement.0@,
                    statement.1@,
                    proof.a@,
                    proof.b@,
                );
                &&& final(fs_rng)@ == fs_squeeze(t)
                &&& (r is Ok <==> chaum_pedersen_equations(
                    parameters.g@,
                    parameters.h@,
                    statement.0@,
                    statement.1@,
                    proof.a@,
                    proof.b@,
                    proof.r@,
                    fs_challenge(t),
                ))
            }),
            r is Err ==> is_rejection(r->Err_0, "Chaum-Pedersen"@),
    {
        proof.verify(parameters, statement, fs_rng)
    }
}

/// Completeness: a proof made honestly for `X = w * g`, `Y = w * h` is
/// accepted by a verifier whose transcript starts where the prover's did.
pub proof fn lemma_chaum_pedersen_complete(t: TranscriptView, g: PointView, h: PointView, w: int, v: int)
    requires
        group_laws(),
        valid_point(g),
        valid_point(h),
        is_scalar(w),
        is_scalar(v),
    ensures
        ({
            let (x, y) = (g1_mul_of(g, w), g1_mul_of(h, w));
            let (a, b) = (g1_mul_of(g, v), g1_mul_of(h, v));
            let c = fs_challenge(chaum_pedersen_absorbed(t, g, h, x, y, a, b));
            chaum_pedersen_equations(g, h, x, y, a, b, chaum_pedersen_answer(v, c, w), c)
        }),
{
    let c = fs_challenge(
        chaum_pedersen_absorbed(t, g, h, g1_mul_of(g, w), g1_mul_of(h, w), g1_mul_of(g, v), g1_mul_of(h, v)),
    );
    lemma_sigma_sum(g, w, v, c);
    lemma_sigma_sum(h, w, v, c);
}

/// Soundness against a wrong witness: a proof for `X = w * g`, `Y = w * h`
/// made with a witness `w2` other than `w` is rejected, whenever `g` is not
/// the identity and the challenge is not zero.
pub proof fn lemma_chaum_pedersen_wrong_witness(
    t: TranscriptView,
    g: PointView,
    h: PointView,
    w: int,
    w2: int,
    v: int,
)
    requires
        group_laws(),
        valid_point(g),
        valid_point(h),
        !g.2,
        is_scalar(w),
        is_scalar(w2),
        is_scalar(v),
        w != w2,
        fs_challenge(
            chaum_pedersen_absorbed(t, g, h, g1_mul_of(g, w), g1_mul_of(h, w), g1_mul_of(g, v), g1_mul_of(h, v)),
        ) != 0,
    ensures
        ({
            let (x, y) = (g1_mul_of(g, w), g1_mul_of(h, w));
            let (a, b) = (g1_mul_of(g, v), g1_mul_of(h, v));
            let c = fs_challenge(chaum_pedersen_absorbed(t, g, h, x, y, a, b));
            !chaum_pedersen_equations(g, h, x, y, a, b, chaum_pedersen_answer(v, c, w2), c)
        }),
{
    let c = fs_challenge(
        chaum_pedersen_absorbed(t, g, h, g1_mul_of(g, w), g1_mul_of(h, w), g1_mul_of(g, v), g1_mul_of(h, v)),
    );
    lemma_sigma_sum_wrong_witness(g, w, w2, v, c);
}

} // verus!
