//! The Barnett–Smart card protocol over discrete-logarithm ElGamal: player
//! keys with proofs of ownership, the aggregate key, masking and remasking of
//! cards with Chaum–Pedersen proofs, and the reveal tokens that open a card.
//!
//! Each proof runs on a fresh transcript seeded with the step's label; key
//! ownership also binds the generator, the key and the player's label.
use crate::algebra::{
    group_laws, is_scalar, lemma_add_commutes, lemma_add_identity, lemma_add_then_sub, lemma_challenge_separates, lemma_mul_identity,
    lemma_mul_injective, lemma_mul_valid, lemma_share_step, lemma_sub_changes,
};
use crate::chaum_pedersen_dl_equality::{
    chaum_pedersen_absorbed, chaum_pedersen_answer, chaum_pedersen_equations, lemma_chaum_pedersen_complete, DLEquality, Parameters as CpParameters, Proof as CpProof,
    Statement,
};
use crate::el_gamal::{encryption, sum_points, Ciphertext, ElGamal, Parameters as ElGamalParameters, Plaintext};
use crate::encoding::{
    append_bytes, compressed_encoding, lemma_le_bytes_len, sub_slice, u32_from_le_at, u32_le, u32_to_le,
};
use crate::error::{is_rejection, CardProtocolError, CryptoError};
use crate::field::Scalar;
use crate::group::{g1_add_of, g1_mul_of, identity_view, neg_view, valid_point, Point, PointView};
use crate::pedersen::{commit_key_encoding, CommitKey};
use crate::schnorr_identification::{
    schnorr_absorbed, schnorr_equation, Proof as SchnorrProof, SchnorrIdentification,
};
use crate::transcript::{fs_challenge, fs_init, FiatShamirRng};
use vstd::prelude::*;

verus! {

/// The public parameters of a game: the deck shape `m x n`, the ElGamal
/// generator and the commit key.
#[derive(Clone, Debug)]
pub struct Parameters {
    pub m: usize,
    pub n: usize,
    pub enc_parameters: ElGamalParameters,
    pub commit_parameters: CommitKey,
}

impl Parameters {
    pub open spec fn wf(&self) -> bool {
        self.enc_parameters.wf() && self.commit_parameters.wf()
    }

    pub open spec fn generator(&self) -> PointView {
        self.enc_parameters.generator@
    }
}

/// The encoding of the parameters: `m` and `n` as `u32`, the compressed
/// generator, then the commit key.
pub open spec fn parameters_encoding(pp: Parameters) -> Seq<u8> {
    u32_le(pp.m as u32) + u32_le(pp.n as u32) + compressed_encoding(pp.enc_parameters.generator@)
        + commit_key_encoding(pp.commit_parameters)
}

impl Parameters {
    /// The encoding.
    pub fn to_bytes(&self) -> (r: Vec<u8>)
        requires
            self.wf(),
        ensures
            r@ == parameters_encoding(*self),
    {
        let mut r: Vec<u8> = Vec::new();
        append_bytes(&mut r, &u32_to_le(self.m as u32));
        append_bytes(&mut r, &u32_to_le(self.n as u32));
        append_bytes(&mut r, &self.enc_parameters.to_bytes());
        append_bytes(&mut r, self.commit_parameters.to_bytes().as_slice());
        r
    }

    /// Decodes an encoding; the encoding of parameters whose shape fits in
    /// `u32` gives them back.
    pub fn from_bytes(b: &[u8]) -> (r: Result<Parameters, CryptoError>)
        ensures
            r is Ok ==> r->Ok_0.wf(),
            r is Err ==> r == Err::<Parameters, CryptoError>(CryptoError::SerializationError),
            forall|pp: Parameters|
                pp.wf() && pp.m < 4294967296 && pp.n < 4294967296 && pp.commit_parameters.g.len() < 4294967296
                    && parameters_encoding(pp) == b@ ==> r is Ok && r->Ok_0.m == pp.m && r->Ok_0.n == pp.n
                    && r->Ok_0.enc_parameters == pp.enc_parameters && r->Ok_0.commit_parameters.g@
                    == pp.commit_parameters.g@ && r->Ok_0.commit_parameters.h == pp.commit_parameters.h,
    {
        proof {
            assert forall|pp: Parameters|
                pp.wf() && pp.m < 4294967296 && pp.n < 4294967296 && pp.commit_parameters.g.len() < 4294967296
                    && parameters_encoding(pp) == b@ implies b@.len() >= 40 && b@.subrange(0, 4) == u32_le(
                pp.m as u32,
            ) && b@.subrange(4, 8) == u32_le(pp.n as u32) && b@.subrange(8, 40) == compressed_encoding(
                pp.enc_parameters.generator@,
            ) && b@.subrange(40, b@.len() as int) == commit_key_encoding(pp.commit_parameters) by {
                let g = pp.enc_parameters.generator@;
                lemma_le_bytes_len(if g.2 { 0 } else { g.0 }, 32);
                assert(b@.subrange(0, 4) =~= u32_le(pp.m as u32));
                assert(b@.subrange(4, 8) =~= u32_le(pp.n as u32));
                assert(b@.subrange(8, 40) =~= compressed_encoding(g));
                assert(b@.subrange(40, b@.len() as int) =~= commit_key_encoding(pp.commit_parameters));
            }
        }
        if b.len() < 40 {
            return Err(CryptoError::SerializationError);
        }
        let m = u32_from_le_at(b, 0) as usize;
        let n = u32_from_le_at(b, 4) as usize;
        let enc_parameters = match ElGamalParameters::from_bytes(sub_slice(b, 8, 40)) {
            Ok(p) => p,
            Err(e) => {
                return Err(e);
            },
        };
        let commit_parameters = match CommitKey::from_bytes(sub_slice(b, 40, b.len())) {
            Ok(k) => k,
            Err(e) => {
                return Err(e);
            },
        };
        Ok(Parameters { m, n, enc_parameters, commit_parameters })
    }
}

pub open spec fn key_ownership_label() -> Seq<u8> {
    seq![107u8, 101, 121, 95, 111, 119, 110, 101, 114, 115, 104, 105, 112]
}

pub open spec fn mask_label() -> Seq<u8> {
    seq![109u8, 97, 115, 107]
}

pub open spec fn remask_label() -> Seq<u8> {
    seq![114u8, 101, 109, 97, 115, 107]
}

pub open spec fn reveal_label() -> Seq<u8> {
    seq![114u8, 101, 118, 101, 97, 108]
}

/// The seed of the key-ownership transcript: the label `key_ownership`, the
/// generator, the key and the player's label.
pub open spec fn key_ownership_seed(g: PointView, pk: PointView, info: Seq<u8>) -> Seq<u8> {
    key_ownership_label() + compressed_encoding(g) + compressed_encoding(pk) + info
}

/// The Schnorr proof `proof` of the key `pk` for the player labelled `info` is accepted.
pub open spec fn key_ownership_accepts(g: PointView, pk: PointView, info: Seq<u8>, proof: SchnorrProof) -> bool {
    let t = schnorr_absorbed(fs_init(key_ownership_seed(g, pk, info)), g, pk, proof.random_commit@);
    schnorr_equation(g, pk, proof.random_commit@, proof.opening@, fs_challenge(t))
}

/// The Chaum–Pedersen proof `proof` that `(x, y)` share a logarithm under the
/// bases `(g, h)` is accepted on a transcript seeded with `seed`.
pub open spec fn dl_equality_accepts(
    seed: Seq<u8>,
    g: PointView,
    h: PointView,
    x: PointView,
    y: PointView,
    proof: CpProof,
) -> bool {
    let t = chaum_pedersen_absorbed(fs_init(seed), g, h, x, y, proof.a@, proof.b@);
    chaum_pedersen_equations(g, h, x, y, proof.a@, proof.b@, proof.r@, fs_challenge(t))
}

/// `a - b`.
pub open spec fn difference(a: PointView, b: PointView) -> PointView {
    g1_add_of(a, neg_view(b))
}

/// The masking proof of `masked` as a masking of `card` under `pk`: `(u, v - C)`
/// share a logarithm under `(G, pk)`.
pub open spec fn mask_accepts(g: PointView, pk: PointView, card: PointView, masked: Ciphertext, proof: CpProof) -> bool {
    dl_equality_accepts(mask_label(), g, pk, masked.0@, difference(masked.1@, card), proof)
}

/// The remasking proof: `(u' - u, v' - v)` share a logarithm under `(G, pk)`.
pub open spec fn remask_accepts(g: PointView, pk: PointView, old: Ciphertext, new: Ciphertext, proof: CpProof) -> bool {
    dl_equality_accepts(remask_label(), g, pk, difference(new.0@, old.0@), difference(new.1@, old.1@), proof)
}

/// The reveal proof: `(T, pk)` share a logarithm under `(u, G)`.
pub open spec fn reveal_accepts(g: PointView, pk: PointView, token: PointView, masked: Ciphertext, proof: CpProof) -> bool {
    dl_equality_accepts(reveal_label(), masked.0@, g, token, pk, proof)
}

fn key_ownership_label_bytes() -> (r: Vec<u8>)
    ensures
        r@ == key_ownership_label(),
{
    let r = vec![107u8, 101, 121, 95, 111, 119, 110, 101, 114, 115, 104, 105, 112];
    assert(r@ =~= key_ownership_label());
    r
}

/// A fresh transcript seeded with the label `mask`.
fn mask_transcript() -> (r: FiatShamirRng)
    ensures
        r@ == fs_init(mask_label()),
{
    let label = vec![109u8, 97, 115, 107];
    assert(label@ =~= mask_label());
    FiatShamirRng::from_seed(label.as_slice())
}

/// A fresh transcript seeded with the label `remask`.
fn remask_transcript() -> (r: FiatShamirRng)
    ensures
        r@ == fs_init(remask_label()),
{
    let label = vec![114u8, 101, 109, 97, 115, 107];
    assert(label@ =~= remask_label());
    FiatShamirRng::from_seed(label.as_slice())
}

/// A fresh transcript seeded with the label `reveal`.
fn reveal_transcript() -> (r: FiatShamirRng)
    ensures
        r@ == fs_init(reveal_label()),
{
    let label = vec![114u8, 101, 118, 101, 97, 108];
    assert(label@ =~= reveal_label());
    FiatShamirRng::from_seed(label.as_slice())
}

fn key_ownership_transcript(g: &Point, pk: &Point, info: &[u8]) -> (r: FiatShamirRng)
    requires
        g.wf(),
        pk.wf(),
    ensures
        r@ == fs_init(key_ownership_seed(g@, pk@, info@)),
{
    let mut seed = key_ownership_label_bytes();
    append_bytes(&mut seed, &g.to_compressed());
    append_bytes(&mut seed, &pk.to_compressed());
    append_bytes(&mut seed, info);
    FiatShamirRng::from_seed(seed.as_slice())
}

/// The card protocol.
pub struct DLCards;

impl DLCards {
    /// The parameters of a game with deck shape `m x n`.
    pub fn setup(m: usize, n: usize, generator: &Point, commit_key: CommitKey) -> (r: Result<Parameters, CardProtocolError>)
        ensures
            r is Ok,
            r->Ok_0.m == m,
            r->Ok_0.n == n,
            r->Ok_0.enc_parameters.generator == *generator,
            r->Ok_0.commit_parameters.g@ == commit_key.g@,
            r->Ok_0.commit_parameters.h == commit_key.h,
    {
        Ok(Parameters { m, n, enc_parameters: ElGamalParameters { generator: *generator }, commit_parameters: commit_key })
    }

    /// The key pair `(sk * G, sk)`.
    pub fn player_keygen(pp: &Parameters, secret_key: &Scalar) -> (r: Result<(Point, Scalar), CardProtocolError>)
        requires
            pp.wf(),
            secret_key.wf(),
        ensures
            r is Ok,
            r->Ok_0.0.wf(),
            r->Ok_0.0@ == g1_mul_of(pp.generator(), secret_key@),
            r->Ok_0.1 == *secret_key,
    {
        match ElGamal::keygen(&pp.enc_parameters, secret_key) {
            Ok(k) => Ok(k),
            Err(e) => Err(CardProtocolError::ProofVerificationError(e)),
        }
    }

    /// A Schnorr proof that the player labelled `player_public_info` knows `sk`
    /// with `pk = sk * G`, with the nonce `omega`.
    pub fn prove_key_ownership(
        pp: &Parameters,
        pk: &Point,
        sk: &Scalar,
        player_public_info: &[u8],
        omega: &Scalar,
    ) -> (r: Result<SchnorrProof, CryptoError>)
        requires
            pp.wf(),
            pk.wf(),
            sk.wf(),
            omega.wf(),
        ensures
            r is Ok,
            r->Ok_0.wf(),
            ({
                let g = pp.generator();
                let commit = g1_mul_of(g, omega@);
                let t = schnorr_absorbed(fs_init(key_ownership_seed(g, pk@, player_public_info@)), g, pk@, commit);
                &&& r->Ok_0.random_commit@ == commit
                &&& r->Ok_0.opening@ == crate::schnorr_identification::schnorr_opening(omega@, fs_challenge(t), sk@)
            }),
    {
        let g = pp.enc_parameters.generator;
        let mut fs_rng = key_ownership_transcript(&g, pk, player_public_info);
        SchnorrIdentification::prove(&g, pk, sk, omega, &mut fs_rng)
    }

    /// Checks a key-ownership proof.
    pub fn verify_key_ownership(pp: &Parameters, pk: &Point, player_public_info: &[u8], proof: &SchnorrProof) -> (r:
        Result<(), CryptoError>)
        requires
            pp.wf(),
            pk.wf(),
            proof.wf(),
        ensures
            r is Ok <==> key_ownership_accepts(pp.generator(), pk@, player_public_info@, *proof),
            r is Err ==> is_rejection(r->Err_0, "Schnorr Identification"@),
    {
        let g = pp.enc_parameters.generator;
        let mut fs_rng = key_ownership_transcript(&g, pk, player_public_info);
        SchnorrIdentification::verify(&g, pk, proof, &mut fs_rng)
    }

    /// The sum of the players' keys, once every key-ownership proof is checked;
    /// the first proof that fails stops it with its error.
    pub fn compute_aggregate_key(pp: &Parameters, player_keys_proof_info: &Vec<(Point, SchnorrProof, Vec<u8>)>) -> (r:
        Result<Point, CardProtocolError>)
        requires
            pp.wf(),
            forall|i: int|
                0 <= i < player_keys_proof_info.len() ==> (#[trigger] player_keys_proof_info[i]).0.wf()
                    && player_keys_proof_info[i].1.wf(),
        ensures
            r is Ok <==> forall|i: int|
                0 <= i < player_keys_proof_info.len() ==> key_ownership_accepts(
                    pp.generator(),
                    (#[trigger] player_keys_proof_info[i]).0@,
                    player_keys_proof_info[i].2@,
                    player_keys_proof_info[i].1,
                ),
            r is Ok ==> r->Ok_0.wf() && r->Ok_0@ == sum_points(
                player_keys_proof_info@.map_values(|k: (Point, SchnorrProof, Vec<u8>)| k.0@),
            ),
            r is Err ==> (r->Err_0 matches CardProtocolError::ProofVerificationError(e) && is_rejection(
                e,
                "Schnorr Identification"@,
            )),
    {
        let mut acc = Point::identity();
        let mut i: usize = 0;
        while i < player_keys_proof_info.len()
            invariant
                0 <= i <= player_keys_proof_info.len(),
                pp.wf(),
                forall|j: int|
                    0 <= j < player_keys_proof_info.len() ==> (#[trigger] player_keys_proof_info[j]).0.wf()
                        && player_keys_proof_info[j].1.wf(),
                forall|j: int|
                    0 <= j < i ==> key_ownership_accepts(
                        pp.generator(),
                        (#[trigger] player_keys_proof_info[j]).0@,
                        player_keys_proof_info[j].2@,
                        player_keys_proof_info[j].1,
                    ),
                acc.wf(),
                acc@ == sum_points(
                    player_keys_proof_info@.subrange(0, i as int).map_values(
                        |k: (Point, SchnorrProof, Vec<u8>)| k.0@,
                    ),
                ),
            decreases player_keys_proof_info.len() - i,
        {
            let entry = &player_keys_proof_info[i];
            match Self::verify_key_ownership(pp, &entry.0, entry.2.as_slice(), &entry.1) {
                Ok(()) => {},
                Err(e) => {
                    return Err(CardProtocolError::ProofVerificationError(e));
                },
            }
            let ghost prev = player_keys_proof_info@.subrange(0, i as int).map_values(
                |k: (Point, SchnorrProof, Vec<u8>)| k.0@,
            );
            acc = acc.add(&entry.0);
            proof {
                let s = player_keys_proof_info@.subrange(0, i + 1).map_values(
                    |k: (Point, SchnorrProof, Vec<u8>)| k.0@,
                );
                assert(s.drop_last() =~= prev);
                assert(s.last() == player_keys_proof_info@[i as int].0@);
            }
            i = i + 1;
        }
        assert(player_keys_proof_info@.subrange(0, player_keys_proof_info.len() as int) =~= player_keys_proof_info@);
        Ok(acc)
    }

    /// Masks a card under the shared key with randomness `alpha`, and proves it
    /// with the nonce `omega`.
    pub fn mask(pp: &Parameters, shared_key: &Point, original_card: &Plaintext, alpha: &Scalar, omega: &Scalar) -> (r:
        Result<(Ciphertext, CpProof), CryptoError>)
        requires
            pp.wf(),
            shared_key.wf(),
            original_card.wf(),
            alpha.wf(),
            omega.wf(),
        ensures
            r is Ok,
            r->Ok_0.0.wf() && r->Ok_0.1.wf(),
            (r->Ok_0.0.0@, r->Ok_0.0.1@) == encryption(pp.generator(), shared_key@, original_card.0@, alpha@),
            r->Ok_0.1.a@ == g1_mul_of(pp.generator(), omega@),
            r->Ok_0.1.b@ == g1_mul_of(shared_key@, omega@),
            r->Ok_0.1.r@ == chaum_pedersen_answer(
                omega@,
                fs_challenge(
                    chaum_pedersen_absorbed(
                        fs_init(mask_label()),
                        pp.generator(),
                        shared_key@,
                        r->Ok_0.0.0@,
                        difference(r->Ok_0.0.1@, original_card.0@),
                        r->Ok_0.1.a@,
                        r->Ok_0.1.b@,
                    ),
                ),
                alpha@,
            ),
    {
        let masked = match ElGamal::encrypt(&pp.enc_parameters, shared_key, original_card, alpha) {
            Ok(c) => c,
            Err(e) => {
                return Err(e);
            },
        };
        let parameters = CpParameters::new(&pp.enc_parameters.generator, shared_key);
        let statement = Statement::new(&masked.0, &masked.1.add(&original_card.0.neg()));
        let mut fs_rng = mask_transcript();
        let proof = match DLEquality::prove(&parameters, &statement, alpha, omega, &mut fs_rng) {
            Ok(p) => p,
            Err(e) => {
                return Err(e);
            },
        };
        Ok((masked, proof))
    }

    /// Checks that `masked_card` masks `card` under the shared key.
    pub fn verify_mask(
        pp: &Parameters,
        shared_key: &Point,
        card: &Plaintext,
        masked_card: &Ciphertext,
        proof: &CpProof,
    ) -> (r: Result<(), CryptoError>)
        requires
            pp.wf(),
            shared_key.wf(),
            card.wf(),
            masked_card.wf(),
            proof.wf(),
        ensures
            r is Ok <==> mask_accepts(pp.generator(), shared_key@, card.0@, *masked_card, *proof),
            r is Err ==> is_rejection(r->Err_0, "Chaum-Pedersen"@),
    {
        let parameters = CpParameters::new(&pp.enc_parameters.generator, shared_key);
        let statement = Statement::new(&masked_card.0, &masked_card.1.add(&card.0.neg()));
        let mut fs_rng = mask_transcript();
        DLEquality::verify(&parameters, &statement, proof, &mut fs_rng)
    }

    /// Remasks a masked card: adds an encryption of the identity with
    /// randomness `alpha`, and proves it with the nonce `omega`.
    pub fn remask(
        pp: &Parameters,
        shared_key: &Point,
        original_masked: &Ciphertext,
        alpha: &Scalar,
        omega: &Scalar,
    ) -> (r: Result<(Ciphertext, CpProof), CryptoError>)
        requires
            pp.wf(),
            shared_key.wf(),
            original_masked.wf(),
            alpha.wf(),
            omega.wf(),
        ensures
            r is Ok,
            r->Ok_0.0.wf() && r->Ok_0.1.wf(),
            ({
                let z = encryption(pp.generator(), shared_key@, identity_view(), alpha@);
                &&& r->Ok_0.0.0@ == g1_add_of(original_masked.0@, z.0)
                &&& r->Ok_0.0.1@ == g1_add_of(original_masked.1@, z.1)
            }),
            r->Ok_0.1.a@ == g1_mul_of(pp.generator(), omega@),
            r->Ok_0.1.b@ == g1_mul_of(shared_key@, omega@),
            r->Ok_0.1.r@ == chaum_pedersen_answer(
                omega@,
                fs_challenge(
                    chaum_pedersen_absorbed(
                        fs_init(remask_label()),
                        pp.generator(),
                        shared_key@,
                        difference(r->Ok_0.0.0@, original_masked.0@),
                        difference(r->Ok_0.0.1@, original_masked.1@),
                        r->Ok_0.1.a@,
                        r->Ok_0.1.b@,
                    ),
                ),
                alpha@,
            ),
    {
        let zero = Plaintext::zero();
        let mask = match ElGamal::encrypt(&pp.enc_parameters, shared_key, &zero, alpha) {
            Ok(c) => c,
            Err(e) => {
                return Err(e);
            },
        };
        let remasked = original_masked.add(&mask);
        let parameters = CpParameters::new(&pp.enc_parameters.generator, shared_key);
        let statement = Statement::new(
            &remasked.0.add(&original_masked.0.neg()),
            &remasked.1.add(&original_masked.1.neg()),
        );
        let mut fs_rng = remask_transcript();
        let proof = match DLEquality::prove(&parameters, &statement, alpha, omega, &mut fs_rng) {
            Ok(p) => p,
            Err(e) => {
                return Err(e);
            },
        };
        Ok((remasked, proof))
    }

    /// Checks that `remasked` remasks `original_masked` under the shared key.
    pub fn verify_remask(
        pp: &Parameters,
        shared_key: &Point,
        original_masked: &Ciphertext,
        remasked: &Ciphertext,
        proof: &CpProof,
    ) -> (r: Result<(), CryptoError>)
        requires
            pp.wf(),
            shared_key.wf(),
            original_masked.wf(),
            remasked.wf(),
            proof.wf(),
        ensures
            r is Ok <==> remask_accepts(pp.generator(), shared_key@, *original_masked, *remasked, *proof),
            r is Err ==> is_rejection(r->Err_0, "Chaum-Pedersen"@),
    {
        let parameters = CpParameters::new(&pp.enc_parameters.generator, shared_key);
        let statement = Statement::new(
            &remasked.0.add(&original_masked.0.neg()),
            &remasked.1.add(&original_masked.1.neg()),
        );
        let mut fs_rng = remask_transcript();
        DLEquality::verify(&parameters, &statement, proof, &mut fs_rng)
    }

    /// The reveal token `sk * u` of a masked card, with a proof made with the
    /// nonce `omega` that it uses the key behind `pk`.
    pub fn compute_reveal_token(
        pp: &Parameters,
        sk: &Scalar,
        pk: &Point,
        masked_card: &Ciphertext,
        omega: &Scalar,
    ) -> (r: Result<(Point, CpProof), CryptoError>)
        requires
            pp.wf(),
            sk.wf(),
            pk.wf(),
            masked_card.wf(),
            omega.wf(),
        ensures
            r is Ok,
            r->Ok_0.0.wf() && r->Ok_0.1.wf(),
            r->Ok_0.0@ == g1_mul_of(masked_card.0@, sk@),
            r->Ok_0.1.a@ == g1_mul_of(masked_card.0@, omega@),
            r->Ok_0.1.b@ == g1_mul_of(pp.generator(), omega@),
            r->Ok_0.1.r@ == chaum_pedersen_answer(
                omega@,
                fs_challenge(
                    chaum_pedersen_absorbed(
                        fs_init(reveal_label()),
                        masked_card.0@,
                        pp.generator(),
                        r->Ok_0.0@,
                        pk@,
                        r->Ok_0.1.a@,
                        r->Ok_0.1.b@,
                    ),
                ),
                sk@,
            ),
    {
        let token = masked_card.0.mul(sk);
        let parameters = CpParameters::new(&masked_card.0, &pp.enc_parameters.generator);
        let statement = Statement::new(&token, pk);
        let mut fs_rng = reveal_transcript();
        let proof = match DLEquality::prove(&parameters, &statement, sk, omega, &mut fs_rng) {
            Ok(p) => p,
            Err(e) => {
                return Err(e);
            },
        };
        Ok((token, proof))
    }

    /// Checks a reveal token of `masked_card` against the player's key.
    pub fn verify_reveal(
        pp: &Parameters,
        pk: &Point,
        reveal_token: &Point,
        masked_card: &Ciphertext,
        proof: &CpProof,
    ) -> (r: Result<(), CryptoError>)
        requires
            pp.wf(),
            pk.wf(),
            reveal_token.wf(),
            masked_card.wf(),
            proof.wf(),
        ensures
            r is Ok <==> reveal_accepts(pp.generator(), pk@, reveal_token@, *masked_card, *proof),
            r is Err ==> is_rejection(r->Err_0, "Chaum-Pedersen"@),
    {
        let parameters = CpParameters::new(&masked_card.0, &pp.enc_parameters.generator);
        let statement = Statement::new(reveal_token, pk);
        let mut fs_rng = reveal_transcript();
        DLEquality::verify(&parameters, &statement, proof, &mut fs_rng)
    }

    /// Opens a masked card: `v - sum_i T_i`, once every token's proof is
    /// checked; the first proof that fails stops it with its error.
    pub fn unmask(pp: &Parameters, decryption_key: &Vec<(Point, CpProof, Point)>, masked_card: &Ciphertext) -> (r:
        Result<Plaintext, CardProtocolError>)
        requires
            pp.wf(),
            masked_card.wf(),
            forall|i: int|
                0 <= i < decryption_key.len() ==> (#[trigger] decryption_key[i]).0.wf() && decryption_key[i].1.wf()
                    && decryption_key[i].2.wf(),
        ensures
            r is Ok <==> forall|i: int|
                0 <= i < decryption_key.len() ==> reveal_accepts(
                    pp.generator(),
                    (#[trigger] decryption_key[i]).2@,
                    decryption_key[i].0@,
                    *masked_card,
                    decryption_key[i].1,
                ),
            r is Ok ==> r->Ok_0.wf() && r->Ok_0.0@ == difference(
                masked_card.1@,
                sum_points(decryption_key@.map_values(|k: (Point, CpProof, Point)| k.0@)),
            ),
            r is Err ==> (r->Err_0 matches CardProtocolError::ProofVerificationError(e) && is_rejection(
                e,
                "Chaum-Pedersen"@,
            )),
    {
        let mut acc = Point::identity();
        let mut i: usize = 0;
        while i < decryption_key.len()
            invariant
                0 <= i <= decryption_key.len(),
                pp.wf(),
                masked_card.wf(),
                forall|j: int|
                    0 <= j < decryption_key.len() ==> (#[trigger] decryption_key[j]).0.wf()
                        && decryption_key[j].1.wf() && decryption_key[j].2.wf(),
                forall|j: int|
                    0 <= j < i ==> reveal_accepts(
                        pp.generator(),
                        (#[trigger] decryption_key[j]).2@,
                        decryption_key[j].0@,
                        *masked_card,
                        decryption_key[j].1,
                    ),
                acc.wf(),
                acc@ == sum_points(
                    decryption_key@.subrange(0, i as int).map_values(|k: (Point, CpProof, Point)| k.0@),
                ),
            decreases decryption_key.len() - i,
        {
            let entry = &decryption_key[i];
            match Self::verify_reveal(pp, &entry.2, &entry.0, masked_card, &entry.1) {
                Ok(()) => {},
                Err(e) => {
                    return Err(CardProtocolError::ProofVerificationError(e));
                },
            }
            let ghost prev = decryption_key@.subrange(0, i as int).map_values(|k: (Point, CpProof, Point)| k.0@);
            acc = acc.add(&entry.0);
            proof {
                let s = decryption_key@.subrange(0, i + 1).map_values(|k: (Point, CpProof, Point)| k.0@);
                assert(s.drop_last() =~= prev);
                assert(s.last() == decryption_key@[i as int].0@);
            }
            i = i + 1;
        }
        assert(decryption_key@.subrange(0, decryption_key.len() as int) =~= decryption_key@);
        Ok(Plaintext(masked_card.1.add(&acc.neg())))
    }
}

/// The keys `sk_i * g` of a sequence of secret keys.
pub open spec fn public_keys(g: PointView, sks: Seq<int>) -> Seq<PointView> {
    sks.map_values(|s: int| g1_mul_of(g, s))
}

/// All the values of a sequence are field elements.
pub open spec fn all_scalars(sks: Seq<int>) -> bool {
    forall|i: int| 0 <= i < sks.len() ==> is_scalar(sks[i])
}

/// The reveal tokens `sk_i * u` sum to `(sum_i sk_i * g) * r` for `u = r * g`.
pub proof fn lemma_token_sum(g: PointView, r: int, sks: Seq<int>)
    requires
        group_laws(),
        valid_point(g),
        is_scalar(r),
        all_scalars(sks),
    ensures
        valid_point(sum_points(public_keys(g, sks))),
        sum_points(public_keys(g1_mul_of(g, r), sks)) == g1_mul_of(sum_points(public_keys(g, sks)), r),
    decreases sks.len(),
{
    if sks.len() == 0 {
        lemma_mul_identity(r);
    } else {
        let pre = sks.drop_last();
        let s = sks.last();
        let u = g1_mul_of(g, r);
        lemma_token_sum(g, r, pre);
        assert(public_keys(g, sks).drop_last() =~= public_keys(g, pre));
        assert(public_keys(u, sks).drop_last() =~= public_keys(u, pre));
        assert(public_keys(g, sks).last() == g1_mul_of(g, s));
        assert(public_keys(u, sks).last() == g1_mul_of(u, s));
        lemma_share_step(g, sum_points(public_keys(g, pre)), r, s);
    }
}

/// Unmasking opens a masked card: with the aggregate key `sum_i sk_i * g`, the
/// card masked with randomness `r` and every player's reveal token `sk_i * u`,
/// `v - sum_i T_i` is the card.
pub proof fn lemma_unmask_masked(g: PointView, card: PointView, r: int, sks: Seq<int>)
    requires
        group_laws(),
        valid_point(g),
        valid_point(card),
        is_scalar(r),
        all_scalars(sks),
    ensures
        ({
            let masked = encryption(g, sum_points(public_keys(g, sks)), card, r);
            difference(masked.1, sum_points(public_keys(masked.0, sks))) == card
        }),
{
    lemma_token_sum(g, r, sks);
    let pk = sum_points(public_keys(g, sks));
    lemma_mul_valid(pk, r);
    lemma_add_then_sub(card, g1_mul_of(pk, r));
}

/// An honest key-ownership proof is accepted: the proof that
/// `prove_key_ownership` returns for `pk = sk * g` passes `verify_key_ownership`.
pub proof fn lemma_key_ownership_complete(g: PointView, pk: Point, sk: int, info: Seq<u8>, w: int, proof: SchnorrProof)
    requires
        group_laws(),
        valid_point(g),
        is_scalar(sk),
        is_scalar(w),
        pk@ == g1_mul_of(g, sk),
        proof.random_commit@ == g1_mul_of(g, w),
        proof.opening@ == crate::schnorr_identification::schnorr_opening(
            w,
            fs_challenge(schnorr_absorbed(fs_init(key_ownership_seed(g, pk@, info)), g, pk@, g1_mul_of(g, w))),
            sk,
        ),
    ensures
        key_ownership_accepts(g, pk@, info, proof),
{
    crate::schnorr_identification::lemma_schnorr_complete(fs_init(key_ownership_seed(g, pk@, info)), g, sk, w);
}

/// A key-ownership proof does not carry over to the identity: a proof made
/// for `sk * g` with a nonzero key and a nonzero challenge is rejected when the
/// key is replaced by the identity.
pub proof fn lemma_key_ownership_identity_rejected(
    g: PointView,
    pk: Point,
    sk: int,
    info: Seq<u8>,
    w: int,
    proof: SchnorrProof,
)
    requires
        group_laws(),
        valid_point(g),
        !g.2,
        is_scalar(sk),
        is_scalar(w),
        sk != 0,
        pk@ == g1_mul_of(g, sk),
        proof.random_commit@ == g1_mul_of(g, w),
        fs_challenge(schnorr_absorbed(fs_init(key_ownership_seed(g, pk@, info)), g, pk@, g1_mul_of(g, w))) != 0,
        proof.opening@ == crate::schnorr_identification::schnorr_opening(
            w,
            fs_challenge(schnorr_absorbed(fs_init(key_ownership_seed(g, pk@, info)), g, pk@, g1_mul_of(g, w))),
            sk,
        ),
    ensures
        !key_ownership_accepts(g, identity_view(), info, proof),
{
    let r = crate::field::group_order();
    let c = fs_challenge(schnorr_absorbed(fs_init(key_ownership_seed(g, pk@, info)), g, pk@, g1_mul_of(g, w)));
    let c2 = fs_challenge(
        schnorr_absorbed(fs_init(key_ownership_seed(g, identity_view(), info)), g, identity_view(), g1_mul_of(g, w)),
    );
    let z = proof.opening@;
    let k = (c * sk) % r;
    assert(is_scalar(c) && is_scalar(c2) && is_scalar(k) && is_scalar(z));
    lemma_mul_identity(c2);
    lemma_mul_valid(g, z);
    lemma_add_identity(g1_mul_of(g, z));
    lemma_challenge_separates(g, sk, 0, c);
    assert(c * 0 == 0);
    lemma_sub_changes(w, k);
    if g1_mul_of(g, z) == g1_mul_of(g, w) {
        lemma_mul_injective(g, z, w);
    }
}

/// An honest masking proof is accepted: what `mask` returns for a card,
/// randomness `alpha` and nonce `omega` passes `verify_mask`.
pub proof fn lemma_mask_complete(
    g: PointView,
    pk: PointView,
    card: PointView,
    alpha: int,
    omega: int,
    masked: Ciphertext,
    proof: CpProof,
)
    requires
        group_laws(),
        valid_point(g),
        valid_point(pk),
        valid_point(card),
        is_scalar(alpha),
        is_scalar(omega),
        (masked.0@, masked.1@) == encryption(g, pk, card, alpha),
        proof.a@ == g1_mul_of(g, omega),
        proof.b@ == g1_mul_of(pk, omega),
        proof.r@ == chaum_pedersen_answer(
            omega,
            fs_challenge(
                chaum_pedersen_absorbed(
                    fs_init(mask_label()),
                    g,
                    pk,
                    masked.0@,
                    difference(masked.1@, card),
                    proof.a@,
                    proof.b@,
                ),
            ),
            alpha,
        ),
    ensures
        mask_accepts(g, pk, card, masked, proof),
{
    let x = g1_mul_of(pk, alpha);
    lemma_mul_valid(pk, alpha);
    lemma_add_commutes(card, x);
    lemma_add_then_sub(x, card);
    lemma_chaum_pedersen_complete(fs_init(mask_label()), g, pk, alpha, omega);
}

/// An honest reveal token is accepted: what `compute_reveal_token` returns for
/// `pk = sk * g` passes `verify_reveal`.
pub proof fn lemma_reveal_complete(
    g: PointView,
    sk: int,
    pk: PointView,
    masked: Ciphertext,
    omega: int,
    token: PointView,
    proof: CpProof,
)
    requires
        group_laws(),
        valid_point(g),
        masked.wf(),
        is_scalar(sk),
        is_scalar(omega),
        pk == g1_mul_of(g, sk),
        token == g1_mul_of(masked.0@, sk),
        proof.a@ == g1_mul_of(masked.0@, omega),
        proof.b@ == g1_mul_of(g, omega),
        proof.r@ == chaum_pedersen_answer(
            omega,
            fs_challenge(chaum_pedersen_absorbed(fs_init(reveal_label()), masked.0@, g, token, pk, proof.a@, proof.b@)),
            sk,
        ),
    ensures
        reveal_accepts(g, pk, token, masked, proof),
{
    lemma_chaum_pedersen_complete(fs_init(reveal_label()), masked.0@, g, sk, omega);
}

/// An honest remasking proof is accepted: what `remask` returns for a masked
/// card, randomness `alpha` and nonce `omega` passes `verify_remask`.
pub proof fn lemma_remask_complete(
    g: PointView,
    pk: PointView,
    alpha: int,
    omega: int,
    old: Ciphertext,
    new: Ciphertext,
    proof: CpProof,
)
    requires
        group_laws(),
        valid_point(g),
        valid_point(pk),
        old.wf(),
        is_scalar(alpha),
        is_scalar(omega),
        ({
            let z = encryption(g, pk, identity_view(), alpha);
            &&& new.0@ == g1_add_of(old.0@, z.0)
            &&& new.1@ == g1_add_of(old.1@, z.1)
        }),
        proof.a@ == g1_mul_of(g, omega),
        proof.b@ == g1_mul_of(pk, omega),
        proof.r@ == chaum_pedersen_answer(
            omega,
            fs_challenge(
                chaum_pedersen_absorbed(
                    fs_init(remask_label()),
                    g,
                    pk,
                    difference(new.0@, old.0@),
                    difference(new.1@, old.1@),
                    proof.a@,
                    proof.b@,
                ),
            ),
            alpha,
        ),
    ensures
        remask_accepts(g, pk, old, new, proof),
{
    let x = g1_mul_of(g, alpha);
    let y = g1_mul_of(pk, alpha);
    lemma_mul_valid(g, alpha);
    lemma_mul_valid(pk, alpha);
    lemma_add_commutes(identity_view(), y);
    lemma_add_identity(y);
    lemma_add_commutes(old.0@, x);
    lemma_add_then_sub(x, old.0@);
    lemma_add_commutes(old.1@, y);
    lemma_add_then_sub(y, old.1@);
    lemma_chaum_pedersen_complete(fs_init(remask_label()), g, pk, alpha, omega);
}

} // verus!
