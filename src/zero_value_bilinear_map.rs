//! The zero argument over a bilinear map: given commitments to columns
//! `a_1..a_m` and `b_1..b_m`, the prover shows `sum_k a_k * b_k = 0`.
//!
//! Absorption schedule: the label `zero_argument`, the commit key, `m` and
//! `n` as `u32`, the commitments to `a_0` and `b_m`, the statement's two
//! sequences of commitments and the committed diagonals; then the challenge
//! `x` is squeezed.
use crate::encoding::{
    append_bytes, compressed_encoding, decode_point_from, decode_scalar_from, decode_scalars, encode_scalars,
    holds_scalars_at, lemma_le_bytes_len, lemma_scalars_encoding_parts, scalar_encoding, scalar_vec_encoding, u32_le,
    u32_to_le,
};
use crate::error::{is_rejection, rejection, CryptoError};
use crate::field::{group_order, Scalar};
use crate::group::g1_add_of;
use crate::pedersen::{
    commitment_points, decode_commitments, holds_points_at, lemma_points_encoding_parts,
    commit_key_encoding, commitment_views, dot_commitments, dot_product, encode_commitments, pedersen_commitment,
    point_vec_encoding, point_views, scalar_views, CommitKey, Commitment, PedersenCommitment,
};
use crate::transcript::{fs_absorb, fs_challenge, fs_squeeze, FiatShamirRng, TranscriptView};
use vstd::prelude::*;

verus! {

/// `x^k` in the field.
pub open spec fn pow_mod(x: int, k: nat) -> int
    decreases k,
{
    if k == 0 {
        1
    } else {
        (pow_mod(x, (k - 1) as nat) * x) % group_order()
    }
}

/// `[x^0, x^1, .., x^k]`.
pub open spec fn power_seq(x: int, k: nat) -> Seq<int> {
    Seq::new(k + 1, |i: int| pow_mod(x, i as nat))
}

/// The powers `x^0 .. x^n` of a field element.
pub fn scalar_powers(x: &Scalar, n: usize) -> (r: Vec<Scalar>)
    requires
        x.wf(),
        n < usize::MAX,
    ensures
        r@.len() == n + 1,
        forall|i: int| 0 <= i <= n ==> r@[i].wf(),
        scalar_views(r@) == power_seq(x@, n as nat),
{
    let mut r: Vec<Scalar> = Vec::new();
    let one = Scalar::from_u64(1);
    r.push(one);
    let mut i: usize = 0;
    while i < n
        invariant
            0 <= i <= n,
            x.wf(),
            r@.len() == i + 1,
            forall|j: int| 0 <= j <= i ==> r@[j].wf() && r@[j]@ == pow_mod(x@, j as nat),
        decreases n - i,
    {
        let next = r[i].mul(x);
        r.push(next);
        i = i + 1;
    }
    assert(scalar_views(r@) =~= power_seq(x@, n as nat));
    r
}

/// The bilinear map `(a, b) -> sum_j a_j * b_j * y^(j+1)`.
#[derive(Clone, Copy, Debug, PartialEq, Eq)]
pub struct BilinearMap {
    pub y: Scalar,
}

/// `sum_{j < k} a_j * b_j * y^(j+1)`, added term by term in the field.
pub open spec fn weighted_dot(a: Seq<int>, b: Seq<int>, y: int, k: nat) -> int
    decreases k,
{
    if k == 0 {
        0
    } else {
        let j = (k - 1) as nat;
        (weighted_dot(a, b, y, j) + ((a[j as int] * b[j as int]) % group_order() * pow_mod(y, k)) % group_order())
            % group_order()
    }
}

impl BilinearMap {
    pub open spec fn wf(&self) -> bool {
        self.y.wf()
    }

    /// The map applied to `a` and `b`; refuses vectors of different lengths.
    pub fn compute_mapping(&self, a: &Vec<Scalar>, b: &Vec<Scalar>) -> (r: Result<Scalar, CryptoError>)
        requires
            self.wf(),
            forall|i: int| 0 <= i < a.len() ==> a[i].wf(),
            forall|i: int| 0 <= i < b.len() ==> b[i].wf(),
        ensures
            r is Err <==> a.len() != b.len(),
            r is Err ==> r == Err::<Scalar, CryptoError>(CryptoError::InvalidLength),
            r is Ok ==> r->Ok_0.wf() && r->Ok_0@ == weighted_dot(
                scalar_views(a@),
                scalar_views(b@),
                self.y@,
                a.len() as nat,
            ),
    {
        if a.len() != b.len() {
            return Err(CryptoError::InvalidLength);
        }
        let mut acc = Scalar::zero();
        let mut y_power = self.y;
        proof {
            vstd::arithmetic::div_mod::lemma_small_mod(self.y@ as nat, group_order() as nat);
            assert(pow_mod(self.y@, 0) == 1);
            assert(1 * self.y@ == self.y@);
            assert(pow_mod(self.y@, 1) == self.y@);
        }
        let mut j: usize = 0;
        while j < a.len()
            invariant
                0 <= j <= a.len(),
                a.len() == b.len(),
                self.wf(),
                forall|i: int| 0 <= i < a.len() ==> a[i].wf(),
                forall|i: int| 0 <= i < b.len() ==> b[i].wf(),
                acc.wf(),
                y_power.wf(),
                acc@ == weighted_dot(scalar_views(a@), scalar_views(b@), self.y@, j as nat),
                y_power@ == pow_mod(self.y@, (j + 1) as nat),
            decreases a.len() - j,
        {
            acc = acc.add(&a[j].mul(&b[j]).mul(&y_power));
            y_power = y_power.mul(&self.y);
            j = j + 1;
        }
        Ok(acc)
    }
}

/// The bytes of the label `zero_argument`.
pub open spec fn zero_argument_label() -> Seq<u8> {
    seq![122u8, 101, 114, 111, 95, 97, 114, 103, 117, 109, 101, 110, 116]
}

fn label() -> (r: Vec<u8>)
    ensures
        r@ == zero_argument_label(),
{
    let r = vec![122u8, 101, 114, 111, 95, 97, 114, 103, 117, 109, 101, 110, 116];
    assert(r@ =~= zero_argument_label());
    r
}

/// The public parameters: the matrix shape `m x n` and the commit key.
#[derive(Clone, Debug)]
pub struct Parameters {
    pub m: usize,
    pub n: usize,
    pub commit_key: CommitKey,
}

/// The commitments to the columns `a_1..a_m` and `b_1..b_m`, and the map.
#[derive(Clone, Debug)]
pub struct Statement {
    pub commitment_to_a: Vec<Commitment>,
    pub commitment_to_b: Vec<Commitment>,
    pub bilinear_map: BilinearMap,
}

/// A zero argument.
#[derive(Clone, Debug)]
pub struct Proof {
    pub a_0_commit: Commitment,
    pub b_m_commit: Commitment,
    pub vector_of_committed_diagonals: Vec<Commitment>,
    pub a_blinded: Vec<Scalar>,
    pub b_blinded: Vec<Scalar>,
    pub r_blinded: Scalar,
    pub s_blinded: Scalar,
    pub t_blinded: Scalar,
}

/// All the commitments of a sequence are well formed.
pub open spec fn all_wf(cs: Seq<Commitment>) -> bool {
    forall|i: int| 0 <= i < cs.len() ==> cs[i].wf()
}

/// All the scalars of a sequence are well formed.
pub open spec fn all_scalars_wf(xs: Seq<Scalar>) -> bool {
    forall|i: int| 0 <= i < xs.len() ==> xs[i].wf()
}

impl Parameters {
    pub open spec fn wf(&self) -> bool {
        self.commit_key.wf()
    }
}

impl Statement {
    pub open spec fn wf(&self) -> bool {
        all_wf(self.commitment_to_a@) && all_wf(self.commitment_to_b@) && self.bilinear_map.wf()
    }
}

/// The transcript once everything before the challenge is absorbed.
pub open spec fn zero_argument_absorbed(t: TranscriptView, pp: Parameters, st: Statement, proof: Proof) -> TranscriptView {
    let t1 = fs_absorb(fs_absorb(t, zero_argument_label()), commit_key_encoding(pp.commit_key));
    let t2 = fs_absorb(fs_absorb(t1, u32_le(pp.m as u32)), u32_le(pp.n as u32));
    let t3 = fs_absorb(fs_absorb(t2, compressed_encoding(proof.a_0_commit.0@)), compressed_encoding(proof.b_m_commit.0@));
    let t4 = fs_absorb(
        fs_absorb(t3, point_vec_encoding(commitment_views(st.commitment_to_a@))),
        point_vec_encoding(commitment_views(st.commitment_to_b@)),
    );
    fs_absorb(t4, point_vec_encoding(commitment_views(proof.vector_of_committed_diagonals@)))
}

/// The middle diagonal exists and the key has a generator, so the check of
/// the middle diagonal can be made.
pub open spec fn zero_argument_middle_checkable(pp: Parameters, proof: Proof) -> bool {
    pp.m + 1 < proof.vector_of_committed_diagonals.len() && pp.commit_key.g.len() >= 1
}

/// The middle diagonal is the commitment to `[0]` with randomness 0.
pub open spec fn zero_argument_middle_is_zero(pp: Parameters, proof: Proof) -> bool {
    proof.vector_of_committed_diagonals@[pp.m + 1].0@ == pedersen_commitment(
        point_views(pp.commit_key.g@),
        pp.commit_key.h@,
        seq![0int],
        0,
    )
}

/// The lengths of the key, the statement and the proof fit together: `2m + 1`
/// diagonals, `m` commitments on each side, and blinded vectors of one length
/// that the key can commit to.
pub open spec fn zero_argument_shapes_fit(pp: Parameters, st: Statement, proof: Proof) -> bool {
    &&& proof.vector_of_committed_diagonals.len() == 2 * pp.m + 1
    &&& st.commitment_to_a.len() == pp.m
    &&& st.commitment_to_b.len() == pp.m
    &&& proof.a_blinded.len() == proof.b_blinded.len()
    &&& proof.a_blinded.len() <= pp.commit_key.g.len()
    &&& pp.commit_key.g.len() >= 1
}

/// The verifier's checks all pass on the challenge `x`.
pub open spec fn zero_argument_accepts(pp: Parameters, st: Statement, proof: Proof, x: int) -> bool {
    let g = point_views(pp.commit_key.g@);
    let h = pp.commit_key.h@;
    let m = pp.m as int;
    let d = commitment_views(proof.vector_of_committed_diagonals@);
    let powers = power_seq(x, (d.len() - 1) as nat);
    let nonzero = powers.subrange(1, m + 1);
    let a = scalar_views(proof.a_blinded@);
    let b = scalar_views(proof.b_blinded@);
    &&& m + 1 < d.len()
    &&& g.len() >= 1
    &&& d[m + 1] == pedersen_commitment(g, h, seq![0int], 0)
    &&& d.len() == 2 * m + 1
    &&& st.commitment_to_a.len() == m
    &&& st.commitment_to_b.len() == m
    &&& a.len() <= g.len()
    &&& b.len() <= g.len()
    &&& a.len() == b.len()
    &&& g1_add_of(proof.a_0_commit.0@, dot_commitments(nonzero, commitment_views(st.commitment_to_a@)))
        == pedersen_commitment(g, h, a, proof.r_blinded@)
    &&& g1_add_of(proof.b_m_commit.0@, dot_commitments(nonzero.reverse(), commitment_views(st.commitment_to_b@)))
        == pedersen_commitment(g, h, b, proof.s_blinded@)
    &&& dot_commitments(powers, d) == pedersen_commitment(
        g,
        h,
        seq![weighted_dot(a, b, st.bilinear_map.y@, a.len() as nat)],
        proof.t_blinded@,
    )
}

impl Proof {
    pub open spec fn wf(&self) -> bool {
        &&& self.a_0_commit.wf()
        &&& self.b_m_commit.wf()
        &&& all_wf(self.vector_of_committed_diagonals@)
        &&& all_scalars_wf(self.a_blinded@)
        &&& all_scalars_wf(self.b_blinded@)
        &&& self.r_blinded.wf()
        &&& self.s_blinded.wf()
        &&& self.t_blinded.wf()
    }
}

/// `xs[1..k+1]` and the same in reverse order.
fn middle_powers(xs: &Vec<Scalar>, k: usize) -> (r: (Vec<Scalar>, Vec<Scalar>))
    requires
        k < xs.len(),
        all_scalars_wf(xs@),
    ensures
        all_scalars_wf(r.0@),
        all_scalars_wf(r.1@),
        scalar_views(r.0@) == scalar_views(xs@).subrange(1, k + 1),
        scalar_views(r.1@) == scalar_views(xs@).subrange(1, k + 1).reverse(),
{
    let mut fwd: Vec<Scalar> = Vec::new();
    let mut i: usize = 1;
    while i <= k
        invariant
            1 <= i <= k + 1,
            k < xs.len(),
            all_scalars_wf(xs@),
            fwd@ == xs@.subrange(1, i as int),
        decreases k + 1 - i,
    {
        fwd.push(xs[i]);
        i = i + 1;
        assert(fwd@ =~= xs@.subrange(1, i as int));
    }
    let mut rev: Vec<Scalar> = Vec::new();
    let mut j: usize = k;
    while j >= 1
        invariant
            0 <= j <= k,
            k < xs.len(),
            all_scalars_wf(xs@),
            rev@.len() == k - j,
            forall|t: int| 0 <= t < k - j ==> rev@[t] == xs@[k - t],
        decreases j,
    {
        rev.push(xs[j]);
        j = j - 1;
    }
    assert(scalar_views(fwd@) =~= scalar_views(xs@).subrange(1, k + 1));
    assert(scalar_views(rev@) =~= scalar_views(xs@).subrange(1, k + 1).reverse());
    (fwd, rev)
}

impl Proof {
    /// Checks the argument: the committed middle diagonal is the commitment to
    /// zero, then the three commitment equations on the challenge `x`.
    pub fn verify(&self, proof_parameters: &Parameters, statement: &Statement, fs_rng: &mut FiatShamirRng) -> (r: Result<
        (),
        CryptoError,
    >)
        requires
            self.wf(),
            proof_parameters.wf(),
            statement.wf(),
        ensures
            r is Ok <==> zero_argument_accepts(
                *proof_parameters,
                *statement,
                *self,
                fs_challenge(zero_argument_absorbed(old(fs_rng)@, *proof_parameters, *statement, *self)),
            ),
            r is Err ==> is_rejection(r->Err_0, "Zero Argument (5.2)"@) || r->Err_0 is InvalidLength
                || r->Err_0 is CommitmentLengthError,
            zero_argument_middle_checkable(*proof_parameters, *self) && !zero_argument_middle_is_zero(
                *proof_parameters,
                *self,
            ) ==> r is Err && is_rejection(r->Err_0, "Zero Argument (5.2)"@),
            !(zero_argument_middle_checkable(*proof_parameters, *self) && zero_argument_middle_is_zero(
                *proof_parameters,
                *self,
            )) ==> final(fs_rng)@ == old(fs_rng)@,
            zero_argument_middle_checkable(*proof_parameters, *self) && zero_argument_middle_is_zero(
                *proof_parameters,
                *self,
            ) ==> final(fs_rng)@ == fs_squeeze(
                zero_argument_absorbed(old(fs_rng)@, *proof_parameters, *statement, *self),
            ),
            zero_argument_shapes_fit(*proof_parameters, *statement, *self) && r is Err ==> is_rejection(
                r->Err_0,
                "Zero Argument (5.2)"@,
            ),
    {
        let m = proof_parameters.m;
        let ck = &proof_parameters.commit_key;
        let diagonals = &self.vector_of_committed_diagonals;
        if m >= diagonals.len() || m + 1 >= diagonals.len() {
            return Err(rejection("Zero Argument (5.2)"));
        }
        let zero_vec = vec![Scalar::zero()];
        let zero_commit = match PedersenCommitment::commit(ck, &zero_vec, Scalar::zero()) {
            Ok(c) => c,
            Err(e) => {
                return Err(e);
            },
        };
        proof {
            assert(scalar_views(zero_vec@) =~= seq![0int]);
        }
        if !diagonals[m + 1].0.equals(&zero_commit.0) {
            return Err(rejection("Zero Argument (5.2)"));
        }
        fs_rng.absorb(label().as_slice());
        fs_rng.absorb(ck.to_bytes().as_slice());
        fs_rng.absorb(&u32_to_le(m as u32));
        fs_rng.absorb(&u32_to_le(proof_parameters.n as u32));
        fs_rng.absorb(&self.a_0_commit.0.to_compressed());
        fs_rng.absorb(&self.b_m_commit.0.to_compressed());
        fs_rng.absorb(encode_commitments(&statement.commitment_to_a).as_slice());
        fs_rng.absorb(encode_commitments(&statement.commitment_to_b).as_slice());
        fs_rng.absorb(encode_commitments(diagonals).as_slice());
        let x = fs_rng.squeeze_scalar();
        if m > (usize::MAX - 1) / 2 {
            return Err(CryptoError::InvalidLength);
        }
        let challenge_powers = scalar_powers(&x, 2 * m);
        let (first_m_non_zero_powers, first_m_non_zero_powers_reversed) = middle_powers(&challenge_powers, m);

        let left = match dot_product(&first_m_non_zero_powers, &statement.commitment_to_a) {
            Ok(c) => self.a_0_commit.add(&c),
            Err(e) => {
                return Err(e);
            },
        };
        let right = match PedersenCommitment::commit(ck, &self.a_blinded, self.r_blinded) {
            Ok(c) => c,
            Err(e) => {
                return Err(e);
            },
        };
        if !left.0.equals(&right.0) {
            return Err(rejection("Zero Argument (5.2)"));
        }
        let left = match dot_product(&first_m_non_zero_powers_reversed, &statement.commitment_to_b) {
            Ok(c) => self.b_m_commit.add(&c),
            Err(e) => {
                return Err(e);
            },
        };
        let right = match PedersenCommitment::commit(ck, &self.b_blinded, self.s_blinded) {
            Ok(c) => c,
            Err(e) => {
                return Err(e);
            },
        };
        if !left.0.equals(&right.0) {
            return Err(rejection("Zero Argument (5.2)"));
        }
        let left = match dot_product(&challenge_powers, diagonals) {
            Ok(c) => c,
            Err(e) => {
                return Err(e);
            },
        };
        let a_star_b = match statement.bilinear_map.compute_mapping(&self.a_blinded, &self.b_blinded) {
            Ok(v) => v,
            Err(e) => {
                return Err(e);
            },
        };
        let ab_vec = vec![a_star_b];
        let right = match PedersenCommitment::commit(ck, &ab_vec, self.t_blinded) {
            Ok(c) => c,
            Err(e) => {
                return Err(e);
            },
        };
        proof {
            assert(scalar_views(ab_vec@) =~= seq![a_star_b@]);
        }
        if !left.0.equals(&right.0) {
            return Err(rejection("Zero Argument (5.2)"));
        }
        Ok(())
    }
}

/// The encoding of a zero argument: the compressed `a_0` and `b_m`
/// commitments, the diagonals, the two blinded vectors, then `r`, `s`, `t`.
pub open spec fn zero_argument_encoding(p: Proof) -> Seq<u8> {
    compressed_encoding(p.a_0_commit.0@) + compressed_encoding(p.b_m_commit.0@) + point_vec_encoding(
        commitment_views(p.vector_of_committed_diagonals@),
    ) + scalar_vec_encoding(p.a_blinded@) + scalar_vec_encoding(p.b_blinded@) + scalar_encoding(p.r_blinded)
        + scalar_encoding(p.s_blinded) + scalar_encoding(p.t_blinded)
}

/// The sequences of a proof are short enough for their `u32` counts.
pub open spec fn zero_argument_counts_fit(p: Proof) -> bool {
    &&& p.vector_of_committed_diagonals.len() < 4294967296
    &&& p.a_blinded.len() < 4294967296
    &&& p.b_blinded.len() < 4294967296
}

/// Where each part of a proof's encoding stands.
proof fn lemma_zero_argument_parts(p: Proof, b: Seq<u8>)
    requires
        p.wf(),
        zero_argument_counts_fit(p),
        zero_argument_encoding(p) == b,
    ensures
        ({
            let e1: int = 64 + 4 + 32 * (p.vector_of_committed_diagonals.len() as int);
            let e2: int = e1 + 4 + 32 * (p.a_blinded.len() as int);
            let e3: int = e2 + 4 + 32 * (p.b_blinded.len() as int);
            &&& b.len() == e3 + 96
            &&& b.subrange(0, 32) == compressed_encoding(p.a_0_commit.0@)
            &&& b.subrange(32, 64) == compressed_encoding(p.b_m_commit.0@)
            &&& holds_points_at(b, 64, commitment_points(p.vector_of_committed_diagonals@))
            &&& holds_scalars_at(b, e1, p.a_blinded@)
            &&& holds_scalars_at(b, e2, p.b_blinded@)
            &&& b.subrange(e3, e3 + 32) == scalar_encoding(p.r_blinded)
            &&& b.subrange(e3 + 32, e3 + 64) == scalar_encoding(p.s_blinded)
            &&& b.subrange(e3 + 64, e3 + 96) == scalar_encoding(p.t_blinded)
        }),
{
    let d = p.vector_of_committed_diagonals@;
    let e1: int = 64 + 4 + 32 * (d.len() as int);
    let e2: int = e1 + 4 + 32 * (p.a_blinded.len() as int);
    let e3: int = e2 + 4 + 32 * (p.b_blinded.len() as int);
    lemma_le_bytes_len(if p.a_0_commit.0@.2 { 0 } else { p.a_0_commit.0@.0 }, 32);
    lemma_le_bytes_len(if p.b_m_commit.0@.2 { 0 } else { p.b_m_commit.0@.0 }, 32);
    assert(crate::pedersen::point_views(commitment_points(d)) =~= commitment_views(d));
    lemma_points_encoding_parts(commitment_views(d));
    lemma_scalars_encoding_parts(p.a_blinded@);
    lemma_scalars_encoding_parts(p.b_blinded@);
    assert(b.subrange(0, 32) =~= compressed_encoding(p.a_0_commit.0@));
    assert(b.subrange(32, 64) =~= compressed_encoding(p.b_m_commit.0@));
    assert(b.subrange(64, e1) =~= point_vec_encoding(commitment_views(d)));
    assert(b.subrange(e1, e2) =~= scalar_vec_encoding(p.a_blinded@));
    assert(b.subrange(e2, e3) =~= scalar_vec_encoding(p.b_blinded@));
    assert(b.subrange(e3, e3 + 32) =~= scalar_encoding(p.r_blinded));
    assert(b.subrange(e3 + 32, e3 + 64) =~= scalar_encoding(p.s_blinded));
    assert(b.subrange(e3 + 64, e3 + 96) =~= scalar_encoding(p.t_blinded));
    assert(forall|i: int| 0 <= i < d.len() ==> (#[trigger] commitment_points(d)[i]).wf());
}

impl Proof {
    /// The encoding.
    pub fn to_bytes(&self) -> (r: Vec<u8>)
        requires
            self.wf(),
        ensures
            r@ == zero_argument_encoding(*self),
    {
        let mut r: Vec<u8> = Vec::new();
        append_bytes(&mut r, &self.a_0_commit.0.to_compressed());
        append_bytes(&mut r, &self.b_m_commit.0.to_compressed());
        append_bytes(&mut r, encode_commitments(&self.vector_of_committed_diagonals).as_slice());
        append_bytes(&mut r, encode_scalars(&self.a_blinded).as_slice());
        append_bytes(&mut r, encode_scalars(&self.b_blinded).as_slice());
        append_bytes(&mut r, &self.r_blinded.to_bytes());
        append_bytes(&mut r, &self.s_blinded.to_bytes());
        append_bytes(&mut r, &self.t_blinded.to_bytes());
        r
    }

    /// Decodes an encoding; the encoding of a proof whose sequences fit their
    /// `u32` counts gives it back.
    pub fn from_bytes(b: &[u8]) -> (r: Result<Proof, CryptoError>)
        ensures
            r is Ok ==> r->Ok_0.wf(),
            r is Err ==> r == Err::<Proof, CryptoError>(CryptoError::SerializationError),
            forall|p: Proof|
                p.wf() && zero_argument_counts_fit(p) && zero_argument_encoding(p) == b@ ==> r is Ok
                    && r->Ok_0.a_0_commit == p.a_0_commit && r->Ok_0.b_m_commit == p.b_m_commit
                    && r->Ok_0.vector_of_committed_diagonals@ == p.vector_of_committed_diagonals@
                    && r->Ok_0.a_blinded@ == p.a_blinded@ && r->Ok_0.b_blinded@ == p.b_blinded@
                    && r->Ok_0.r_blinded == p.r_blinded && r->Ok_0.s_blinded == p.s_blinded
                    && r->Ok_0.t_blinded == p.t_blinded,
    {
        proof {
            assert forall|p: Proof| p.wf() && zero_argument_counts_fit(p) && zero_argument_encoding(p) == b@ implies b@.len()
                >= 64 by {
                lemma_zero_argument_parts(p, b@);
            }
        }
        if b.len() < 64 {
            return Err(CryptoError::SerializationError);
        }
        let a0 = match decode_point_from(b, 0) {
            Ok(x) => x,
            Err(e) => {
                proof {
                    assert forall|p: Proof| p.wf() && zero_argument_counts_fit(p) && zero_argument_encoding(p) == b@ implies false by {
                        lemma_zero_argument_parts(p, b@);
                    }
                }
                return Err(e);
            },
        };
        let bm = match decode_point_from(b, 32) {
            Ok(x) => x,
            Err(e) => {
                proof {
                    assert forall|p: Proof| p.wf() && zero_argument_counts_fit(p) && zero_argument_encoding(p) == b@ implies false by {
                        lemma_zero_argument_parts(p, b@);
                    }
                }
                return Err(e);
            },
        };
        let (diagonals, e1) = match decode_commitments(b, 64) {
            Ok(x) => x,
            Err(e) => {
                proof {
                    assert forall|p: Proof| p.wf() && zero_argument_counts_fit(p) && zero_argument_encoding(p) == b@ implies false by {
                        lemma_zero_argument_parts(p, b@);
                    }
                }
                return Err(e);
            },
        };
        let (a_blinded, e2) = match decode_scalars(b, e1) {
            Ok(x) => x,
            Err(e) => {
                proof {
                    assert forall|p: Proof| p.wf() && zero_argument_counts_fit(p) && zero_argument_encoding(p) == b@ implies false by {
                        lemma_zero_argument_parts(p, b@);
                    }
                }
                return Err(e);
            },
        };
        let (b_blinded, e3) = match decode_scalars(b, e2) {
            Ok(x) => x,
            Err(e) => {
                proof {
                    assert forall|p: Proof| p.wf() && zero_argument_counts_fit(p) && zero_argument_encoding(p) == b@ implies false by {
                        lemma_zero_argument_parts(p, b@);
                    }
                }
                return Err(e);
            },
        };
        if b.len() - e3 != 96 {
            proof {
                assert forall|p: Proof| p.wf() && zero_argument_counts_fit(p) && zero_argument_encoding(p) == b@ implies false by {
                    lemma_zero_argument_parts(p, b@);
                }
            }
            return Err(CryptoError::SerializationError);
        }
        let r_blinded = decode_scalar_from(b, e3);
        let s_blinded = decode_scalar_from(b, e3 + 32);
        let t_blinded = decode_scalar_from(b, e3 + 64);
        proof {
            assert forall|p: Proof| p.wf() && zero_argument_counts_fit(p) && zero_argument_encoding(p) == b@ implies r_blinded
                == Ok::<Scalar, CryptoError>(p.r_blinded) && s_blinded == Ok::<Scalar, CryptoError>(p.s_blinded)
                && t_blinded == Ok::<Scalar, CryptoError>(p.t_blinded) by {
                lemma_zero_argument_parts(p, b@);
            }
        }
        proof {
            assert forall|p: Proof| p.wf() && zero_argument_counts_fit(p) && zero_argument_encoding(p) == b@ implies a0
                == p.a_0_commit.0 && bm == p.b_m_commit.0 && diagonals@ == p.vector_of_committed_diagonals@
                && a_blinded@ == p.a_blinded@ && b_blinded@ == p.b_blinded@ by {
                lemma_zero_argument_parts(p, b@);
            }
        }
        match (r_blinded, s_blinded, t_blinded) {
            (Ok(r_blinded), Ok(s_blinded), Ok(t_blinded)) => {
                Ok(Proof {
                    a_0_commit: Commitment(a0),
                    b_m_commit: Commitment(bm),
                    vector_of_committed_diagonals: diagonals,
                    a_blinded,
                    b_blinded,
                    r_blinded,
                    s_blinded,
                    t_blinded,
                })
            },
            _ => Err(CryptoError::SerializationError),
        }
    }
}

} // verus!
