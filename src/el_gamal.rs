//! Exponential ElGamal over the group: `encrypt(pk, m, r) = (r * G, m + r * pk)`
//! and `decrypt(sk, (u, v)) = v - sk * u`, additively homomorphic in the
//! plaintext.
use crate::algebra::{group_laws, is_scalar};
use crate::encoding::{append_bytes, compressed_encoding, decode_point_at, lemma_le_bytes_len};
use crate::error::CryptoError;
use crate::field::{group_order, Scalar};
use crate::group::{g1_add_of, g1_mul_of, identity_view, neg_view, valid_point, Point, PointView};
use vstd::prelude::*;

verus! {

/// The public parameters: the generator `G`.
#[derive(Clone, Copy, Debug, PartialEq, Eq)]
pub struct Parameters {
    pub generator: Point,
}

impl Parameters {
    pub open spec fn wf(&self) -> bool {
        self.generator.wf()
    }

    /// The encoding: the compressed generator.
    pub fn to_bytes(&self) -> (r: [u8; 32])
        requires
            self.wf(),
        ensures
            r@ == compressed_encoding(self.generator@),
    {
        self.generator.to_compressed()
    }

    /// Decodes an encoding; the encoding of parameters gives them back.
    pub fn from_bytes(b: &[u8]) -> (r: Result<Parameters, CryptoError>)
        ensures
            r is Ok ==> r->Ok_0.wf(),
            r is Err ==> r == Err::<Parameters, CryptoError>(CryptoError::SerializationError),
            forall|pp: Parameters| pp.wf() && compressed_encoding(pp.generator@) == b@ ==> r == Ok::<
                Parameters,
                CryptoError,
            >(pp),
    {
        match Point::from_compressed(b) {
            Ok(generator) => Ok(Parameters { generator }),
            Err(e) => Err(e),
        }
    }
}

/// A message: a point of the group.
#[derive(Clone, Copy, Debug, PartialEq, Eq)]
pub struct Plaintext(pub Point);

/// A ciphertext `(u, v)`.
#[derive(Clone, Copy, Debug, PartialEq, Eq)]
pub struct Ciphertext(pub Point, pub Point);

impl Plaintext {
    pub open spec fn wf(&self) -> bool {
        self.0.wf()
    }

    /// The identity message.
    pub fn zero() -> (r: Plaintext)
        ensures
            r.wf(),
            r.0@ == identity_view(),
    {
        Plaintext(Point::identity())
    }

    /// Whether this is the identity message.
    pub fn is_zero(&self) -> (r: bool)
        ensures
            r == (self.0@ == identity_view()),
    {
        self.0.equals(&Point::identity())
    }

    /// The sum of two messages.
    pub fn add(&self, o: &Plaintext) -> (r: Plaintext)
        requires
            self.wf(),
            o.wf(),
        ensures
            r.wf(),
            r.0@ == g1_add_of(self.0@, o.0@),
    {
        Plaintext(self.0.add(&o.0))
    }

    /// A message times a scalar.
    pub fn mul(&self, s: &Scalar) -> (r: Plaintext)
        requires
            self.wf(),
            s.wf(),
        ensures
            r.wf(),
            r.0@ == g1_mul_of(self.0@, s@),
    {
        Plaintext(self.0.mul(s))
    }
}

/// The encryption of `m` under `pk` with randomness `r`.
pub open spec fn encryption(g: PointView, pk: PointView, m: PointView, r: int) -> (PointView, PointView) {
    (g1_mul_of(g, r), g1_add_of(m, g1_mul_of(pk, r)))
}

/// The decryption of `(u, v)` with `sk`: `v - sk * u`.
pub open spec fn decryption(sk: int, u: PointView, v: PointView) -> PointView {
    g1_add_of(v, neg_view(g1_mul_of(u, sk)))
}

impl Ciphertext {
    pub open spec fn wf(&self) -> bool {
        self.0.wf() && self.1.wf()
    }

    /// `(O, O)`, the identity of the ciphertext group.
    pub fn zero() -> (r: Ciphertext)
        ensures
            r.wf(),
            r.0@ == identity_view(),
            r.1@ == identity_view(),
    {
        Ciphertext(Point::identity(), Point::identity())
    }

    /// Whether this is `(O, O)`.
    pub fn is_zero(&self) -> (r: bool)
        ensures
            r == (self.0@ == identity_view() && self.1@ == identity_view()),
    {
        let z = Point::identity();
        self.0.equals(&z) && self.1.equals(&z)
    }

    /// Componentwise sum.
    pub fn add(&self, o: &Ciphertext) -> (r: Ciphertext)
        requires
            self.wf(),
            o.wf(),
        ensures
            r.wf(),
            r.0@ == g1_add_of(self.0@, o.0@),
            r.1@ == g1_add_of(self.1@, o.1@),
    {
        Ciphertext(self.0.add(&o.0), self.1.add(&o.1))
    }

    /// Componentwise product with a scalar.
    pub fn mul(&self, s: &Scalar) -> (r: Ciphertext)
        requires
            self.wf(),
            s.wf(),
        ensures
            r.wf(),
            r.0@ == g1_mul_of(self.0@, s@),
            r.1@ == g1_mul_of(self.1@, s@),
    {
        Ciphertext(self.0.mul(s), self.1.mul(s))
    }

    /// The sum of ciphertexts, added from the first to the last.
    pub fn sum(cs: &Vec<Ciphertext>) -> (r: Ciphertext)
        requires
            forall|i: int| 0 <= i < cs.len() ==> cs[i].wf(),
        ensures
            r.wf(),
            r.0@ == sum_points(cs@.map_values(|c: Ciphertext| c.0@)),
            r.1@ == sum_points(cs@.map_values(|c: Ciphertext| c.1@)),
    {
        let mut acc = Ciphertext::zero();
        let mut i: usize = 0;
        while i < cs.len()
            invariant
                0 <= i <= cs.len(),
                forall|j: int| 0 <= j < cs.len() ==> cs[j].wf(),
                acc.wf(),
                acc.0@ == sum_points(cs@.subrange(0, i as int).map_values(|c: Ciphertext| c.0@)),
                acc.1@ == sum_points(cs@.subrange(0, i as int).map_values(|c: Ciphertext| c.1@)),
            decreases cs.len() - i,
        {
            let ghost prev0 = cs@.subrange(0, i as int).map_values(|c: Ciphertext| c.0@);
            let ghost prev1 = cs@.subrange(0, i as int).map_values(|c: Ciphertext| c.1@);
            acc = acc.add(&cs[i]);
            proof {
                let s0 = cs@.subrange(0, i + 1).map_values(|c: Ciphertext| c.0@);
                let s1 = cs@.subrange(0, i + 1).map_values(|c: Ciphertext| c.1@);
                assert(s0.drop_last() =~= prev0);
                assert(s1.drop_last() =~= prev1);
                assert(s0.last() == cs@[i as int].0@);
                assert(s1.last() == cs@[i as int].1@);
            }
            i = i + 1;
        }
        assert(cs@.subrange(0, cs.len() as int) =~= cs@);
        acc
    }
}

/// The encoding of a ciphertext: the compressed `u`, then the compressed `v`.
pub open spec fn ciphertext_encoding(c: Ciphertext) -> Seq<u8> {
    compressed_encoding(c.0@) + compressed_encoding(c.1@)
}

impl Ciphertext {
    /// The encoding.
    pub fn to_bytes(&self) -> (r: Vec<u8>)
        requires
            self.wf(),
        ensures
            r@ == ciphertext_encoding(*self),
    {
        let mut r: Vec<u8> = Vec::new();
        append_bytes(&mut r, &self.0.to_compressed());
        append_bytes(&mut r, &self.1.to_compressed());
        r
    }

    /// The size of the encoding.
    pub fn serialized_size(&self) -> (r: usize)
        ensures
            r == ciphertext_encoding(*self).len(),
    {
        proof {
            lemma_le_bytes_len(if self.0@.2 { 0 } else { self.0@.0 }, 32);
            lemma_le_bytes_len(if self.1@.2 { 0 } else { self.1@.0 }, 32);
        }
        64
    }

    /// Decodes an encoding; the encoding of a ciphertext gives it back.
    pub fn from_bytes(b: &[u8]) -> (r: Result<Ciphertext, CryptoError>)
        ensures
            r is Ok ==> r->Ok_0.wf(),
            r is Err ==> r == Err::<Ciphertext, CryptoError>(CryptoError::SerializationError),
            forall|c: Ciphertext| c.wf() && ciphertext_encoding(c) == b@ ==> r == Ok::<Ciphertext, CryptoError>(c),
    {
        if b.len() != 64 {
            proof {
                assert forall|c: Ciphertext| c.wf() && ciphertext_encoding(c) == b@ implies false by {
                    lemma_le_bytes_len(if c.0@.2 { 0 } else { c.0@.0 }, 32);
                    lemma_le_bytes_len(if c.1@.2 { 0 } else { c.1@.0 }, 32);
                }
            }
            return Err(CryptoError::SerializationError);
        }
        let u = match decode_point_at(b, 0) {
            Ok(p) => p,
            Err(e) => {
                proof {
                    lemma_no_ciphertext(b@);
                }
                return Err(e);
            },
        };
        let v = match decode_point_at(b, 1) {
            Ok(p) => p,
            Err(e) => {
                proof {
                    lemma_no_ciphertext(b@);
                }
                return Err(e);
            },
        };
        let r = Ciphertext(u, v);
        proof {
            assert forall|c: Ciphertext| c.wf() && ciphertext_encoding(c) == b@ implies r == c by {
                lemma_ciphertext_parts(c, b@);
            }
        }
        Ok(r)
    }
}

/// The two halves of a ciphertext's encoding are its two compressed points.
pub proof fn lemma_ciphertext_parts(c: Ciphertext, b: Seq<u8>)
    requires
        ciphertext_encoding(c) == b,
    ensures
        b.len() == 64,
        b.subrange(0, 32) == compressed_encoding(c.0@),
        b.subrange(32, 64) == compressed_encoding(c.1@),
{
    lemma_le_bytes_len(if c.0@.2 { 0 } else { c.0@.0 }, 32);
    lemma_le_bytes_len(if c.1@.2 { 0 } else { c.1@.0 }, 32);
    assert(b.subrange(0, 32) =~= compressed_encoding(c.0@));
    assert(b.subrange(32, 64) =~= compressed_encoding(c.1@));
}

proof fn lemma_no_ciphertext(b: Seq<u8>)
    ensures
        forall|c: Ciphertext|
            c.wf() && ciphertext_encoding(c) == b ==> b.len() == 64 && b.subrange(0, 32) == compressed_encoding(c.0@)
                && b.subrange(32, 64) == compressed_encoding(c.1@),
{
    assert forall|c: Ciphertext| c.wf() && ciphertext_encoding(c) == b implies b.len() == 64 && b.subrange(0, 32)
        == compressed_encoding(c.0@) && b.subrange(32, 64) == compressed_encoding(c.1@) by {
        lemma_ciphertext_parts(c, b);
    }
}

/// The sum `((O + p_0) + p_1) + ...` of a sequence of points.
pub open spec fn sum_points(ps: Seq<PointView>) -> PointView
    decreases ps.len(),
{
    if ps.len() == 0 {
        identity_view()
    } else {
        g1_add_of(sum_points(ps.drop_last()), ps.last())
    }
}

/// The ElGamal scheme.
pub struct ElGamal;

impl ElGamal {
    /// The parameters with the generator `generator`.
    pub fn setup(generator: &Point) -> (r: Result<Parameters, CryptoError>)
        ensures
            r == Ok::<Parameters, CryptoError>(Parameters { generator: *generator }),
    {
        Ok(Parameters { generator: *generator })
    }

    /// The key pair `(sk * G, sk)` of the secret key `secret_key`.
    pub fn keygen(pp: &Parameters, secret_key: &Scalar) -> (r: Result<(Point, Scalar), CryptoError>)
        requires
            pp.wf(),
            secret_key.wf(),
        ensures
            r is Ok,
            r->Ok_0.0.wf(),
            r->Ok_0.0@ == g1_mul_of(pp.generator@, secret_key@),
            r->Ok_0.1 == *secret_key,
    {
        Ok((pp.generator.mul(secret_key), *secret_key))
    }

    /// `(r * G, m + r * pk)`.
    pub fn encrypt(pp: &Parameters, pk: &Point, message: &Plaintext, r: &Scalar) -> (c: Result<Ciphertext, CryptoError>)
        requires
            pp.wf(),
            pk.wf(),
            message.wf(),
            r.wf(),
        ensures
            c is Ok,
            c->Ok_0.wf(),
            (c->Ok_0.0@, c->Ok_0.1@) == encryption(pp.generator@, pk@, message.0@, r@),
    {
        let s = pk.mul(r);
        let c1 = pp.generator.mul(r);
        let c2 = message.0.add(&s);
        Ok(Ciphertext(c1, c2))
    }

    /// `v - sk * u`.
    pub fn decrypt(pp: &Parameters, sk: &Scalar, ciphertext: &Ciphertext) -> (m: Result<Plaintext, CryptoError>)
        requires
            sk.wf(),
            ciphertext.wf(),
        ensures
            m is Ok,
            m->Ok_0.wf(),
            m->Ok_0.0@ == decryption(sk@, ciphertext.0@, ciphertext.1@),
    {
        let s = ciphertext.0.mul(sk);
        let m = ciphertext.1.add(&s.neg());
        Ok(Plaintext(m))
    }
}

/// Decryption undoes encryption: `decrypt(sk, encrypt(sk * G, m, r)) = m`.
pub proof fn lemma_decrypt_encrypt(g: PointView, sk: int, m: PointView, r: int)
    requires
        group_laws(),
        valid_point(g),
        valid_point(m),
        is_scalar(sk),
        is_scalar(r),
    ensures
        ({
            let c = encryption(g, g1_mul_of(g, sk), m, r);
            decryption(sk, c.0, c.1) == m
        }),
{
    reveal(group_laws);
    let s = g1_mul_of(g, (sk * r) % group_order());
    assert(sk * r == r * sk) by (nonlinear_arith);
    assert(g1_mul_of(g1_mul_of(g, sk), r) == s);
    assert(g1_mul_of(g1_mul_of(g, r), sk) == s);
    assert(is_scalar((sk * r) % group_order()));
    assert(valid_point(s));
    crate::algebra::lemma_neg_valid(s);
    assert(g1_add_of(g1_add_of(m, s), neg_view(s)) == g1_add_of(m, g1_add_of(s, neg_view(s))));
}

} // verus!
