//! Canonical byte encodings: little-endian field elements, compressed
//! points, and `u32` length prefixes.
use crate::error::CryptoError;
use crate::field::{group_order, le_value, Scalar};
use crate::group::{base_modulus, Point, PointView};
use ark_bn254::{Fq, Fr, G1Affine};
use ark_ff::{BigInteger, PrimeField};
use ark_serialize::{CanonicalDeserialize, CanonicalSerialize};
use vstd::prelude::*;

verus! {

#[verifier::external_type_specification]
#[verifier::external_body]
pub struct ExSerializationError(ark_serialize::SerializationError);

/// The two flag bits that the compressed form keeps in the top of its last
/// byte: `0x40` for the identity, `0x80` for a point whose `y` exceeds `-y`.
pub open spec fn compressed_flags(p: PointView) -> int {
    if p.2 {
        64
    } else if 2 * p.1 > base_modulus() {
        128
    } else {
        0
    }
}

/// The `n` little-endian base-256 digits of `v`.
pub open spec fn le_bytes(v: int, n: nat) -> Seq<u8>
    decreases n,
{
    if n == 0 {
        seq![]
    } else {
        seq![(v % 256) as u8] + le_bytes(v / 256, (n - 1) as nat)
    }
}

/// The compressed encoding of a point: the 32 little-endian bytes of `x`
/// (zero for the identity) with the flags added to the last byte, whose top two
/// bits a coordinate below p leaves free.
pub open spec fn compressed_encoding(p: PointView) -> Seq<u8> {
    let b = le_bytes(if p.2 { 0 } else { p.0 }, 32);
    b.update(31, (b[31] + compressed_flags(p)) as u8)
}

/// The four little-endian bytes of a `u32`.
pub open spec fn u32_le(v: u32) -> Seq<u8> {
    seq![
        (v % 256) as u8,
        ((v / 256) % 256) as u8,
        ((v / 65536) % 256) as u8,
        (v / 16777216) as u8,
    ]
}

/// Relies on `CanonicalSerialize::serialize_compressed` for `G1Affine`.
#[verifier::external_body]
fn serialize_point(p: &Point) -> (r: [u8; 32])
    requires
        p.wf(),
    ensures
        r@ == compressed_encoding(p@),
{
    let a = G1Affine { x: Fq::from_le_bytes_mod_order(&p.x), y: Fq::from_le_bytes_mod_order(&p.y), infinity: p.infinity };
    let mut r = [0u8; 32];
    a.serialize_compressed(&mut r[..]).unwrap();
    r
}

/// Relies on `CanonicalDeserialize::deserialize_compressed` for `G1Affine`:
/// it reads `x` and the flags, recovers `y` of the sign the flags give, and checks
/// that the point is on the curve.
#[verifier::external_body]
fn deserialize_point(b: &[u8]) -> (r: Result<Point, ark_serialize::SerializationError>)
    ensures
        r is Ok ==> r->Ok_0.wf(),
        forall|q: Point| q.wf() && compressed_encoding(q@) == b@ ==> r is Ok && r->Ok_0 == q,
{
    let q = G1Affine::deserialize_compressed(b)?;
    Ok(Point { x: q.x.into_bigint().to_bytes_le().try_into().unwrap(), y: q.y.into_bigint().to_bytes_le().try_into().unwrap(), infinity: q.infinity })
}

/// Relies on `CanonicalDeserialize::deserialize_compressed` for `Fr`: it reads 32
/// little-endian bytes and refuses a value that is not below r.
#[verifier::external_body]
fn deserialize_scalar(b: &[u8]) -> (r: Result<Scalar, ark_serialize::SerializationError>)
    ensures
        r is Ok ==> b@.len() >= 32 && r->Ok_0.bytes@ == b@.take(32) && r->Ok_0.wf(),
        b@.len() >= 32 && le_value(b@.take(32)) < group_order() ==> r is Ok,
{
    let f = Fr::deserialize_compressed(b)?;
    Ok(Scalar { bytes: f.into_bigint().to_bytes_le().try_into().unwrap() })
}

impl Point {
    /// The compressed encoding.
    pub fn to_compressed(&self) -> (r: [u8; 32])
        requires
            self.wf(),
        ensures
            r@ == compressed_encoding(self@),
    {
        serialize_point(self)
    }

    /// Decodes a compressed encoding; the identity, or a point on the curve.
    pub fn from_compressed(b: &[u8]) -> (r: Result<Point, CryptoError>)
        ensures
            r is Ok ==> r->Ok_0.wf(),
            r matches Err(CryptoError::SerializationError) || r is Ok,
            forall|q: Point| q.wf() && compressed_encoding(q@) == b@ ==> r is Ok && r->Ok_0 == q,
    {
        match deserialize_point(b) {
            Ok(p) => Ok(p),
            Err(_) => Err(CryptoError::SerializationError),
        }
    }
}

impl Scalar {
    /// Decodes 32 little-endian bytes holding a value below r.
    pub fn from_bytes(b: &[u8]) -> (r: Result<Scalar, CryptoError>)
        ensures
            r is Ok <==> b@.len() == 32 && le_value(b@) < group_order(),
            r is Ok ==> r->Ok_0.wf() && r->Ok_0.bytes@ == b@,
            r matches Err(CryptoError::SerializationError) || r is Ok,
    {
        if b.len() != 32 {
            return Err(CryptoError::SerializationError);
        }
        proof {
            assert(b@.take(32) =~= b@);
        }
        match deserialize_scalar(b) {
            Ok(s) => Ok(s),
            Err(_) => Err(CryptoError::SerializationError),
        }
    }
}

/// The little-endian bytes of a `u32`.
pub fn u32_to_le(v: u32) -> (r: [u8; 4])
    ensures
        r@ == u32_le(v),
{
    let r = [(v % 256) as u8, ((v / 256) % 256) as u8, ((v / 65536) % 256) as u8, (v / 16777216) as u8];
    assert(r@ =~= u32_le(v));
    r
}

/// Appends `b` to `buf`.
pub fn append_bytes(buf: &mut Vec<u8>, b: &[u8])
    ensures
        final(buf)@ == old(buf)@ + b@,
{
    let mut i: usize = 0;
    while i < b.len()
        invariant
            0 <= i <= b@.len(),
            buf@ == old(buf)@ + b@.subrange(0, i as int),
        decreases b@.len() - i,
    {
        buf.push(b[i]);
        i = i + 1;
        assert(buf@ =~= old(buf)@ + b@.subrange(0, i as int));
    }
    assert(b@.subrange(0, b@.len() as int) =~= b@);
}

/// The canonical encoding of a scalar: its 32 little-endian bytes.
pub open spec fn scalar_encoding(s: Scalar) -> Seq<u8> {
    s.bytes@
}

impl Scalar {
    /// The size of the encoding.
    pub fn serialized_size(&self) -> (r: usize)
        ensures
            r == scalar_encoding(*self).len(),
    {
        32
    }
}

impl Point {
    /// The size of the compressed encoding.
    pub fn serialized_size(&self) -> (r: usize)
        ensures
            r == compressed_encoding(self@).len(),
    {
        proof {
            lemma_le_bytes_len(if self@.2 { 0 } else { self@.0 }, 32);
        }
        32
    }
}

/// `le_bytes(v, n)` has `n` bytes.
pub proof fn lemma_le_bytes_len(v: int, n: nat)
    ensures
        le_bytes(v, n).len() == n,
    decreases n,
{
    if n > 0 {
        lemma_le_bytes_len(v / 256, (n - 1) as nat);
    }
}

/// Decodes the compressed points of `b[32 * i .. 32 * i + 32]`.
pub fn decode_point_at(b: &[u8], i: usize) -> (r: Result<Point, CryptoError>)
    requires
        i < 3,
        32 * i + 32 <= b@.len(),
    ensures
        r is Ok ==> r->Ok_0.wf(),
        r is Err ==> r == Err::<Point, CryptoError>(CryptoError::SerializationError),
        forall|q: Point|
            q.wf() && compressed_encoding(q@) == b@.subrange(32 * i, 32 * i + 32) ==> r == Ok::<Point, CryptoError>(q),
{
    Point::from_compressed(sub_slice(b, 32 * i, 32 * i + 32))
}

/// Decodes the scalar of `b[32 * i .. 32 * i + 32]`.
pub fn decode_scalar_at(b: &[u8], i: usize) -> (r: Result<Scalar, CryptoError>)
    requires
        i < 3,
        32 * i + 32 <= b@.len(),
    ensures
        r is Ok ==> r->Ok_0.wf(),
        r is Err ==> r == Err::<Scalar, CryptoError>(CryptoError::SerializationError),
        forall|s: Scalar| s.wf() && scalar_encoding(s) == b@.subrange(32 * i, 32 * i + 32) ==> r == Ok::<Scalar, CryptoError>(s),
{
    let r = Scalar::from_bytes(sub_slice(b, 32 * i, 32 * i + 32));
    assert forall|s: Scalar| s.wf() && scalar_encoding(s) == b@.subrange(32 * i, 32 * i + 32) implies r == Ok::<Scalar, CryptoError>(s) by {
        let t = r->Ok_0;
        assert(t.bytes@ == s.bytes@);
        assert(t.bytes =~= s.bytes);
    }
    r
}

/// The sub-slice `b[i..j]`.
pub fn sub_slice(b: &[u8], i: usize, j: usize) -> (r: &[u8])
    requires
        i <= j <= b@.len(),
    ensures
        r@ == b@.subrange(i as int, j as int),
{
    vstd::slice::slice_subrange(b, i, j)
}

/// Reads a `u32` from its four little-endian bytes at `b[start..start + 4]`.
pub fn u32_from_le_at(b: &[u8], start: usize) -> (r: u32)
    requires
        start + 4 <= b@.len(),
    ensures
        forall|v: u32| b@.subrange(start as int, start + 4) == u32_le(v) ==> r == v,
{
    let r = b[start] as u32 + 256 * (b[start + 1] as u32) + 65536 * (b[start + 2] as u32) + 16777216 * (
    b[start + 3] as u32);
    proof {
        assert forall|v: u32| b@.subrange(start as int, start + 4) == u32_le(v) implies r == v by {
            assert(b@[start as int] == u32_le(v)[0]);
            assert(b@[start + 1] == u32_le(v)[1]);
            assert(b@[start + 2] == u32_le(v)[2]);
            assert(b@[start + 3] == u32_le(v)[3]);
            lemma_u32_le_value(v);
        }
    }
    r
}

/// The four bytes of `u32_le(v)` add back up to `v`.
pub proof fn lemma_u32_le_value(v: u32)
    ensures
        u32_le(v)[0] + 256 * u32_le(v)[1] + 65536 * u32_le(v)[2] + 16777216 * u32_le(v)[3] == v,
{
    let x = v as int;
    assert(x == x % 256 + 256 * ((x / 256) % 256) + 65536 * ((x / 65536) % 256) + 16777216 * (x / 16777216))
        by (nonlinear_arith)
        requires
            0 <= x < 4294967296,
    {
        vstd::arithmetic::div_mod::lemma_fundamental_div_mod(x, 256);
        vstd::arithmetic::div_mod::lemma_fundamental_div_mod(x / 256, 256);
        vstd::arithmetic::div_mod::lemma_fundamental_div_mod(x / 65536, 256);
        vstd::arithmetic::div_mod::lemma_div_denominator(x, 256, 256);
        vstd::arithmetic::div_mod::lemma_div_denominator(x, 65536, 256);
    }
}

/// Decodes the compressed point of `b[off..off + 32]`.
pub fn decode_point_from(b: &[u8], off: usize) -> (r: Result<Point, CryptoError>)
    requires
        off + 32 <= b@.len(),
    ensures
        r is Ok ==> r->Ok_0.wf(),
        r is Err ==> r == Err::<Point, CryptoError>(CryptoError::SerializationError),
        forall|q: Point|
            q.wf() && compressed_encoding(q@) == b@.subrange(off as int, off + 32) ==> r == Ok::<Point, CryptoError>(q),
{
    let blen = b.len();
    assert(off + 32 <= blen);
    Point::from_compressed(sub_slice(b, off, off + 32))
}

/// Decodes the scalar of `b[off..off + 32]`.
pub fn decode_scalar_from(b: &[u8], off: usize) -> (r: Result<Scalar, CryptoError>)
    requires
        off + 32 <= b@.len(),
    ensures
        r is Ok ==> r->Ok_0.wf(),
        r is Err ==> r == Err::<Scalar, CryptoError>(CryptoError::SerializationError),
        forall|s: Scalar| s.wf() && scalar_encoding(s) == b@.subrange(off as int, off + 32) ==> r == Ok::<Scalar, CryptoError>(s),
{
    let blen = b.len();
    assert(off + 32 <= blen);
    let r = Scalar::from_bytes(sub_slice(b, off, off + 32));
    assert forall|s: Scalar| s.wf() && scalar_encoding(s) == b@.subrange(off as int, off + 32) implies r == Ok::<Scalar, CryptoError>(s) by {
        assert(r->Ok_0.bytes =~= s.bytes);
    }
    r
}

/// A sub-range of a sub-range.
pub proof fn lemma_subrange_of_subrange(b: Seq<u8>, s: int, e: int, i: int, j: int)
    requires
        0 <= s <= e <= b.len(),
        0 <= i <= j <= e - s,
    ensures
        b.subrange(s, e).subrange(i, j) == b.subrange(s + i, s + j),
{
    assert(b.subrange(s, e).subrange(i, j) =~= b.subrange(s + i, s + j));
}

/// The encodings of a sequence of scalars, one after the other.
pub open spec fn scalars_encoding(ps: Seq<Scalar>) -> Seq<u8>
    decreases ps.len(),
{
    if ps.len() == 0 {
        seq![]
    } else {
        scalars_encoding(ps.drop_last()) + scalar_encoding(ps.last())
    }
}

/// A sequence of scalars as a `u32` count followed by their encodings.
pub open spec fn scalar_vec_encoding(ps: Seq<Scalar>) -> Seq<u8> {
    u32_le(ps.len() as u32) + scalars_encoding(ps)
}

/// Encodes a sequence of scalars as a `u32` count followed by their encodings.
pub fn encode_scalars(ps: &Vec<Scalar>) -> (r: Vec<u8>)
    requires
        forall|i: int| 0 <= i < ps.len() ==> ps[i].wf(),
    ensures
        r@ == scalar_vec_encoding(ps@),
{
    let mut r: Vec<u8> = Vec::new();
    append_bytes(&mut r, &u32_to_le(ps.len() as u32));
    let mut i: usize = 0;
    while i < ps.len()
        invariant
            0 <= i <= ps.len(),
            forall|j: int| 0 <= j < ps.len() ==> ps[j].wf(),
            r@ == u32_le(ps.len() as u32) + scalars_encoding(ps@.subrange(0, i as int)),
        decreases ps.len() - i,
    {
        let ghost prev = ps@.subrange(0, i as int);
        append_bytes(&mut r, &ps[i].to_bytes());
        proof {
            let next = ps@.subrange(0, i + 1);
            assert(next.drop_last() =~= prev);
            assert(next.last() == ps@[i as int]);
        }
        i = i + 1;
    }
    assert(ps@.subrange(0, ps.len() as int) =~= ps@);
    r
}

/// The concatenated encodings have 32 bytes a scalar, the `i`-th at `32 * i`.
pub proof fn lemma_scalars_encoding_parts(ps: Seq<Scalar>)
    ensures
        scalars_encoding(ps).len() == 32 * ps.len(),
        forall|i: int|
            0 <= i < ps.len() ==> scalars_encoding(ps).subrange(32 * i, 32 * i + 32) == scalar_encoding(
                #[trigger] ps[i],
            ),
    decreases ps.len(),
{
    if ps.len() > 0 {
        let pre = ps.drop_last();
        lemma_scalars_encoding_parts(pre);
        let e = scalars_encoding(ps);
        assert forall|i: int| 0 <= i < ps.len() implies e.subrange(32 * i, 32 * i + 32) == scalar_encoding(
            #[trigger] ps[i],
        ) by {
            if i < pre.len() {
                assert(pre[i] == ps[i]);
                assert(e.subrange(32 * i, 32 * i + 32) =~= scalars_encoding(pre).subrange(32 * i, 32 * i + 32));
            } else {
                assert(e.subrange(32 * i, 32 * i + 32) =~= scalar_encoding(ps.last()));
            }
        }
    }
}

/// All the scalars of a sequence are well formed.
pub open spec fn scalars_wf(ps: Seq<Scalar>) -> bool {
    forall|i: int| 0 <= i < ps.len() ==> ps[i].wf()
}

/// `b[start..]` begins with the encoding of the sequence `ps`.
pub open spec fn holds_scalars_at(b: Seq<u8>, start: int, ps: Seq<Scalar>) -> bool {
    &&& scalars_wf(ps)
    &&& ps.len() < 4294967296
    &&& 0 <= start
    &&& start + 4 + 32 * ps.len() <= b.len()
    &&& b.subrange(start, start + 4 + 32 * ps.len()) == scalar_vec_encoding(ps)
}

/// Where the encoding of `ps` stands at `b[start..]`: its count, then each point.
pub proof fn lemma_holds_scalars_parts(b: Seq<u8>, start: int, ps: Seq<Scalar>)
    requires
        holds_scalars_at(b, start, ps),
    ensures
        b.subrange(start, start + 4) == u32_le(ps.len() as u32),
        forall|i: int|
            0 <= i < ps.len() ==> b.subrange(start + 4 + 32 * i, start + 4 + 32 * i + 32) == scalar_encoding(
                #[trigger] ps[i],
            ),
{
    let n = ps.len() as int;
    let whole = b.subrange(start, start + 4 + 32 * n);
    lemma_scalars_encoding_parts(ps);
    lemma_subrange_of_subrange(b, start, start + 4 + 32 * n, 0, 4);
    assert(whole.subrange(0, 4) =~= u32_le(ps.len() as u32));
    assert forall|i: int| 0 <= i < ps.len() implies b.subrange(start + 4 + 32 * i, start + 4 + 32 * i + 32)
        == scalar_encoding(#[trigger] ps[i]) by {
        lemma_subrange_of_subrange(b, start, start + 4 + 32 * n, 4 + 32 * i, 4 + 32 * i + 32);
        assert(whole.subrange(4 + 32 * i, 4 + 32 * i + 32) =~= scalars_encoding(ps).subrange(
            32 * i,
            32 * i + 32,
        ));
        assert(ps[i] == ps[i]);
    }
}

/// Decodes a sequence of scalars encoded at `b[start..]`, and where it ends.
pub fn decode_scalars(b: &[u8], start: usize) -> (r: Result<(Vec<Scalar>, usize), CryptoError>)
    requires
        start <= b@.len(),
    ensures
        r is Ok ==> scalars_wf(r->Ok_0.0@) && start <= r->Ok_0.1 <= b@.len(),
        r is Err ==> r == Err::<(Vec<Scalar>, usize), CryptoError>(CryptoError::SerializationError),
        forall|ps: Seq<Scalar>|
            holds_scalars_at(b@, start as int, ps) ==> r is Ok && r->Ok_0.0@ == ps && r->Ok_0.1 == start + 4 + 32
                * ps.len(),
{
    let blen = b.len();
    if blen - start < 4 {
        proof {
            assert forall|ps: Seq<Scalar>| holds_scalars_at(b@, start as int, ps) implies false by {}
        }
        return Err(CryptoError::SerializationError);
    }
    let count = u32_from_le_at(b, start) as usize;
    proof {
        assert forall|ps: Seq<Scalar>| holds_scalars_at(b@, start as int, ps) implies ps.len() == count by {
            lemma_holds_scalars_parts(b@, start as int, ps);
        }
    }
    let avail = (blen - start - 4) / 32;
    if count > avail {
        proof {
            assert forall|ps: Seq<Scalar>| holds_scalars_at(b@, start as int, ps) implies false by {
                assert(32 * ps.len() <= blen - start - 4);
                assert((blen - start - 4) / 32 >= ps.len()) by (nonlinear_arith)
                    requires
                        32 * ps.len() <= blen - start - 4,
                ;
            }
        }
        return Err(CryptoError::SerializationError);
    }
    proof {
        assert(32 * avail <= blen - start - 4) by (nonlinear_arith)
            requires
                avail == (blen - start - 4) / 32,
                blen - start - 4 >= 0,
        ;
    }
    let mut out: Vec<Scalar> = Vec::new();
    let mut i: usize = 0;
    while i < count
        invariant
            0 <= i <= count <= avail,
            32 * avail <= blen - start - 4,
            blen == b@.len(),
            start + 4 <= blen,
            scalars_wf(out@),
            out@.len() == i,
            forall|ps: Seq<Scalar>|
                #[trigger] holds_scalars_at(b@, start as int, ps) ==> ps.len() == count && out@ == ps.subrange(
                    0,
                    i as int,
                ),
        decreases count - i,
    {
        proof {
            assert(32 * i + 32 <= 32 * avail) by (nonlinear_arith)
                requires
                    i < avail,
            ;
        }
        let off = start + 4 + 32 * i;
        let p = match decode_scalar_from(b, off) {
            Ok(p) => p,
            Err(e) => {
                proof {
                    assert forall|ps: Seq<Scalar>| holds_scalars_at(b@, start as int, ps) implies false by {
                        lemma_holds_scalars_parts(b@, start as int, ps);
                        assert(ps[i as int].wf());
                    }
                }
                return Err(e);
            },
        };
        out.push(p);
        proof {
            assert forall|ps: Seq<Scalar>| #[trigger] holds_scalars_at(b@, start as int, ps) implies out@
                == ps.subrange(0, i + 1) by {
                lemma_holds_scalars_parts(b@, start as int, ps);
                assert(ps[i as int].wf());
                assert(out@ =~= ps.subrange(0, i + 1));
            }
        }
        i = i + 1;
    }
    proof {
        assert(32 * count <= 32 * avail) by (nonlinear_arith)
            requires
                count <= avail,
        ;
        assert forall|ps: Seq<Scalar>| holds_scalars_at(b@, start as int, ps) implies out@ == ps by {
            assert(ps.subrange(0, count as int) =~= ps);
        }
    }
    Ok((out, start + 4 + 32 * count))
}

} // verus!
