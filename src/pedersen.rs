//! Pedersen vector commitments: `commit(x, r) = r * h + sum_i x_i * g_i`
//! under the commit key `(g_1..g_n, h)`.
use crate::el_gamal::sum_points;
use crate::error::{is_length_error, CryptoError};
use crate::field::Scalar;
use crate::group::{g1_add_of, g1_mul_of, identity_view, msm, msm_sum, Point, PointView};
use crate::encoding::{
    append_bytes, compressed_encoding, decode_point_from, lemma_le_bytes_len, lemma_subrange_of_subrange, u32_from_le_at,
    u32_le, u32_to_le,
};
use vstd::prelude::*;

verus! {

/// The commit key: the generators `g` and the blinding generator `h`.
#[derive(Clone, Debug)]
pub struct CommitKey {
    pub g: Vec<Point>,
    pub h: Point,
}

impl CommitKey {
    pub fn new(g: Vec<Point>, h: Point) -> (r: CommitKey)
        ensures
            r.g@ == g@,
            r.h == h,
    {
        CommitKey { g, h }
    }

    pub open spec fn wf(&self) -> bool {
        &&& self.h.wf()
        &&& forall|i: int| 0 <= i < self.g.len() ==> self.g[i].wf()
    }
}

/// A commitment: a point of the group.
#[derive(Clone, Copy, Debug, PartialEq, Eq)]
pub struct Commitment(pub Point);

/// The points of a sequence of points.
pub open spec fn point_views(ps: Seq<Point>) -> Seq<PointView> {
    ps.map_values(|p: Point| p@)
}

/// The values of a sequence of scalars.
pub open spec fn scalar_views(xs: Seq<Scalar>) -> Seq<int> {
    xs.map_values(|s: Scalar| s@)
}

/// The commitment to `x` with randomness `r`: the multi-scalar product of
/// `(r, x_1, .., x_k)` with `(h, g_1, .., g_n)`.
pub open spec fn pedersen_commitment(g: Seq<PointView>, h: PointView, x: Seq<int>, r: int) -> PointView {
    msm_sum(seq![h] + g, seq![r] + x)
}

/// The Pedersen commitment scheme.
pub struct PedersenCommitment;

impl PedersenCommitment {
    /// Commits to `x` with randomness `r`; refuses more values than the key
    /// has generators.
    pub fn commit(commit_key: &CommitKey, x: &Vec<Scalar>, r: Scalar) -> (c: Result<Commitment, CryptoError>)
        requires
            commit_key.wf(),
            r.wf(),
            forall|i: int| 0 <= i < x.len() ==> x[i].wf(),
        ensures
            c is Err <==> x.len() > commit_key.g.len(),
            c is Err ==> is_length_error(c->Err_0, "Pedersen"@, x.len(), commit_key.g.len()),
            c is Ok ==> c->Ok_0.0.wf() && c->Ok_0.0@ == pedersen_commitment(
                point_views(commit_key.g@),
                commit_key.h@,
                scalar_views(x@),
                r@,
            ),
    {
        if x.len() > commit_key.g.len() {
            return Err(CryptoError::CommitmentLengthError("Pedersen".to_owned(), x.len(), commit_key.g.len()));
        }
        let mut scalars: Vec<Scalar> = Vec::new();
        scalars.push(r);
        let mut bases: Vec<Point> = Vec::new();
        bases.push(commit_key.h);
        let mut i: usize = 0;
        while i < commit_key.g.len()
            invariant
                0 <= i <= commit_key.g.len(),
                commit_key.wf(),
                bases@ == seq![commit_key.h] + commit_key.g@.subrange(0, i as int),
            decreases commit_key.g.len() - i,
        {
            bases.push(commit_key.g[i]);
            i = i + 1;
            assert(bases@ =~= seq![commit_key.h] + commit_key.g@.subrange(0, i as int));
        }
        let mut j: usize = 0;
        while j < x.len()
            invariant
                0 <= j <= x.len(),
                forall|k: int| 0 <= k < x.len() ==> x[k].wf(),
                r.wf(),
                scalars@ == seq![r] + x@.subrange(0, j as int),
            decreases x.len() - j,
        {
            scalars.push(x[j]);
            j = j + 1;
            assert(scalars@ =~= seq![r] + x@.subrange(0, j as int));
        }
        proof {
            assert(commit_key.g@.subrange(0, commit_key.g.len() as int) =~= commit_key.g@);
            assert(x@.subrange(0, x.len() as int) =~= x@);
            assert(point_views(bases@) =~= seq![commit_key.h@] + point_views(commit_key.g@));
            assert(scalar_views(scalars@) =~= seq![r@] + scalar_views(x@));
        }
        Ok(Commitment(msm(&bases, &scalars)))
    }
}

impl Commitment {
    pub open spec fn wf(&self) -> bool {
        self.0.wf()
    }

    /// The commitment `O`.
    pub fn zero() -> (r: Commitment)
        ensures
            r.wf(),
            r.0@ == identity_view(),
    {
        Commitment(Point::identity())
    }

    /// Whether this is the commitment `O`.
    pub fn is_zero(&self) -> (r: bool)
        ensures
            r == (self.0@ == identity_view()),
    {
        self.0.equals(&Point::identity())
    }

    /// The sum of two commitments.
    pub fn add(&self, o: &Commitment) -> (r: Commitment)
        requires
            self.wf(),
            o.wf(),
        ensures
            r.wf(),
            r.0@ == g1_add_of(self.0@, o.0@),
    {
        Commitment(self.0.add(&o.0))
    }

    /// A commitment times a scalar.
    pub fn mul(&self, s: &Scalar) -> (r: Commitment)
        requires
            self.wf(),
            s.wf(),
        ensures
            r.wf(),
            r.0@ == g1_mul_of(self.0@, s@),
    {
        Commitment(self.0.mul(s))
    }

    /// The sum of commitments, added from the first to the last.
    pub fn sum(cs: &Vec<Commitment>) -> (r: Commitment)
        requires
            forall|i: int| 0 <= i < cs.len() ==> cs[i].wf(),
        ensures
            r.wf(),
            r.0@ == sum_points(cs@.map_values(|c: Commitment| c.0@)),
    {
        let mut acc = Commitment::zero();
        let mut i: usize = 0;
        while i < cs.len()
            invariant
                0 <= i <= cs.len(),
                forall|j: int| 0 <= j < cs.len() ==> cs[j].wf(),
                acc.wf(),
                acc.0@ == sum_points(cs@.subrange(0, i as int).map_values(|c: Commitment| c.0@)),
            decreases cs.len() - i,
        {
            let ghost prev = cs@.subrange(0, i as int).map_values(|c: Commitment| c.0@);
            acc = acc.add(&cs[i]);
            proof {
                let s = cs@.subrange(0, i + 1).map_values(|c: Commitment| c.0@);
                assert(s.drop_last() =~= prev);
                assert(s.last() == cs@[i as int].0@);
            }
            i = i + 1;
        }
        assert(cs@.subrange(0, cs.len() as int) =~= cs@);
        acc
    }
}

/// The points of a sequence of commitments.
pub open spec fn commitment_views(cs: Seq<Commitment>) -> Seq<PointView> {
    cs.map_values(|c: Commitment| c.0@)
}

/// `sum_i s_i * c_i`, added from the first term to the last.
pub open spec fn dot_commitments(s: Seq<int>, cs: Seq<PointView>) -> PointView
    decreases cs.len(),
{
    if cs.len() == 0 || s.len() == 0 {
        identity_view()
    } else {
        g1_add_of(dot_commitments(s.drop_last(), cs.drop_last()), g1_mul_of(cs.last(), s.last()))
    }
}

/// `sum_i scalars[i] * commitments[i]`; refuses sequences of different lengths.
pub fn dot_product(scalars: &Vec<Scalar>, commitments: &Vec<Commitment>) -> (r: Result<Commitment, CryptoError>)
    requires
        forall|i: int| 0 <= i < scalars.len() ==> scalars[i].wf(),
        forall|i: int| 0 <= i < commitments.len() ==> commitments[i].wf(),
    ensures
        r is Err <==> scalars.len() != commitments.len(),
        r is Err ==> r == Err::<Commitment, CryptoError>(CryptoError::InvalidLength),
        r is Ok ==> r->Ok_0.wf() && r->Ok_0.0@ == dot_commitments(scalar_views(scalars@), commitment_views(commitments@)),
{
    if scalars.len() != commitments.len() {
        return Err(CryptoError::InvalidLength);
    }
    let mut acc = Commitment::zero();
    let mut i: usize = 0;
    while i < scalars.len()
        invariant
            0 <= i <= scalars.len(),
            scalars.len() == commitments.len(),
            forall|j: int| 0 <= j < scalars.len() ==> scalars[j].wf(),
            forall|j: int| 0 <= j < commitments.len() ==> commitments[j].wf(),
            acc.wf(),
            acc.0@ == dot_commitments(
                scalar_views(scalars@.subrange(0, i as int)),
                commitment_views(commitments@.subrange(0, i as int)),
            ),
        decreases scalars.len() - i,
    {
        let ghost s0 = scalar_views(scalars@.subrange(0, i as int));
        let ghost c0 = commitment_views(commitments@.subrange(0, i as int));
        acc = acc.add(&commitments[i].mul(&scalars[i]));
        proof {
            let s1 = scalar_views(scalars@.subrange(0, i + 1));
            let c1 = commitment_views(commitments@.subrange(0, i + 1));
            assert(s1.drop_last() =~= s0);
            assert(c1.drop_last() =~= c0);
        }
        i = i + 1;
    }
    assert(scalars@.subrange(0, scalars.len() as int) =~= scalars@);
    assert(commitments@.subrange(0, commitments.len() as int) =~= commitments@);
    Ok(acc)
}

/// The compressed encodings of a sequence of points, one after the other.
pub open spec fn points_encoding(ps: Seq<PointView>) -> Seq<u8>
    decreases ps.len(),
{
    if ps.len() == 0 {
        seq![]
    } else {
        points_encoding(ps.drop_last()) + compressed_encoding(ps.last())
    }
}

/// A sequence of points as a `u32` count followed by their compressed encodings.
pub open spec fn point_vec_encoding(ps: Seq<PointView>) -> Seq<u8> {
    u32_le(ps.len() as u32) + points_encoding(ps)
}

/// The encoding of a commit key: its generators as a sequence, then `h`.
pub open spec fn commit_key_encoding(ck: CommitKey) -> Seq<u8> {
    point_vec_encoding(point_views(ck.g@)) + compressed_encoding(ck.h@)
}

/// Encodes a sequence of points as a `u32` count followed by their compressed encodings.
pub fn encode_points(ps: &Vec<Point>) -> (r: Vec<u8>)
    requires
        forall|i: int| 0 <= i < ps.len() ==> ps[i].wf(),
    ensures
        r@ == point_vec_encoding(point_views(ps@)),
{
    let mut r: Vec<u8> = Vec::new();
    append_bytes(&mut r, &u32_to_le(ps.len() as u32));
    let mut i: usize = 0;
    while i < ps.len()
        invariant
            0 <= i <= ps.len(),
            forall|j: int| 0 <= j < ps.len() ==> ps[j].wf(),
            r@ == u32_le(ps.len() as u32) + points_encoding(point_views(ps@.subrange(0, i as int))),
        decreases ps.len() - i,
    {
        let ghost prev = point_views(ps@.subrange(0, i as int));
        append_bytes(&mut r, &ps[i].to_compressed());
        proof {
            let next = point_views(ps@.subrange(0, i + 1));
            assert(next.drop_last() =~= prev);
            assert(next.last() == ps@[i as int]@);
        }
        i = i + 1;
    }
    assert(ps@.subrange(0, ps.len() as int) =~= ps@);
    r
}

impl CommitKey {
    /// The encoding of the key.
    pub fn to_bytes(&self) -> (r: Vec<u8>)
        requires
            self.wf(),
        ensures
            r@ == commit_key_encoding(*self),
    {
        let mut r = encode_points(&self.g);
        append_bytes(&mut r, &self.h.to_compressed());
        r
    }
}

/// Encodes a sequence of commitments as a sequence of points.
pub fn encode_commitments(cs: &Vec<Commitment>) -> (r: Vec<u8>)
    requires
        forall|i: int| 0 <= i < cs.len() ==> cs[i].wf(),
    ensures
        r@ == point_vec_encoding(commitment_views(cs@)),
{
    let mut ps: Vec<Point> = Vec::new();
    let mut i: usize = 0;
    while i < cs.len()
        invariant
            0 <= i <= cs.len(),
            forall|j: int| 0 <= j < cs.len() ==> cs[j].wf(),
            ps@.len() == i,
            forall|j: int| 0 <= j < i ==> ps@[j] == cs@[j].0,
        decreases cs.len() - i,
    {
        ps.push(cs[i].0);
        i = i + 1;
    }
    assert(point_views(ps@) =~= commitment_views(cs@));
    encode_points(&ps)
}

/// The concatenated encodings have 32 bytes a point, the `i`-th at `32 * i`.
pub proof fn lemma_points_encoding_parts(ps: Seq<PointView>)
    ensures
        points_encoding(ps).len() == 32 * ps.len(),
        forall|i: int|
            0 <= i < ps.len() ==> points_encoding(ps).subrange(32 * i, 32 * i + 32) == compressed_encoding(
                #[trigger] ps[i],
            ),
    decreases ps.len(),
{
    if ps.len() > 0 {
        let pre = ps.drop_last();
        lemma_points_encoding_parts(pre);
        lemma_le_bytes_len(if ps.last().2 { 0 } else { ps.last().0 }, 32);
        let e = points_encoding(ps);
        assert forall|i: int| 0 <= i < ps.len() implies e.subrange(32 * i, 32 * i + 32) == compressed_encoding(
            #[trigger] ps[i],
        ) by {
            if i < pre.len() {
                assert(pre[i] == ps[i]);
                assert(e.subrange(32 * i, 32 * i + 32) =~= points_encoding(pre).subrange(32 * i, 32 * i + 32));
            } else {
                assert(e.subrange(32 * i, 32 * i + 32) =~= compressed_encoding(ps.last()));
            }
        }
    }
}

/// All the points of a sequence are well formed.
pub open spec fn points_wf(ps: Seq<Point>) -> bool {
    forall|i: int| 0 <= i < ps.len() ==> ps[i].wf()
}

/// `b[start..]` begins with the encoding of the sequence `ps`.
pub open spec fn holds_points_at(b: Seq<u8>, start: int, ps: Seq<Point>) -> bool {
    &&& points_wf(ps)
    &&& ps.len() < 4294967296
    &&& 0 <= start
    &&& start + 4 + 32 * ps.len() <= b.len()
    &&& b.subrange(start, start + 4 + 32 * ps.len()) == point_vec_encoding(point_views(ps))
}

/// Where the encoding of `ps` stands at `b[start..]`: its count, then each point.
pub proof fn lemma_holds_points_parts(b: Seq<u8>, start: int, ps: Seq<Point>)
    requires
        holds_points_at(b, start, ps),
    ensures
        b.subrange(start, start + 4) == u32_le(ps.len() as u32),
        forall|i: int|
            0 <= i < ps.len() ==> b.subrange(start + 4 + 32 * i, start + 4 + 32 * i + 32) == compressed_encoding(
                (#[trigger] ps[i])@,
            ),
{
    let n = ps.len() as int;
    let whole = b.subrange(start, start + 4 + 32 * n);
    lemma_points_encoding_parts(point_views(ps));
    lemma_subrange_of_subrange(b, start, start + 4 + 32 * n, 0, 4);
    assert(whole.subrange(0, 4) =~= u32_le(ps.len() as u32));
    assert forall|i: int| 0 <= i < ps.len() implies b.subrange(start + 4 + 32 * i, start + 4 + 32 * i + 32)
        == compressed_encoding((#[trigger] ps[i])@) by {
        lemma_subrange_of_subrange(b, start, start + 4 + 32 * n, 4 + 32 * i, 4 + 32 * i + 32);
        assert(whole.subrange(4 + 32 * i, 4 + 32 * i + 32) =~= points_encoding(point_views(ps)).subrange(
            32 * i,
            32 * i + 32,
        ));
        assert(point_views(ps)[i] == ps[i]@);
    }
}

/// Decodes a sequence of points encoded at `b[start..]`, and where it ends.
pub fn decode_points(b: &[u8], start: usize) -> (r: Result<(Vec<Point>, usize), CryptoError>)
    requires
        start <= b@.len(),
    ensures
        r is Ok ==> points_wf(r->Ok_0.0@) && start <= r->Ok_0.1 <= b@.len(),
        r is Err ==> r == Err::<(Vec<Point>, usize), CryptoError>(CryptoError::SerializationError),
        forall|ps: Seq<Point>|
            holds_points_at(b@, start as int, ps) ==> r is Ok && r->Ok_0.0@ == ps && r->Ok_0.1 == start + 4 + 32
                * ps.len(),
{
    let blen = b.len();
    if blen - start < 4 {
        proof {
            assert forall|ps: Seq<Point>| holds_points_at(b@, start as int, ps) implies false by {}
        }
        return Err(CryptoError::SerializationError);
    }
    let count = u32_from_le_at(b, start) as usize;
    proof {
        assert forall|ps: Seq<Point>| holds_points_at(b@, start as int, ps) implies ps.len() == count by {
            lemma_holds_points_parts(b@, start as int, ps);
        }
    }
    let avail = (blen - start - 4) / 32;
    if count > avail {
        proof {
            assert forall|ps: Seq<Point>| holds_points_at(b@, start as int, ps) implies false by {
                assert(32 * ps.len() <= blen - start - 4);
                assert((blen - start - 4) / 32 >= ps.len()) by (nonlinear_arith)
                    requires
                        32 * ps.len() <= blen - start - 4,
                ;
            }
        }
        return Err(CryptoError::SerializationError);
    }
    proof {
        assert(32 * avail <= blen - start - 4) by (nonlinear_arith)
            requires
                avail == (blen - start - 4) / 32,
                blen - start - 4 >= 0,
        ;
    }
    let mut out: Vec<Point> = Vec::new();
    let mut i: usize = 0;
    while i < count
        invariant
            0 <= i <= count <= avail,
            32 * avail <= blen - start - 4,
            blen == b@.len(),
            start + 4 <= blen,
            points_wf(out@),
            out@.len() == i,
            forall|ps: Seq<Point>|
                #[trigger] holds_points_at(b@, start as int, ps) ==> ps.len() == count && out@ == ps.subrange(
                    0,
                    i as int,
                ),
        decreases count - i,
    {
        proof {
            assert(32 * i + 32 <= 32 * avail) by (nonlinear_arith)
                requires
                    i < avail,
            ;
        }
        let off = start + 4 + 32 * i;
        let p = match decode_point_from(b, off) {
            Ok(p) => p,
            Err(e) => {
                proof {
                    assert forall|ps: Seq<Point>| holds_points_at(b@, start as int, ps) implies false by {
                        lemma_holds_points_parts(b@, start as int, ps);
                        assert(ps[i as int].wf());
                    }
                }
                return Err(e);
            },
        };
        out.push(p);
        proof {
            assert forall|ps: Seq<Point>| #[trigger] holds_points_at(b@, start as int, ps) implies out@
                == ps.subrange(0, i + 1) by {
                lemma_holds_points_parts(b@, start as int, ps);
                assert(ps[i as int].wf());
                assert(out@ =~= ps.subrange(0, i + 1));
            }
        }
        i = i + 1;
    }
    proof {
        assert(32 * count <= 32 * avail) by (nonlinear_arith)
            requires
                count <= avail,
        ;
        assert forall|ps: Seq<Point>| holds_points_at(b@, start as int, ps) implies out@ == ps by {
            assert(ps.subrange(0, count as int) =~= ps);
        }
    }
    Ok((out, start + 4 + 32 * count))
}

/// The points of a sequence of commitments.
pub open spec fn commitment_points(cs: Seq<Commitment>) -> Seq<Point> {
    cs.map_values(|c: Commitment| c.0)
}

/// Decodes a sequence of commitments encoded at `b[start..]`, and where it ends.
pub fn decode_commitments(b: &[u8], start: usize) -> (r: Result<(Vec<Commitment>, usize), CryptoError>)
    requires
        start <= b@.len(),
    ensures
        r is Ok ==> (forall|i: int| 0 <= i < r->Ok_0.0@.len() ==> r->Ok_0.0@[i].wf()) && start <= r->Ok_0.1
            <= b@.len(),
        r is Err ==> r == Err::<(Vec<Commitment>, usize), CryptoError>(CryptoError::SerializationError),
        forall|cs: Seq<Commitment>|
            holds_points_at(b@, start as int, commitment_points(cs)) ==> r is Ok && r->Ok_0.0@ == cs
                && r->Ok_0.1 == start + 4 + 32 * cs.len(),
{
    let (ps, end) = match decode_points(b, start) {
        Ok(x) => x,
        Err(e) => {
            return Err(e);
        },
    };
    let mut out: Vec<Commitment> = Vec::new();
    let mut i: usize = 0;
    while i < ps.len()
        invariant
            0 <= i <= ps.len(),
            points_wf(ps@),
            out@.len() == i,
            forall|j: int| 0 <= j < i ==> out@[j] == Commitment(ps@[j]),
        decreases ps.len() - i,
    {
        out.push(Commitment(ps[i]));
        i = i + 1;
    }
    proof {
        assert forall|cs: Seq<Commitment>| #[trigger] holds_points_at(b@, start as int, commitment_points(cs))
            implies out@ == cs by {
            assert(ps@ == commitment_points(cs));
            assert(out@ =~= cs);
        }
    }
    Ok((out, end))
}

impl CommitKey {
    /// Decodes an encoding; the encoding of a key gives it back.
    pub fn from_bytes(b: &[u8]) -> (r: Result<CommitKey, CryptoError>)
        ensures
            r is Ok ==> r->Ok_0.wf(),
            r is Err ==> r == Err::<CommitKey, CryptoError>(CryptoError::SerializationError),
            forall|ck: CommitKey|
                ck.wf() && ck.g.len() < 4294967296 && commit_key_encoding(ck) == b@ ==> r is Ok && r->Ok_0.g@
                    == ck.g@ && r->Ok_0.h == ck.h,
    {
        proof {
            assert forall|ck: CommitKey|
                ck.wf() && ck.g.len() < 4294967296 && commit_key_encoding(ck) == b@ implies holds_points_at(
                b@,
                0,
                ck.g@,
            ) && b@.len() == 4 + 32 * ck.g.len() + 32 && b@.subrange(4 + 32 * ck.g.len(), b@.len() as int)
                == compressed_encoding(ck.h@) by {
                lemma_points_encoding_parts(point_views(ck.g@));
                lemma_le_bytes_len(if ck.h@.2 { 0 } else { ck.h@.0 }, 32);
                let n = 4 + 32 * ck.g.len();
                assert(b@.subrange(0, n) =~= point_vec_encoding(point_views(ck.g@)));
                assert(b@.subrange(n, b@.len() as int) =~= compressed_encoding(ck.h@));
            }
        }
        let (g, end) = match decode_points(b, 0) {
            Ok(x) => x,
            Err(e) => {
                return Err(e);
            },
        };
        if b.len() - end != 32 {
            return Err(CryptoError::SerializationError);
        }
        let h = match decode_point_from(b, end) {
            Ok(p) => p,
            Err(e) => {
                return Err(e);
            },
        };
        Ok(CommitKey { g, h })
    }
}

} // verus!
