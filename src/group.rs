//! The BN254 G1 group in affine coordinates, with coordinates held as their
//! canonical little-endian encodings.
use crate::field::{bytes_eq, le_value, lemma_le_value_injective, lemma_le_value_zeros, Scalar};
use ark_bn254::{Fq, Fr, G1Affine, G1Projective};
use ark_ec::{AffineRepr, CurveGroup, VariableBaseMSM};
use ark_ff::{BigInteger, PrimeField};
use vstd::prelude::*;

verus! {

/// The characteristic p of the base field over which the curve is defined.
pub open spec fn base_modulus() -> int {
    21888242871839275222246405745257275088696311157297823662689037894645226208583int
}

/// An affine point: `(x, y, is_identity)`.
pub type PointView = (int, int, bool);

/// The point is the identity (stored with zero coordinates) or satisfies
/// `y^2 = x^3 + 3` over F_p.
pub open spec fn valid_point(p: PointView) -> bool {
    &&& 0 <= p.0 < base_modulus()
    &&& 0 <= p.1 < base_modulus()
    &&& p.2 ==> p.0 == 0 && p.1 == 0
    &&& !p.2 ==> (p.1 * p.1) % base_modulus() == (p.0 * p.0 * p.0 + 3) % base_modulus()
}

/// The identity element.
pub open spec fn identity_view() -> PointView {
    (0, 0, true)
}

/// The inverse of a point: its reflection across the x axis.
pub open spec fn neg_view(p: PointView) -> PointView {
    if p.2 {
        p
    } else {
        (p.0, (base_modulus() - p.1) % base_modulus(), false)
    }
}

/// The sum of two points, as `Add` on affine points computes it.
pub uninterp spec fn g1_add_of(a: PointView, b: PointView) -> PointView;

/// A point times a scalar, as `Mul<Fr>` on affine points computes it.
pub uninterp spec fn g1_mul_of(p: PointView, s: int) -> PointView;

/// `sum_i scalars[i] * bases[i]`, added from the last term to the first.
pub open spec fn msm_sum(bases: Seq<PointView>, scalars: Seq<int>) -> PointView
    decreases bases.len(),
{
    if bases.len() == 0 || scalars.len() == 0 {
        identity_view()
    } else {
        g1_add_of(
            g1_mul_of(bases[0], scalars[0]),
            msm_sum(bases.subrange(1, bases.len() as int), scalars.subrange(1, scalars.len() as int)),
        )
    }
}


/// A point of the group, in affine coordinates.
#[derive(Clone, Copy, Debug, PartialEq, Eq)]
pub struct Point {
    pub x: [u8; 32],
    pub y: [u8; 32],
    pub infinity: bool,
}

impl Point {
    pub open spec fn view(&self) -> PointView {
        (le_value(self.x@) as int, le_value(self.y@) as int, self.infinity)
    }

    pub open spec fn wf(&self) -> bool {
        valid_point(self@)
    }

    /// The identity element.
    pub fn identity() -> (r: Point)
        ensures
            r.wf(),
            r@ == identity_view(),
    {
        let r = Point { x: [0u8; 32], y: [0u8; 32], infinity: true };
        proof {
            lemma_le_value_zeros(r.x@);
            lemma_le_value_zeros(r.y@);
        }
        r
    }

    /// The fixed generator `(1, 2)` of the group.
    pub fn generator() -> (r: Point)
        ensures
            r.wf(),
            r@ == (1int, 2int, false),
    {
        let mut x = [0u8; 32];
        let mut y = [0u8; 32];
        x[0] = 1u8;
        y[0] = 2u8;
        proof {
            lemma_le_value_zeros(x@.subrange(1, 32));
            lemma_le_value_zeros(y@.subrange(1, 32));
            assert(le_value(x@) == 1);
            assert(le_value(y@) == 2);
            assert((2int * 2) % base_modulus() == (1int * 1 * 1 + 3) % base_modulus());
        }
        Point { x, y, infinity: false }
    }

    /// Group addition.
    pub fn add(&self, o: &Point) -> (r: Point)
        requires
            self.wf(),
            o.wf(),
        ensures
            r.wf(),
            r@ == g1_add_of(self@, o@),
    {
        g1_add(self, o)
    }

    /// The inverse of a point.
    pub fn neg(&self) -> (r: Point)
        requires
            self.wf(),
        ensures
            r.wf(),
            r@ == neg_view(self@),
    {
        g1_neg(self)
    }

    /// Scalar multiplication.
    pub fn mul(&self, s: &Scalar) -> (r: Point)
        requires
            self.wf(),
            s.wf(),
        ensures
            r.wf(),
            r@ == g1_mul_of(self@, s@),
    {
        g1_mul(self, s)
    }

    /// Whether two points are equal.
    pub fn equals(&self, o: &Point) -> (r: bool)
        ensures
            r == (self@ == o@),
    {
        let ex = bytes_eq(&self.x, &o.x);
        let ey = bytes_eq(&self.y, &o.y);
        proof {
            if self@ == o@ {
                lemma_le_value_injective(self.x@, o.x@);
                lemma_le_value_injective(self.y@, o.y@);
            }
        }
        ex && ey && self.infinity == o.infinity
    }
}

/// Multi-scalar multiplication `sum_i scalars[i] * bases[i]`, over the
/// shorter of the two lengths.
pub fn msm(bases: &Vec<Point>, scalars: &Vec<Scalar>) -> (r: Point)
    requires
        forall|i: int| 0 <= i < bases.len() ==> bases[i].wf(),
        forall|i: int| 0 <= i < scalars.len() ==> scalars[i].wf(),
    ensures
        r.wf(),
        r@ == msm_sum(bases@.map_values(|p: Point| p@), scalars@.map_values(|s: Scalar| s@)),
{
    g1_msm(bases, scalars)
}

/// Relies on `Add` for `G1Affine` and `into_affine`, which give a point of the group.
#[verifier::external_body]
fn g1_add(p: &Point, o: &Point) -> (r: Point)
    requires
        p.wf(),
        o.wf(),
    ensures
        r.wf(),
        r@ == g1_add_of(p@, o@),
{
    let a = G1Affine { x: Fq::from_le_bytes_mod_order(&p.x), y: Fq::from_le_bytes_mod_order(&p.y), infinity: p.infinity };
    let b = G1Affine { x: Fq::from_le_bytes_mod_order(&o.x), y: Fq::from_le_bytes_mod_order(&o.y), infinity: o.infinity };
    let q = (a + b).into_affine();
    Point { x: q.x.into_bigint().to_bytes_le().try_into().unwrap(), y: q.y.into_bigint().to_bytes_le().try_into().unwrap(), infinity: q.infinity }
}

/// Relies on `Neg` for `G1Affine`: `(x, -y)`, and the identity stays.
#[verifier::external_body]
fn g1_neg(p: &Point) -> (r: Point)
    requires
        p.wf(),
    ensures
        r.wf(),
        r@ == neg_view(p@),
{
    let a = G1Affine { x: Fq::from_le_bytes_mod_order(&p.x), y: Fq::from_le_bytes_mod_order(&p.y), infinity: p.infinity };
    let q = -a;
    Point { x: q.x.into_bigint().to_bytes_le().try_into().unwrap(), y: q.y.into_bigint().to_bytes_le().try_into().unwrap(), infinity: q.infinity }
}

/// Relies on `mul_bigint` for `G1Affine` and `into_affine`.
#[verifier::external_body]
fn g1_mul(p: &Point, s: &Scalar) -> (r: Point)
    requires
        p.wf(),
        s.wf(),
    ensures
        r.wf(),
        r@ == g1_mul_of(p@, s@),
{
    let a = G1Affine { x: Fq::from_le_bytes_mod_order(&p.x), y: Fq::from_le_bytes_mod_order(&p.y), infinity: p.infinity };
    let q = a.mul_bigint(Fr::from_le_bytes_mod_order(&s.bytes).into_bigint()).into_affine();
    Point { x: q.x.into_bigint().to_bytes_le().try_into().unwrap(), y: q.y.into_bigint().to_bytes_le().try_into().unwrap(), infinity: q.infinity }
}

/// Relies on `VariableBaseMSM::msm_bigint` for `G1Projective`: over the shorter of
/// the two lengths, the group sum of the products, which `into_affine` normalises.
#[verifier::external_body]
fn g1_msm(bases: &Vec<Point>, scalars: &Vec<Scalar>) -> (r: Point)
    requires
        forall|i: int| 0 <= i < bases.len() ==> bases[i].wf(),
        forall|i: int| 0 <= i < scalars.len() ==> scalars[i].wf(),
    ensures
        r.wf(),
        r@ == msm_sum(bases@.map_values(|p: Point| p@), scalars@.map_values(|s: Scalar| s@)),
{
    let bs: Vec<G1Affine> = bases.iter().map(|p| G1Affine { x: Fq::from_le_bytes_mod_order(&p.x), y: Fq::from_le_bytes_mod_order(&p.y), infinity: p.infinity }).collect();
    let ss: Vec<_> = scalars.iter().map(|s| Fr::from_le_bytes_mod_order(&s.bytes).into_bigint()).collect();
    let q = G1Projective::msm_bigint(&bs, &ss).into_affine();
    Point { x: q.x.into_bigint().to_bytes_le().try_into().unwrap(), y: q.y.into_bigint().to_bytes_le().try_into().unwrap(), infinity: q.infinity }
}

} // verus!
