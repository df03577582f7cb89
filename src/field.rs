//! The scalar field F_r of the BN254 G1 group, with elements held as their
//! canonical little-endian encoding.
use ark_bn254::Fr;
use ark_ff::{BigInteger, PrimeField};
use vstd::prelude::*;

verus! {

/// The order r of the group, which is the characteristic of the scalar field.
pub open spec fn group_order() -> int {
    21888242871839275222246405745257275088548364400416034343698204186575808495617int
}

/// The integer whose little-endian base-256 digits are `b`.
pub open spec fn le_value(b: Seq<u8>) -> nat
    decreases b.len(),
{
    if b.len() == 0 {
        0
    } else {
        b[0] as nat + 256 * le_value(b.subrange(1, b.len() as int))
    }
}

/// An element of the scalar field, stored as the 32 little-endian bytes of
/// its representative in `[0, r)`.
#[derive(Clone, Copy, Debug, PartialEq, Eq)]
pub struct Scalar {
    pub bytes: [u8; 32],
}

impl Scalar {
    /// The field element as an integer.
    pub open spec fn view(&self) -> int {
        le_value(self.bytes@) as int
    }

    /// The stored representative is canonical.
    pub open spec fn wf(&self) -> bool {
        self@ < group_order()
    }
}

/// The field element of the little-endian integer `b`, reduced modulo r.
pub fn from_le_bytes_mod_order(b: &[u8]) -> (r: Scalar)
    ensures
        r.wf(),
        r@ == le_value(b@) as int % group_order(),
{
    fr_from_le_bytes_mod_order(b)
}

impl Scalar {
    /// The additive identity.
    pub fn zero() -> (r: Scalar)
        ensures
            r.wf(),
            r@ == 0,
    {
        let r = Scalar { bytes: [0u8; 32] };
        proof {
            lemma_le_value_zeros(r.bytes@);
        }
        r
    }

    /// The field element with the value of a machine integer.
    pub fn from_u64(v: u64) -> (r: Scalar)
        ensures
            r.wf(),
            r@ == v as int,
    {
        fr_from_u64(v)
    }

    /// Field addition.
    pub fn add(&self, o: &Scalar) -> (r: Scalar)
        requires
            self.wf(),
            o.wf(),
        ensures
            r.wf(),
            r@ == (self@ + o@) % group_order(),
    {
        fr_add(self, o)
    }

    /// Field subtraction.
    pub fn sub(&self, o: &Scalar) -> (r: Scalar)
        requires
            self.wf(),
            o.wf(),
        ensures
            r.wf(),
            r@ == (self@ - o@) % group_order(),
    {
        fr_sub(self, o)
    }

    /// Field multiplication.
    pub fn mul(&self, o: &Scalar) -> (r: Scalar)
        requires
            self.wf(),
            o.wf(),
        ensures
            r.wf(),
            r@ == (self@ * o@) % group_order(),
    {
        fr_mul(self, o)
    }

    /// Whether two field elements are equal.
    pub fn equals(&self, o: &Scalar) -> (r: bool)
        ensures
            r == (self@ == o@),
    {
        let r = bytes_eq(&self.bytes, &o.bytes);
        proof {
            if !r && self@ == o@ {
                lemma_le_value_injective(self.bytes@, o.bytes@);
            }
        }
        r
    }

    /// The canonical encoding: 32 little-endian bytes.
    pub fn to_bytes(&self) -> (r: [u8; 32])
        ensures
            r@ == self.bytes@,
    {
        self.bytes
    }
}

/// Whether two byte arrays hold the same bytes.
pub fn bytes_eq(a: &[u8; 32], b: &[u8; 32]) -> (r: bool)
    ensures
        r == (a@ == b@),
{
    let mut i: usize = 0;
    while i < 32
        invariant
            0 <= i <= 32,
            a@.len() == 32,
            b@.len() == 32,
            forall|j: int| 0 <= j < i ==> a@[j] == b@[j],
        decreases 32 - i,
    {
        if a[i] != b[i] {
            return false;
        }
        i = i + 1;
    }
    assert(a@ =~= b@);
    true
}

/// Little-endian digits of equal length and equal value are equal.
pub proof fn lemma_le_value_injective(a: Seq<u8>, b: Seq<u8>)
    requires
        a.len() == b.len(),
        le_value(a) == le_value(b),
    ensures
        a == b,
    decreases a.len(),
{
    if a.len() > 0 {
        let ta = a.subrange(1, a.len() as int);
        let tb = b.subrange(1, b.len() as int);
        assert(a[0] as int == b[0] as int && le_value(ta) == le_value(tb)) by {
            let x = le_value(ta) as int;
            let y = le_value(tb) as int;
            assert(a[0] + 256 * x == b[0] + 256 * y);
            assert(a[0] < 256 && b[0] < 256);
            if x < y {
                assert(256 * x + 256 <= 256 * y) by (nonlinear_arith) requires x < y;
            } else if y < x {
                assert(256 * y + 256 <= 256 * x) by (nonlinear_arith) requires y < x;
            }
        }
        lemma_le_value_injective(ta, tb);
        assert(a =~= seq![a[0]] + ta);
        assert(b =~= seq![b[0]] + tb);
    }
}

/// All-zero digits have value zero.
pub proof fn lemma_le_value_zeros(a: Seq<u8>)
    requires
        forall|j: int| 0 <= j < a.len() ==> a[j] == 0,
    ensures
        le_value(a) == 0,
    decreases a.len(),
{
    if a.len() > 0 {
        lemma_le_value_zeros(a.subrange(1, a.len() as int));
    }
}

/// Relies on `From<u64>` for `Fr`, which embeds the integer (below r).
#[verifier::external_body]
fn fr_from_u64(v: u64) -> (r: Scalar)
    ensures
        r.wf(),
        r@ == v as int,
{
    let f = Fr::from(v);
    Scalar { bytes: f.into_bigint().to_bytes_le().try_into().unwrap() }
}

/// Relies on `Add` for `Fr`: addition modulo r.
#[verifier::external_body]
fn fr_add(a: &Scalar, o: &Scalar) -> (r: Scalar)
    requires
        a.wf(),
        o.wf(),
    ensures
        r.wf(),
        r@ == (a@ + o@) % group_order(),
{
    let f = Fr::from_le_bytes_mod_order(&a.bytes) + Fr::from_le_bytes_mod_order(&o.bytes);
    Scalar { bytes: f.into_bigint().to_bytes_le().try_into().unwrap() }
}

/// Relies on `Sub` for `Fr`: subtraction modulo r.
#[verifier::external_body]
fn fr_sub(a: &Scalar, o: &Scalar) -> (r: Scalar)
    requires
        a.wf(),
        o.wf(),
    ensures
        r.wf(),
        r@ == (a@ - o@) % group_order(),
{
    let f = Fr::from_le_bytes_mod_order(&a.bytes) - Fr::from_le_bytes_mod_order(&o.bytes);
    Scalar { bytes: f.into_bigint().to_bytes_le().try_into().unwrap() }
}

/// Relies on `Mul` for `Fr`: multiplication modulo r.
#[verifier::external_body]
fn fr_mul(a: &Scalar, o: &Scalar) -> (r: Scalar)
    requires
        a.wf(),
        o.wf(),
    ensures
        r.wf(),
        r@ == (a@ * o@) % group_order(),
{
    let f = Fr::from_le_bytes_mod_order(&a.bytes) * Fr::from_le_bytes_mod_order(&o.bytes);
    Scalar { bytes: f.into_bigint().to_bytes_le().try_into().unwrap() }
}

/// Relies on `PrimeField::from_le_bytes_mod_order` for `Fr`: the bytes are read as a
/// little-endian integer and reduced modulo r; `into_bigint` gives the canonical digits back.
#[verifier::external_body]
fn fr_from_le_bytes_mod_order(b: &[u8]) -> (r: Scalar)
    ensures
        r.wf(),
        r@ == le_value(b@) as int % group_order(),
{
    let f = Fr::from_le_bytes_mod_order(b);
    Scalar { bytes: f.into_bigint().to_bytes_le().try_into().unwrap() }
}

} // verus!
