//! The laws of a cyclic group of prime order r, written additively over the
//! group operations, and the facts about them that the arguments use.
//!
//! The group operations are computed by the curve library; that its points
//! form such a group is the premise of the completeness and soundness lemmas,
//! which take `group_laws()` as a precondition.
use crate::field::group_order;
use crate::group::{g1_add_of, g1_mul_of, identity_view, neg_view, valid_point, PointView};
use vstd::arithmetic::div_mod::{
    lemma_add_mod_noop, lemma_mod_equivalence, lemma_mod_self_0, lemma_mul_mod_noop_left, lemma_small_mod,
    lemma_sub_mod_noop,
};
use vstd::prelude::*;

verus! {

/// `s` is the value of a field element.
pub open spec fn is_scalar(s: int) -> bool {
    0 <= s < group_order()
}

/// The points form a commutative group under `g1_add_of` with `identity_view`
/// as identity and `neg_view` as inverse; `g1_mul_of` is the action of the
/// scalar field on it, with `1 * p = p`; and every point but the identity has
/// order r.
#[verifier::opaque]
pub open spec fn group_laws() -> bool {
    &&& forall|a: PointView, b: PointView|
        valid_point(a) && valid_point(b) ==> #[trigger] valid_point(g1_add_of(a, b))
    &&& forall|p: PointView, s: int|
        valid_point(p) && is_scalar(s) ==> #[trigger] valid_point(g1_mul_of(p, s))
    &&& forall|a: PointView, b: PointView|
        valid_point(a) && valid_point(b) ==> #[trigger] g1_add_of(a, b) == g1_add_of(b, a)
    &&& forall|a: PointView, b: PointView, c: PointView|
        valid_point(a) && valid_point(b) && valid_point(c) ==> #[trigger] g1_add_of(g1_add_of(a, b), c)
            == g1_add_of(a, g1_add_of(b, c))
    &&& forall|a: PointView| valid_point(a) ==> #[trigger] g1_add_of(a, identity_view()) == a
    &&& forall|a: PointView| valid_point(a) ==> #[trigger] g1_add_of(a, neg_view(a)) == identity_view()
    &&& forall|p: PointView, s: int, t: int|
        valid_point(p) && is_scalar(s) && is_scalar(t) ==> #[trigger] g1_add_of(g1_mul_of(p, s), g1_mul_of(p, t))
            == g1_mul_of(p, (s + t) % group_order())
    &&& forall|p: PointView, s: int, t: int|
        valid_point(p) && is_scalar(s) && is_scalar(t) ==> #[trigger] g1_mul_of(g1_mul_of(p, s), t)
            == g1_mul_of(p, (s * t) % group_order())
    &&& forall|a: PointView, b: PointView, s: int|
        valid_point(a) && valid_point(b) && is_scalar(s) ==> #[trigger] g1_mul_of(g1_add_of(a, b), s)
            == g1_add_of(g1_mul_of(a, s), g1_mul_of(b, s))
    &&& forall|p: PointView, s: int|
        valid_point(p) && is_scalar(s) ==> (#[trigger] g1_mul_of(p, s) == identity_view() <==> (p.2 || s == 0))
    &&& forall|p: PointView| valid_point(p) ==> #[trigger] g1_mul_of(p, 1) == p
}

/// A sum that leaves `a` unchanged adds the identity.
pub proof fn lemma_add_cancel(a: PointView, d: PointView)
    requires
        group_laws(),
        valid_point(a),
        valid_point(d),
        g1_add_of(a, d) == a,
    ensures
        d == identity_view(),
{
    reveal(group_laws);
    let n = neg_view(a);
    assert(valid_point(n)) by {
        lemma_neg_valid(a);
    }
    assert(g1_add_of(g1_add_of(a, d), n) == g1_add_of(a, g1_add_of(d, n)));
    assert(g1_add_of(d, n) == g1_add_of(n, d));
    assert(g1_add_of(a, g1_add_of(n, d)) == g1_add_of(g1_add_of(a, n), d));
    assert(g1_add_of(identity_view(), d) == g1_add_of(d, identity_view()));
}

/// The inverse of a valid point is valid.
pub proof fn lemma_neg_valid(a: PointView)
    requires
        valid_point(a),
    ensures
        valid_point(neg_view(a)),
{
    let p = crate::group::base_modulus();
    if !a.2 {
        let y = a.1;
        let ny = (p - y) % p;
        if y == 0 {
            lemma_mod_self_0(p);
        } else {
            lemma_small_mod((p - y) as nat, p as nat);
            assert(ny * ny == y * y - 2 * p * y + p * p) by (nonlinear_arith)
                requires ny == p - y;
            assert((y * y - 2 * p * y + p * p) % p == (y * y) % p) by {
                vstd::arithmetic::div_mod::lemma_mod_multiples_vanish(p - 2 * y, y * y, p);
                assert(y * y + (p - 2 * y) * p == y * y - 2 * p * y + p * p) by (nonlinear_arith);
            }
        }
    }
}

/// Adding `k` and then subtracting it modulo r gives back a field element.
pub proof fn lemma_sub_add_mod(w: int, k: int)
    requires
        is_scalar(w),
        is_scalar(k),
    ensures
        ((w - k) % group_order() + k) % group_order() == w,
{
    let r = group_order();
    lemma_add_mod_noop(w - k, k, r);
    lemma_small_mod(k as nat, r as nat);
    lemma_small_mod(w as nat, r as nat);
}

/// In a group of prime order, multiplying a point other than the identity is
/// one-to-one on field elements.
pub proof fn lemma_mul_injective(g: PointView, a: int, b: int)
    requires
        group_laws(),
        valid_point(g),
        !g.2,
        is_scalar(a),
        is_scalar(b),
        g1_mul_of(g, a) == g1_mul_of(g, b),
    ensures
        a == b,
{
    reveal(group_laws);
    let r = group_order();
    if a != b {
        let d = (a - b) % r;
        lemma_sub_add_mod(a, b);
        assert((d + b) % r == a);
        assert(g1_add_of(g1_mul_of(g, b), g1_mul_of(g, d)) == g1_add_of(g1_mul_of(g, d), g1_mul_of(g, b)));
        assert(g1_add_of(g1_mul_of(g, d), g1_mul_of(g, b)) == g1_mul_of(g, (d + b) % r));
        lemma_add_cancel(g1_mul_of(g, b), g1_mul_of(g, d));
        assert(d != 0) by {
            lemma_mod_equivalence(a, b, r);
            lemma_small_mod(a as nat, r as nat);
            lemma_small_mod(b as nat, r as nat);
        }
    }
}

/// A nonzero challenge separates two different witnesses: `c * x` and
/// `c * x2` differ modulo r. The group of prime order stands in for the
/// primality of r.
pub proof fn lemma_challenge_separates(g: PointView, x: int, x2: int, c: int)
    requires
        group_laws(),
        valid_point(g),
        !g.2,
        is_scalar(x),
        is_scalar(x2),
        is_scalar(c),
        x != x2,
        c != 0,
    ensures
        (c * x) % group_order() != (c * x2) % group_order(),
{
    reveal(group_laws);
    let r = group_order();
    let d = (x - x2) % r;
    assert(d != 0) by {
        lemma_mod_equivalence(x, x2, r);
        lemma_small_mod(x as nat, r as nat);
        lemma_small_mod(x2 as nat, r as nat);
    }
    let dg = g1_mul_of(g, d);
    assert(!(dg == identity_view()));
    assert(valid_point(dg));
    assert(g1_mul_of(dg, c) == g1_mul_of(g, (d * c) % r));
    assert(g1_mul_of(dg, c) != identity_view());
    let e = (d * c) % r;
    assert(e != 0);
    lemma_mul_mod_noop_left(x - x2, c, r);
    assert((x - x2) * c == c * x - c * x2) by (nonlinear_arith);
    lemma_sub_mod_noop(c * x, c * x2, r);
    if (c * x) % r == (c * x2) % r {
        lemma_mod_self_0(r);
        assert(((c * x) % r - (c * x2) % r) % r == 0);
    }
}

/// Honest Schnorr answer: `(w - c * x) * g + c * (x * g) = w * g`.
pub proof fn lemma_sigma_difference(g: PointView, x: int, w: int, c: int)
    requires
        group_laws(),
        valid_point(g),
        is_scalar(x),
        is_scalar(w),
        is_scalar(c),
    ensures
        g1_add_of(g1_mul_of(g, (w - (c * x) % group_order()) % group_order()), g1_mul_of(g1_mul_of(g, x), c))
            == g1_mul_of(g, w),
{
    reveal(group_laws);
    let r = group_order();
    let k = (c * x) % r;
    let z = (w - k) % r;
    assert(is_scalar(k) && is_scalar(z));
    assert(x * c == c * x) by (nonlinear_arith);
    assert(g1_mul_of(g1_mul_of(g, x), c) == g1_mul_of(g, k));
    assert(g1_add_of(g1_mul_of(g, z), g1_mul_of(g, k)) == g1_mul_of(g, (z + k) % r));
    lemma_sub_add_mod(w, k);
}

/// Honest Chaum–Pedersen answer: `(w + c * x) * g = w * g + c * (x * g)`.
pub proof fn lemma_sigma_sum(g: PointView, x: int, w: int, c: int)
    requires
        group_laws(),
        valid_point(g),
        is_scalar(x),
        is_scalar(w),
        is_scalar(c),
    ensures
        g1_mul_of(g, (w + (c * x) % group_order()) % group_order()) == g1_add_of(
            g1_mul_of(g, w),
            g1_mul_of(g1_mul_of(g, x), c),
        ),
{
    reveal(group_laws);
    let r = group_order();
    let k = (c * x) % r;
    assert(x * c == c * x) by (nonlinear_arith);
    assert(g1_mul_of(g1_mul_of(g, x), c) == g1_mul_of(g, k));
    assert(g1_add_of(g1_mul_of(g, w), g1_mul_of(g, k)) == g1_mul_of(g, (w + k) % r));
}

/// A wrong witness changes the answer's product: `(w + c * x2) * g` differs
/// from `w * g + c * (x * g)` when `x2 != x`, `g` is not the identity and `c`
/// is not zero.
pub proof fn lemma_sigma_sum_wrong_witness(g: PointView, x: int, x2: int, w: int, c: int)
    requires
        group_laws(),
        valid_point(g),
        !g.2,
        is_scalar(x),
        is_scalar(x2),
        is_scalar(w),
        is_scalar(c),
        x != x2,
        c != 0,
    ensures
        g1_mul_of(g, (w + (c * x2) % group_order()) % group_order()) != g1_add_of(
            g1_mul_of(g, w),
            g1_mul_of(g1_mul_of(g, x), c),
        ),
{
    let r = group_order();
    let k = (c * x) % r;
    let k2 = (c * x2) % r;
    assert(is_scalar(k) && is_scalar(k2));
    assert(is_scalar((w + k) % r) && is_scalar((w + k2) % r));
    lemma_sigma_sum(g, x, w, c);
    if g1_mul_of(g, (w + k2) % r) == g1_mul_of(g, (w + k) % r) {
        lemma_mul_injective(g, (w + k2) % r, (w + k) % r);
        lemma_mod_equivalence(w + k2, w + k, r);
        lemma_mod_equivalence(k2, k, r);
        lemma_small_mod(k as nat, r as nat);
        lemma_small_mod(k2 as nat, r as nat);
        lemma_challenge_separates(g, x, x2, c);
    }
}

/// Multiplying the identity gives the identity.
pub proof fn lemma_mul_identity(r: int)
    requires
        group_laws(),
        is_scalar(r),
    ensures
        g1_mul_of(identity_view(), r) == identity_view(),
{
    reveal(group_laws);
    assert(valid_point(identity_view()));
}

/// One step of a sum of shares: `S * r + s * (r * g) = (S + s * g) * r`.
pub proof fn lemma_share_step(g: PointView, big_s: PointView, r: int, s: int)
    requires
        group_laws(),
        valid_point(g),
        valid_point(big_s),
        is_scalar(r),
        is_scalar(s),
    ensures
        valid_point(g1_add_of(big_s, g1_mul_of(g, s))),
        g1_add_of(g1_mul_of(big_s, r), g1_mul_of(g1_mul_of(g, r), s)) == g1_mul_of(g1_add_of(big_s, g1_mul_of(g, s)), r),
{
    reveal(group_laws);
    let pk = g1_mul_of(g, s);
    assert(valid_point(pk));
    assert(r * s == s * r) by (nonlinear_arith);
    assert(g1_mul_of(g1_mul_of(g, r), s) == g1_mul_of(g, (r * s) % group_order()));
    assert(g1_mul_of(pk, r) == g1_mul_of(g, (s * r) % group_order()));
    assert(g1_mul_of(g1_add_of(big_s, pk), r) == g1_add_of(g1_mul_of(big_s, r), g1_mul_of(pk, r)));
}

/// `(c + x) - x = c`.
pub proof fn lemma_add_then_sub(c: PointView, x: PointView)
    requires
        group_laws(),
        valid_point(c),
        valid_point(x),
    ensures
        g1_add_of(g1_add_of(c, x), neg_view(x)) == c,
{
    reveal(group_laws);
    lemma_neg_valid(x);
    assert(g1_add_of(g1_add_of(c, x), neg_view(x)) == g1_add_of(c, g1_add_of(x, neg_view(x))));
}

/// A product of a valid point is valid.
pub proof fn lemma_mul_valid(p: PointView, s: int)
    requires
        group_laws(),
        valid_point(p),
        is_scalar(s),
    ensures
        valid_point(g1_mul_of(p, s)),
{
    reveal(group_laws);
}

/// Adding the identity changes nothing.
pub proof fn lemma_add_identity(a: PointView)
    requires
        group_laws(),
        valid_point(a),
    ensures
        g1_add_of(a, identity_view()) == a,
{
    reveal(group_laws);
}

/// Subtracting a nonzero multiple of the challenge changes a field element:
/// `(w - c * x) mod r != w` when `c * x` is not a multiple of r.
pub proof fn lemma_sub_changes(w: int, k: int)
    requires
        is_scalar(w),
        is_scalar(k),
        k != 0,
    ensures
        (w - k) % group_order() != w,
{
    let r = group_order();
    if (w - k) % r == w {
        lemma_small_mod(w as nat, r as nat);
        lemma_mod_equivalence(w - k, w, r);
        assert((w - k - w) == -k);
        assert((-k) % r == r - k) by {
            vstd::arithmetic::div_mod::lemma_fundamental_div_mod_converse(-k, r, -1, r - k);
        }
    }
}

/// Addition commutes.
pub proof fn lemma_add_commutes(a: PointView, b: PointView)
    requires
        group_laws(),
        valid_point(a),
        valid_point(b),
    ensures
        g1_add_of(a, b) == g1_add_of(b, a),
{
    reveal(group_laws);
}

} // verus!
