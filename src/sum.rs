use vstd::prelude::*;

use crate::ring::Ring;

verus! {

/// `sum_{t < k} u(t) * v(t)`, accumulated from zero in increasing `t`.
pub open spec fn lin<R: Ring>(u: spec_fn(int) -> R, v: spec_fn(int) -> R, k: nat) -> R
    decreases k,
{
    if k == 0 {
        R::zero_spec()
    } else {
        R::add_spec(lin(u, v, (k - 1) as nat), R::mul_spec(u(k - 1), v(k - 1)))
    }
}

/// `(a + b) * c == a * c + b * c`.
pub proof fn lemma_distrib_right<R: Ring>(a: R, b: R, c: R)
    ensures
        R::mul_spec(R::add_spec(a, b), c) == R::add_spec(R::mul_spec(a, c), R::mul_spec(b, c)),
{
    R::lemma_mul_comm(R::add_spec(a, b), c);
    R::lemma_distrib(c, a, b);
    R::lemma_mul_comm(c, a);
    R::lemma_mul_comm(c, b);
}

/// `(a * b) * c == (a * c) * b`.
pub proof fn lemma_mul_swap_right<R: Ring>(a: R, b: R, c: R)
    ensures
        R::mul_spec(R::mul_spec(a, b), c) == R::mul_spec(R::mul_spec(a, c), b),
{
    R::lemma_mul_assoc(a, b, c);
    R::lemma_mul_comm(b, c);
    R::lemma_mul_assoc(a, c, b);
}

/// `(a + b) + (c + d) == (a + c) + (b + d)`.
pub proof fn lemma_add_swap_mid<R: Ring>(a: R, b: R, c: R, d: R)
    ensures
        R::add_spec(R::add_spec(a, b), R::add_spec(c, d)) == R::add_spec(
            R::add_spec(a, c),
            R::add_spec(b, d),
        ),
{
    R::lemma_add_assoc(a, b, R::add_spec(c, d));
    R::lemma_add_assoc(b, c, d);
    R::lemma_add_comm(b, c);
    R::lemma_add_assoc(c, b, d);
    R::lemma_add_assoc(a, c, R::add_spec(b, d));
}

/// `a + c == b + c` implies `a == b`.
pub proof fn lemma_add_cancel<R: Ring>(a: R, b: R, c: R)
    requires
        R::add_spec(a, c) == R::add_spec(b, c),
    ensures
        a == b,
{
    let n = R::neg_spec(c);
    R::lemma_add_assoc(a, c, n);
    R::lemma_add_assoc(b, c, n);
    R::lemma_add_neg(c);
    R::lemma_add_zero(a);
    R::lemma_add_zero(b);
}

/// `a * p == b * p` with `p` invertible implies `a == b`.
pub proof fn lemma_mul_cancel<R: Ring>(a: R, b: R, p: R)
    requires
        p != R::zero_spec(),
        R::mul_spec(a, R::inv_spec(p)) == R::mul_spec(b, R::inv_spec(p)),
    ensures
        a == b,
{
    let q = R::inv_spec(p);
    R::lemma_mul_assoc(a, q, p);
    R::lemma_mul_assoc(b, q, p);
    R::lemma_mul_comm(q, p);
    R::lemma_mul_inv(p);
    R::lemma_mul_one(a);
    R::lemma_mul_one(b);
}

/// The sum reads `u` and `v` below `k` only.
pub proof fn lemma_lin_ext<R: Ring>(
    u1: spec_fn(int) -> R,
    u2: spec_fn(int) -> R,
    v1: spec_fn(int) -> R,
    v2: spec_fn(int) -> R,
    k: nat,
)
    requires
        forall|t: int| 0 <= t < k ==> #[trigger] u1(t) == u2(t) && v1(t) == v2(t),
    ensures
        lin(u1, v1, k) == lin(u2, v2, k),
    decreases k,
{
    if k > 0 {
        lemma_lin_ext(u1, u2, v1, v2, (k - 1) as nat);
    }
}

/// The sum depends on the products `u(t) * v(t)` below `k` only.
pub proof fn lemma_lin_ext_products<R: Ring>(
    u1: spec_fn(int) -> R,
    v1: spec_fn(int) -> R,
    u2: spec_fn(int) -> R,
    v2: spec_fn(int) -> R,
    k: nat,
)
    requires
        forall|t: int| 0 <= t < k ==> #[trigger] R::mul_spec(u1(t), v1(t)) == R::mul_spec(u2(t), v2(t)),
    ensures
        lin(u1, v1, k) == lin(u2, v2, k),
    decreases k,
{
    if k > 0 {
        lemma_lin_ext_products(u1, v1, u2, v2, (k - 1) as nat);
        assert(R::mul_spec(u1(k - 1), v1(k - 1)) == R::mul_spec(u2(k - 1), v2(k - 1)));
    }
}

/// The sum is linear in its first argument: adding `w * lam` to `u` adds
/// `(sum w * v) * lam` to the sum.
pub proof fn lemma_lin_affine<R: Ring>(
    u2: spec_fn(int) -> R,
    u: spec_fn(int) -> R,
    w: spec_fn(int) -> R,
    lam: R,
    v: spec_fn(int) -> R,
    k: nat,
)
    requires
        forall|t: int| 0 <= t < k ==> #[trigger] u2(t) == R::add_spec(u(t), R::mul_spec(w(t), lam)),
    ensures
        lin(u2, v, k) == R::add_spec(lin(u, v, k), R::mul_spec(lin(w, v, k), lam)),
    decreases k,
{
    if k == 0 {
        R::lemma_mul_zero(lam);
        R::lemma_add_zero(R::zero_spec());
    } else {
        let j = k - 1;
        lemma_lin_affine(u2, u, w, lam, v, (k - 1) as nat);
        let lu = lin(u, v, (k - 1) as nat);
        let lw = lin(w, v, (k - 1) as nat);
        let uv = R::mul_spec(u(j), v(j));
        let wv = R::mul_spec(w(j), v(j));
        lemma_distrib_right(u(j), R::mul_spec(w(j), lam), v(j));
        lemma_mul_swap_right(w(j), lam, v(j));
        lemma_add_swap_mid(lu, R::mul_spec(lw, lam), uv, R::mul_spec(wv, lam));
        lemma_distrib_right(lw, wv, lam);
    }
}

/// Scaling `u` by `lam` (on the right) scales the sum by `lam`.
pub proof fn lemma_lin_scale<R: Ring>(
    u2: spec_fn(int) -> R,
    u: spec_fn(int) -> R,
    lam: R,
    v: spec_fn(int) -> R,
    k: nat,
)
    requires
        forall|t: int| 0 <= t < k ==> #[trigger] u2(t) == R::mul_spec(u(t), lam),
    ensures
        lin(u2, v, k) == R::mul_spec(lin(u, v, k), lam),
    decreases k,
{
    if k == 0 {
        R::lemma_mul_zero(lam);
    } else {
        let j = k - 1;
        lemma_lin_scale(u2, u, lam, v, (k - 1) as nat);
        let l = lin(u, v, (k - 1) as nat);
        lemma_mul_swap_right(u(j), lam, v(j));
        lemma_distrib_right(l, R::mul_spec(u(j), v(j)), lam);
    }
}

/// A sum against a unit row picks one element: with `u(t)` one at `t == i`
/// and zero elsewhere, the sum is `v(i)` (zero when `i` is not below `k`).
pub proof fn lemma_lin_unit_left<R: Ring>(u: spec_fn(int) -> R, v: spec_fn(int) -> R, i: int, k: nat)
    requires
        forall|t: int| 0 <= t < k ==> #[trigger] u(t) == if t == i { R::one_spec() } else { R::zero_spec() },
    ensures
        lin(u, v, k) == if 0 <= i < k { v(i) } else { R::zero_spec() },
    decreases k,
{
    if k > 0 {
        let j = k - 1;
        lemma_lin_unit_left(u, v, i, (k - 1) as nat);
        R::lemma_mul_one(v(j));
        R::lemma_mul_zero(v(j));
        R::lemma_add_zero(lin(u, v, (k - 1) as nat));
        R::lemma_add_zero(v(j));
    }
}

/// The mirror image of `lemma_lin_unit_left`, with the unit vector second.
pub proof fn lemma_lin_unit_right<R: Ring>(u: spec_fn(int) -> R, v: spec_fn(int) -> R, i: int, k: nat)
    requires
        forall|t: int| 0 <= t < k ==> #[trigger] v(t) == if t == i { R::one_spec() } else { R::zero_spec() },
    ensures
        lin(u, v, k) == if 0 <= i < k { u(i) } else { R::zero_spec() },
    decreases k,
{
    if k > 0 {
        let j = k - 1;
        lemma_lin_unit_right(u, v, i, (k - 1) as nat);
        R::lemma_mul_one(u(j));
        R::lemma_mul_zero(u(j));
        R::lemma_add_zero(lin(u, v, (k - 1) as nat));
        R::lemma_add_zero(u(j));
    }
}

/// The sum is additive in its second argument.
pub proof fn lemma_lin_add_right<R: Ring>(
    u: spec_fn(int) -> R,
    v2: spec_fn(int) -> R,
    v: spec_fn(int) -> R,
    w: spec_fn(int) -> R,
    k: nat,
)
    requires
        forall|t: int| 0 <= t < k ==> #[trigger] v2(t) == R::add_spec(v(t), w(t)),
    ensures
        lin(u, v2, k) == R::add_spec(lin(u, v, k), lin(u, w, k)),
    decreases k,
{
    if k == 0 {
        R::lemma_add_zero(R::zero_spec());
    } else {
        let j = k - 1;
        lemma_lin_add_right(u, v2, v, w, (k - 1) as nat);
        R::lemma_distrib(u(j), v(j), w(j));
        lemma_add_swap_mid(
            lin(u, v, (k - 1) as nat),
            lin(u, w, (k - 1) as nat),
            R::mul_spec(u(j), v(j)),
            R::mul_spec(u(j), w(j)),
        );
    }
}

/// Scaling the second argument by `c` (on the right) scales the sum by `c`.
pub proof fn lemma_lin_scale_right<R: Ring>(
    u: spec_fn(int) -> R,
    v2: spec_fn(int) -> R,
    v: spec_fn(int) -> R,
    c: R,
    k: nat,
)
    requires
        forall|t: int| 0 <= t < k ==> #[trigger] v2(t) == R::mul_spec(v(t), c),
    ensures
        lin(u, v2, k) == R::mul_spec(lin(u, v, k), c),
    decreases k,
{
    if k == 0 {
        R::lemma_mul_zero(c);
    } else {
        let j = k - 1;
        lemma_lin_scale_right(u, v2, v, c, (k - 1) as nat);
        R::lemma_mul_assoc(u(j), v(j), c);
        lemma_distrib_right(lin(u, v, (k - 1) as nat), R::mul_spec(u(j), v(j)), c);
    }
}

/// A sum against a zero column is zero.
pub proof fn lemma_lin_zero_right<R: Ring>(u: spec_fn(int) -> R, v: spec_fn(int) -> R, k: nat)
    requires
        forall|t: int| 0 <= t < k ==> #[trigger] v(t) == R::zero_spec(),
    ensures
        lin(u, v, k) == R::zero_spec(),
    decreases k,
{
    if k > 0 {
        lemma_lin_zero_right(u, v, (k - 1) as nat);
        R::lemma_mul_zero(u(k - 1));
        R::lemma_add_zero(R::zero_spec());
    }
}

/// Exchanging the order of a double sum:
/// `sum_k (sum_l x(l) * b(l, k)) * c(k) == sum_l x(l) * (sum_k b(l, k) * c(k))`.
pub proof fn lemma_lin_exchange<R: Ring>(
    x: spec_fn(int) -> R,
    b: spec_fn(int, int) -> R,
    c: spec_fn(int) -> R,
    m: nat,
    p: nat,
)
    ensures
        lin(|k: int| lin(x, |l: int| b(l, k), m), c, p) == lin(x, |l: int| lin(|k: int| b(l, k), c, p), m),
    decreases p,
{
    let outer = |k: int| lin(x, |l: int| b(l, k), m);
    if p == 0 {
        lemma_lin_zero_right(x, |l: int| lin(|k: int| b(l, k), c, 0), m);
    } else {
        let q = (p - 1) as nat;
        lemma_lin_exchange(x, b, c, m, q);
        let vq = |l: int| lin(|k: int| b(l, k), c, q);
        let vp = |l: int| lin(|k: int| b(l, k), c, p);
        let colq = |l: int| b(l, q as int);
        let z = |l: int| R::mul_spec(b(l, q as int), c(q as int));
        assert forall|t: int| 0 <= t < m implies #[trigger] vp(t) == R::add_spec(vq(t), z(t)) by {
        }
        lemma_lin_add_right(x, vp, vq, z, m);
        lemma_lin_scale_right(x, z, colq, c(q as int), m);
        assert(outer(q as int) == lin(x, colq, m));
    }
}

/// `(p + q) + r == (p + r) + q`.
pub proof fn lemma_add_right_comm<R: Ring>(p: R, q: R, r: R)
    ensures
        R::add_spec(R::add_spec(p, q), r) == R::add_spec(R::add_spec(p, r), q),
{
    R::lemma_add_assoc(p, q, r);
    R::lemma_add_comm(q, r);
    R::lemma_add_assoc(p, r, q);
}

/// `(-a) * b == -(a * b)`.
pub proof fn lemma_mul_neg<R: Ring>(a: R, b: R)
    ensures
        R::mul_spec(R::neg_spec(a), b) == R::neg_spec(R::mul_spec(a, b)),
{
    let ab = R::mul_spec(a, b);
    lemma_distrib_right(R::neg_spec(a), a, b);
    R::lemma_add_comm(R::neg_spec(a), a);
    R::lemma_add_neg(a);
    R::lemma_mul_zero(b);
    R::lemma_add_neg(ab);
    R::lemma_add_comm(R::neg_spec(ab), ab);
    lemma_add_cancel(R::mul_spec(R::neg_spec(a), b), R::neg_spec(ab), ab);
}

/// `-0 == 0`.
pub proof fn lemma_neg_zero<R: Ring>()
    ensures
        R::neg_spec(R::zero_spec()) == R::zero_spec(),
{
    R::lemma_add_neg(R::zero_spec());
    R::lemma_add_zero(R::neg_spec(R::zero_spec()));
}

/// Changing the terms at one index `j` below `k`: the new sum plus the old
/// term equals the old sum plus the new term.
pub proof fn lemma_lin_update<R: Ring>(
    u: spec_fn(int) -> R,
    v: spec_fn(int) -> R,
    u2: spec_fn(int) -> R,
    v2: spec_fn(int) -> R,
    j: int,
    k: nat,
)
    requires
        0 <= j < k,
        forall|t: int| 0 <= t < k && t != j ==> #[trigger] u2(t) == u(t) && v2(t) == v(t),
    ensures
        R::add_spec(lin(u2, v2, k), R::mul_spec(u(j), v(j))) == R::add_spec(
            lin(u, v, k),
            R::mul_spec(u2(j), v2(j)),
        ),
    decreases k,
{
    let q = (k - 1) as nat;
    let a = R::mul_spec(u(j), v(j));
    let a2 = R::mul_spec(u2(j), v2(j));
    if j == k - 1 {
        lemma_lin_ext(u2, u, v2, v, q);
        lemma_add_right_comm(lin(u, v, q), a2, a);
    } else {
        lemma_lin_update(u, v, u2, v2, j, q);
        let x = R::mul_spec(u(q as int), v(q as int));
        lemma_add_right_comm(lin(u2, v2, q), x, a);
        lemma_add_right_comm(lin(u, v, q), x, a2);
    }
}

} // verus!
