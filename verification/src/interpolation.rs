//! Why shares combine to the secret: Lagrange interpolation over the scalar
//! ring, as numbers.
//!
//! The dealer hands member `i` the value of a polynomial at the node `i + 1`.
//! The sum of such values, each weighted by the Lagrange coefficient of its
//! node, is the value of the polynomial wherever the coefficients are taken,
//! as long as there are at least as many nodes as the polynomial has
//! coefficients. At zero that value is the secret.

use crate::algebra::{
    fr_add, fr_inv, fr_invertible, fr_is_inverse, fr_modulus, fr_mul, fr_neg, fr_pow, fr_sub,
    lemma_fr_add_assoc, lemma_fr_add_comm, lemma_fr_add_neg, lemma_fr_add_reduce,
    lemma_fr_add_stands, lemma_fr_add_zero, lemma_fr_distrib, lemma_fr_distrib_sub,
    lemma_fr_mul_assoc, lemma_fr_mul_bound, lemma_fr_mul_cancel_both, lemma_fr_mul_comm,
    lemma_fr_mul_neg, lemma_fr_mul_neg_right, lemma_fr_mul_one, lemma_fr_mul_stands,
    lemma_fr_mul_swap, lemma_fr_mul_zero, lemma_fr_neg_add, lemma_fr_neg_sub, lemma_fr_reduce_bound,
    lemma_fr_reduce_small, lemma_fr_sub_chain, lemma_fr_sub_is_add_neg, lemma_fr_sub_neg,
    lemma_fr_sub_stands,
};
use crate::dealer::{poly_eval, poly_eval_prefix};
use crate::lagrange::{
    basis_all, basis_defined, lagrange_all, lagrange_coeff, lagrange_defined_at, lagrange_partial,
    lemma_lagrange_equivalence_all, nodes, nodes_of, occurs_twice,
};
use crate::public::{combining_weights, negated_powers};
use crate::units::lemma_small_members_apart;
use vstd::prelude::*;

verus! {

/// The product of `z - x[l]` over the positions `l < m`.
pub open spec fn vanishing(x: Seq<nat>, z: nat, m: nat) -> nat
    decreases m,
{
    if m == 0 {
        1
    } else {
        fr_mul(vanishing(x, z, (m - 1) as nat), fr_sub(z, x[m - 1]))
    }
}

/// The product of `1 / (x[j] - x[l])` over the positions `l < m` other than
/// `j`.
pub open spec fn weight(x: Seq<nat>, j: int, m: nat) -> nat
    decreases m,
{
    if m == 0 {
        1
    } else if m - 1 == j {
        weight(x, j, (m - 1) as nat)
    } else {
        fr_mul(weight(x, j, (m - 1) as nat), fr_inv(fr_sub(x[j], x[m - 1])))
    }
}

/// The nodes at the positions up to `m` differ by invertible numbers.
pub open spec fn nodes_apart(x: Seq<nat>, m: nat) -> bool {
    forall|i: int, j: int|
        0 <= i < m && 0 <= j < m && i != j ==> fr_invertible(#[trigger] fr_sub(x[i], x[j]))
}

proof fn lemma_reduced(x: Seq<nat>, j: int, z: nat, m: nat)
    ensures
        vanishing(x, z, m) < fr_modulus(),
        weight(x, j, m) < fr_modulus(),
        lagrange_partial(x, j, z, m) < fr_modulus(),
    decreases m,
{
    if m > 0 {
        let k = (m - 1) as nat;
        lemma_reduced(x, j, z, k);
        lemma_fr_mul_bound(vanishing(x, z, k), fr_sub(z, x[k as int]));
        lemma_fr_mul_bound(weight(x, j, k), fr_inv(fr_sub(x[j], x[k as int])));
        lemma_fr_mul_bound(
            lagrange_partial(x, j, z, k),
            fr_mul(fr_sub(z, x[k as int]), fr_inv(fr_sub(x[j], x[k as int]))),
        );
    }
}

/// A basis polynomial over the first `m` nodes is the product of all
/// `z - x[l]` and the weight of its node, but for the factor of its own node.
proof fn lemma_partial_factors(x: Seq<nat>, j: int, z: nat, m: nat)
    requires
        0 <= j,
    ensures
        m <= j ==> lagrange_partial(x, j, z, m) == fr_mul(vanishing(x, z, m), weight(x, j, m)),
        j < m ==> fr_mul(lagrange_partial(x, j, z, m), fr_sub(z, x[j])) == fr_mul(
            vanishing(x, z, m),
            weight(x, j, m),
        ),
    decreases m,
{
    if m == 0 {
        lemma_fr_mul_one(1);
    } else {
        let k = (m - 1) as nat;
        lemma_partial_factors(x, j, z, k);
        let p = lagrange_partial(x, j, z, k);
        let v = vanishing(x, z, k);
        let w = weight(x, j, k);
        let s = fr_sub(z, x[j]);
        let a = fr_sub(z, x[k as int]);
        let u = fr_inv(fr_sub(x[j], x[k as int]));
        if k == j {
            // (v w) s = v (w s) = v (s w) = (v s) w
            lemma_fr_mul_assoc(v, w, s);
            lemma_fr_mul_comm(w, s);
            lemma_fr_mul_assoc(v, s, w);
        } else if k < j {
            lemma_fr_mul_swap(v, w, a, u);
        } else {
            // (p (a u)) s = p ((a u) s) = p (s (a u)) = (p s) (a u)
            lemma_fr_mul_assoc(p, fr_mul(a, u), s);
            lemma_fr_mul_comm(fr_mul(a, u), s);
            lemma_fr_mul_assoc(p, s, fr_mul(a, u));
            lemma_fr_mul_swap(v, w, a, u);
        }
    }
}

/// The basis polynomial of a node over the nodes before it is one at that
/// node.
proof fn lemma_own_basis(x: Seq<nat>, t: int, m: nat)
    requires
        m <= t,
        forall|l: int| 0 <= l < m ==> fr_invertible(#[trigger] fr_sub(x[t], x[l])),
    ensures
        fr_mul(vanishing(x, x[t], m), weight(x, t, m)) == 1,
    decreases m,
{
    lemma_fr_mul_one(1);
    if m > 0 {
        let k = (m - 1) as nat;
        lemma_own_basis(x, t, k);
        let d = fr_sub(x[t], x[k as int]);
        assert(fr_invertible(d));
        assert(fr_is_inverse(d, fr_inv(d)));
        lemma_fr_mul_swap(vanishing(x, x[t], k), d, weight(x, t, k), fr_inv(d));
    }
}

/// How the basis polynomial of node `j` changes when the node `m` joins the
/// first `m` nodes: what it was, less its value at the new node times the
/// basis polynomial of the new node.
proof fn lemma_basis_step(x: Seq<nat>, j: int, z: nat, m: nat)
    requires
        0 <= j < m < x.len(),
        nodes_apart(x, m + 1),
    ensures
        lagrange_partial(x, j, z, m + 1) == fr_sub(
            lagrange_partial(x, j, z, m),
            fr_mul(lagrange_partial(x, j, x[m as int], m), lagrange_partial(x, m as int, z, m)),
        ),
{
    let xm = x[m as int];
    let l = lagrange_partial(x, j, z, m);
    let lm = lagrange_partial(x, j, xm, m);
    let mm = lagrange_partial(x, m as int, z, m);
    let d = fr_sub(x[j], xm);
    let u = fr_inv(d);
    let a = fr_sub(z, xm);
    let s = fr_sub(z, x[j]);
    let sm = fr_sub(xm, x[j]);
    let v = vanishing(x, z, m);
    let vm = vanishing(x, xm, m);
    let w = weight(x, j, m);
    let wm = weight(x, m as int, m);
    let left = lagrange_partial(x, j, z, m + 1);
    let right = fr_sub(l, fr_mul(lm, mm));
    assert(left == fr_mul(l, fr_mul(a, u)));
    assert(fr_invertible(d));
    assert(fr_is_inverse(d, u));
    lemma_reduced(x, j, z, m);
    lemma_reduced(x, j, z, m + 1);
    lemma_reduced(x, j, xm, m);
    lemma_reduced(x, m as int, z, m);
    lemma_fr_reduce_bound(z as int - xm as int);
    lemma_fr_reduce_bound(l as int - fr_mul(lm, mm) as int);

    // left d = l a
    assert(fr_mul(left, d) == fr_mul(l, a)) by {
        lemma_fr_mul_assoc(l, fr_mul(a, u), d);
        lemma_fr_mul_assoc(a, u, d);
        lemma_fr_mul_comm(u, d);
        lemma_fr_mul_one(a);
    }

    // (lm mm) sm = l s
    lemma_partial_factors(x, j, z, m);
    lemma_partial_factors(x, j, xm, m);
    lemma_partial_factors(x, m as int, z, m);
    assert forall|k: int| 0 <= k < m implies fr_invertible(#[trigger] fr_sub(x[m as int], x[k])) by {}
    lemma_own_basis(x, m as int, m);
    assert(fr_mul(fr_mul(lm, mm), sm) == fr_mul(l, s)) by {
        // (lm mm) sm = lm (mm sm) = lm (sm mm) = (lm sm) mm = (vm w) (v wm)
        lemma_fr_mul_assoc(lm, mm, sm);
        lemma_fr_mul_comm(mm, sm);
        lemma_fr_mul_assoc(lm, sm, mm);
        // (vm w) (v wm) = (vm v) (w wm) ; and (vm wm) (v w) = (vm v) (wm w)
        lemma_fr_mul_swap(vm, w, v, wm);
        lemma_fr_mul_swap(vm, wm, v, w);
        lemma_fr_mul_comm(w, wm);
        lemma_fr_mul_bound(v, w);
        lemma_fr_mul_one(fr_mul(v, w));
    }

    // right d = l d - (lm mm) d = l d + l s = l (d + s) = l a
    assert(fr_mul(right, d) == fr_mul(l, a)) by {
        lemma_fr_mul_comm(right, d);
        lemma_fr_distrib_sub(d, l, fr_mul(lm, mm));
        lemma_fr_mul_comm(d, l);
        lemma_fr_mul_comm(d, fr_mul(lm, mm));
        // (lm mm) d = -((lm mm) sm) = -(l s)
        lemma_fr_neg_sub(xm, x[j]);
        assert(d == fr_neg(sm));
        lemma_fr_mul_neg_right(fr_mul(lm, mm), sm);
        lemma_fr_sub_neg(fr_mul(l, d), fr_mul(l, s));
        lemma_fr_distrib(l, d, s);
        lemma_fr_sub_chain(z, x[j], xm);
    }
    lemma_fr_mul_cancel_both(left, right, d);
}

/// The sum, over the positions `j < k`, of the basis polynomial of node `j`
/// over the first `m` nodes, at `z`, times `v[j]`.
pub open spec fn weighted_sum(x: Seq<nat>, v: Seq<nat>, z: nat, m: nat, k: nat) -> nat
    decreases k,
{
    if k == 0 {
        0
    } else {
        fr_add(
            weighted_sum(x, v, z, m, (k - 1) as nat),
            fr_mul(lagrange_partial(x, k - 1, z, m), v[k - 1]),
        )
    }
}

/// As many ones as there are nodes.
pub open spec fn ones(x: Seq<nat>) -> Seq<nat> {
    Seq::new(x.len(), |j: int| 1nat)
}

proof fn lemma_sum_reduced(x: Seq<nat>, v: Seq<nat>, z: nat, m: nat, k: nat)
    ensures
        weighted_sum(x, v, z, m, k) < fr_modulus(),
    decreases k,
{
    if k > 0 {
        lemma_fr_reduce_bound(
            weighted_sum(x, v, z, m, (k - 1) as nat) as int + fr_mul(
                lagrange_partial(x, k - 1, z, m),
                v[k - 1],
            ) as int,
        );
    } else {
        lemma_fr_reduce_small(0);
    }
}

/// `(a - b m) + (c - d m) v = (a + c v) - (b + d v) m`.
proof fn lemma_step_combines(a: nat, b: nat, c: nat, d: nat, m: nat, v: nat)
    ensures
        fr_add(fr_sub(a, fr_mul(b, m)), fr_mul(fr_sub(c, fr_mul(d, m)), v)) == fr_sub(
            fr_add(a, fr_mul(c, v)),
            fr_mul(fr_add(b, fr_mul(d, v)), m),
        ),
{
    let (ai, bi, ci, di, mi, vi) = (a as int, b as int, c as int, d as int, m as int, v as int);
    // the left side
    lemma_fr_mul_stands(b, bi, m, mi);
    lemma_fr_sub_stands(a, ai, fr_mul(b, m), bi * mi);
    lemma_fr_mul_stands(d, di, m, mi);
    lemma_fr_sub_stands(c, ci, fr_mul(d, m), di * mi);
    lemma_fr_mul_stands(fr_sub(c, fr_mul(d, m)), ci - di * mi, v, vi);
    lemma_fr_add_stands(
        fr_sub(a, fr_mul(b, m)),
        ai - bi * mi,
        fr_mul(fr_sub(c, fr_mul(d, m)), v),
        (ci - di * mi) * vi,
    );
    // the right side
    lemma_fr_mul_stands(c, ci, v, vi);
    lemma_fr_add_stands(a, ai, fr_mul(c, v), ci * vi);
    lemma_fr_mul_stands(d, di, v, vi);
    lemma_fr_add_stands(b, bi, fr_mul(d, v), di * vi);
    lemma_fr_mul_stands(fr_add(b, fr_mul(d, v)), bi + di * vi, m, mi);
    lemma_fr_sub_stands(
        fr_add(a, fr_mul(c, v)),
        ai + ci * vi,
        fr_mul(fr_add(b, fr_mul(d, v)), m),
        (bi + di * vi) * mi,
    );
    assert((ai - bi * mi) + (ci - di * mi) * vi == (ai + ci * vi) - (bi + di * vi) * mi)
        by (nonlinear_arith);
}

/// How a weighted sum over the first `m` nodes changes when the node `m`
/// joins them: what it was, less its value at the new node times the basis
/// polynomial of the new node.
proof fn lemma_sum_step(x: Seq<nat>, v: Seq<nat>, z: nat, m: nat, k: nat)
    requires
        k <= m < x.len(),
        nodes_apart(x, m + 1),
    ensures
        weighted_sum(x, v, z, m + 1, k) == fr_sub(
            weighted_sum(x, v, z, m, k),
            fr_mul(weighted_sum(x, v, x[m as int], m, k), lagrange_partial(x, m as int, z, m)),
        ),
    decreases k,
{
    let mm = lagrange_partial(x, m as int, z, m);
    if k == 0 {
        lemma_fr_mul_zero(mm);
        lemma_fr_add_neg(0);
    } else {
        let j = (k - 1) as nat;
        lemma_sum_step(x, v, z, m, j);
        lemma_basis_step(x, j as int, z, m);
        lemma_step_combines(
            weighted_sum(x, v, z, m, j),
            weighted_sum(x, v, x[m as int], m, j),
            lagrange_partial(x, j as int, z, m),
            lagrange_partial(x, j as int, x[m as int], m),
            mm,
            v[j as int],
        );
    }
}

/// The basis polynomials over the first `m` nodes add up to one everywhere.
proof fn lemma_basis_adds_up(x: Seq<nat>, z: nat, m: nat)
    requires
        1 <= m <= x.len(),
        nodes_apart(x, m),
    ensures
        weighted_sum(x, ones(x), z, m, m) == 1,
    decreases m,
{
    let v = ones(x);
    if m == 1 {
        assert(weighted_sum(x, v, z, 1, 0) == 0);
        assert(lagrange_partial(x, 0, z, 0) == 1);
        assert(lagrange_partial(x, 0, z, 1) == 1);
        lemma_fr_mul_one(1);
        lemma_fr_add_zero(1);
    } else {
        let n = (m - 1) as nat;
        let xn = x[n as int];
        let mm = lagrange_partial(x, n as int, z, n);
        assert(nodes_apart(x, n));
        lemma_basis_adds_up(x, z, n);
        lemma_basis_adds_up(x, xn, n);
        lemma_sum_step(x, v, z, n, n);
        lemma_reduced(x, n as int, z, n);
        lemma_reduced(x, n as int, z, m);
        // (1 - 1 mm) + mm 1 = 1
        assert(lagrange_partial(x, n as int, z, m) == mm);
        lemma_fr_mul_one(mm);
        lemma_fr_sub_is_add_neg(1, mm);
        lemma_fr_add_assoc(1, fr_neg(mm), mm);
        lemma_fr_add_comm(fr_neg(mm), mm);
        lemma_fr_add_neg(mm);
        lemma_fr_reduce_small(1);
    }
}

/// The value at `y` of the polynomial with the coefficients `f`, by Horner's
/// rule.
pub open spec fn horner(f: Seq<nat>, y: nat) -> nat
    decreases f.len(),
{
    if f.len() == 0 {
        0
    } else {
        fr_add(f[0], fr_mul(y, horner(f.skip(1), y)))
    }
}

/// The quotient of the polynomial with the coefficients `f` by `y - c`.
pub open spec fn quotient(f: Seq<nat>, c: nat) -> Seq<nat>
    decreases f.len(),
{
    if f.len() <= 1 {
        Seq::empty()
    } else {
        seq![horner(f.skip(1), c)] + quotient(f.skip(1), c)
    }
}

proof fn lemma_horner_reduced(f: Seq<nat>, y: nat)
    ensures
        horner(f, y) < fr_modulus(),
{
    if f.len() > 0 {
        lemma_fr_reduce_bound(f[0] as int + fr_mul(y, horner(f.skip(1), y)) as int);
    } else {
        lemma_fr_reduce_small(0);
    }
}

/// The first terms of a polynomial are the constant term and `y` times the
/// first terms of the polynomial with the other coefficients.
proof fn lemma_prefix_shifts(f: Seq<nat>, y: nat, k: nat)
    requires
        1 <= k <= f.len(),
    ensures
        poly_eval_prefix(f, y, k) == fr_add(
            f[0],
            fr_mul(y, poly_eval_prefix(f.skip(1), y, (k - 1) as nat)),
        ),
    decreases k,
{
    let g = f.skip(1);
    if k == 1 {
        assert(poly_eval_prefix(f, y, 0) == 0);
        assert(fr_pow(y, 0) == 1);
        assert(poly_eval_prefix(g, y, 0) == 0);
        lemma_fr_add_reduce(0, f[0] as int * 1);
        assert(f[0] as int * 1 == f[0] as int);
        lemma_fr_add_reduce(f[0] as int, y as int * 0);
        assert(y as int * 0 == 0);
    } else {
        let j = (k - 1) as nat;
        lemma_prefix_shifts(f, y, j);
        let a = poly_eval_prefix(g, y, (j - 1) as nat);
        let p = fr_pow(y, (j - 1) as nat);
        let c = f[j as int];
        assert(g[j - 1] == c);
        assert(fr_pow(y, j) == fr_mul(p, y));
        // y (a + c p) = y a + c (p y)
        lemma_fr_distrib(y, a, fr_mul(c, p));
        lemma_fr_mul_assoc(c, p, y);
        lemma_fr_mul_comm(y, fr_mul(c, p));
        lemma_fr_add_assoc(f[0], fr_mul(y, a), fr_mul(c, fr_mul(p, y)));
    }
}

/// Horner's rule gives the value of the polynomial.
pub proof fn lemma_horner(f: Seq<nat>, y: nat)
    ensures
        horner(f, y) == poly_eval(f, y),
    decreases f.len(),
{
    if f.len() > 0 {
        lemma_horner(f.skip(1), y);
        lemma_prefix_shifts(f, y, f.len());
    }
}

/// `f0 + y (g + (y - c) q) = (f0 + c g) + (y - c) (g + y q)`.
proof fn lemma_division_combines(f0: nat, y: nat, c: nat, g: nat, q: nat)
    ensures
        fr_add(f0, fr_mul(y, fr_add(g, fr_mul(fr_sub(y, c), q)))) == fr_add(
            fr_add(f0, fr_mul(c, g)),
            fr_mul(fr_sub(y, c), fr_add(g, fr_mul(y, q))),
        ),
{
    let (fi, yi, ci, gi, qi) = (f0 as int, y as int, c as int, g as int, q as int);
    let d = fr_sub(y, c);
    lemma_fr_sub_stands(y, yi, c, ci);
    // the left side
    lemma_fr_mul_stands(d, yi - ci, q, qi);
    lemma_fr_add_stands(g, gi, fr_mul(d, q), (yi - ci) * qi);
    lemma_fr_mul_stands(y, yi, fr_add(g, fr_mul(d, q)), gi + (yi - ci) * qi);
    lemma_fr_add_stands(
        f0,
        fi,
        fr_mul(y, fr_add(g, fr_mul(d, q))),
        yi * (gi + (yi - ci) * qi),
    );
    // the right side
    lemma_fr_mul_stands(c, ci, g, gi);
    lemma_fr_add_stands(f0, fi, fr_mul(c, g), ci * gi);
    lemma_fr_mul_stands(y, yi, q, qi);
    lemma_fr_add_stands(g, gi, fr_mul(y, q), yi * qi);
    lemma_fr_mul_stands(d, yi - ci, fr_add(g, fr_mul(y, q)), gi + yi * qi);
    lemma_fr_add_stands(
        fr_add(f0, fr_mul(c, g)),
        fi + ci * gi,
        fr_mul(d, fr_add(g, fr_mul(y, q))),
        (yi - ci) * (gi + yi * qi),
    );
    assert(fi + yi * (gi + (yi - ci) * qi) == (fi + ci * gi) + (yi - ci) * (gi + yi * qi))
        by (nonlinear_arith);
}

/// A polynomial is its value at `c` plus `y - c` times its quotient by
/// `y - c`.
pub proof fn lemma_division(f: Seq<nat>, y: nat, c: nat)
    ensures
        horner(f, y) == fr_add(horner(f, c), fr_mul(fr_sub(y, c), horner(quotient(f, c), y))),
        f.len() >= 1 ==> quotient(f, c).len() == f.len() - 1,
        f.len() == 0 ==> quotient(f, c).len() == 0,
    decreases f.len(),
{
    let d = fr_sub(y, c);
    if f.len() == 0 {
        lemma_fr_mul_zero(d);
        lemma_fr_add_zero(0);
    } else if f.len() == 1 {
        assert(horner(f.skip(1), y) == 0);
        assert(horner(f.skip(1), c) == 0);
        assert(horner(quotient(f, c), y) == 0);
        lemma_fr_mul_zero(d);
        lemma_fr_mul_zero(y);
        lemma_fr_mul_zero(c);
        lemma_horner_reduced(f, c);
        lemma_fr_add_zero(horner(f, c));
    } else {
        let g = f.skip(1);
        let q = quotient(f, c);
        let qg = quotient(g, c);
        lemma_division(g, y, c);
        assert(q[0] == horner(g, c));
        assert(q.skip(1) =~= qg);
        assert(horner(q, y) == fr_add(horner(g, c), fr_mul(y, horner(qg, y))));
        lemma_division_combines(f[0], y, c, horner(g, c), horner(qg, y));
    }
}

/// The values of the polynomial with the coefficients `f` at the nodes.
pub open spec fn evaluations(f: Seq<nat>, x: Seq<nat>) -> Seq<nat> {
    Seq::new(x.len(), |j: int| poly_eval(f, x[j]))
}

/// A weighted sum of zeros is zero.
proof fn lemma_sum_of_zeros(x: Seq<nat>, v: Seq<nat>, z: nat, m: nat, k: nat)
    requires
        k <= v.len(),
        forall|j: int| 0 <= j < k ==> #[trigger] v[j] == 0,
    ensures
        weighted_sum(x, v, z, m, k) == 0,
    decreases k,
{
    if k > 0 {
        lemma_sum_of_zeros(x, v, z, m, (k - 1) as nat);
        lemma_fr_mul_zero(lagrange_partial(x, k - 1, z, m));
        lemma_fr_add_zero(0);
    }
}

/// `(e p + a r) + (l e + (u a) v) = e (p + l 1) + a (r + u v)`.
proof fn lemma_split_combines(e: nat, p: nat, a: nat, r: nat, l: nat, u: nat, v: nat)
    ensures
        fr_add(
            fr_add(fr_mul(e, p), fr_mul(a, r)),
            fr_add(fr_mul(l, e), fr_mul(fr_mul(u, a), v)),
        ) == fr_add(fr_mul(e, fr_add(p, fr_mul(l, 1))), fr_mul(a, fr_add(r, fr_mul(u, v)))),
{
    let (ei, pi, ai, ri, li, ui, vi) = (
        e as int,
        p as int,
        a as int,
        r as int,
        l as int,
        u as int,
        v as int,
    );
    // the left side
    lemma_fr_mul_stands(e, ei, p, pi);
    lemma_fr_mul_stands(a, ai, r, ri);
    lemma_fr_add_stands(fr_mul(e, p), ei * pi, fr_mul(a, r), ai * ri);
    lemma_fr_mul_stands(l, li, e, ei);
    lemma_fr_mul_stands(u, ui, a, ai);
    lemma_fr_mul_stands(fr_mul(u, a), ui * ai, v, vi);
    lemma_fr_add_stands(fr_mul(l, e), li * ei, fr_mul(fr_mul(u, a), v), (ui * ai) * vi);
    lemma_fr_add_stands(
        fr_add(fr_mul(e, p), fr_mul(a, r)),
        ei * pi + ai * ri,
        fr_add(fr_mul(l, e), fr_mul(fr_mul(u, a), v)),
        li * ei + (ui * ai) * vi,
    );
    // the right side
    lemma_fr_mul_stands(l, li, 1, 1);
    lemma_fr_add_stands(p, pi, fr_mul(l, 1), li * 1);
    lemma_fr_mul_stands(e, ei, fr_add(p, fr_mul(l, 1)), pi + li * 1);
    lemma_fr_mul_stands(u, ui, v, vi);
    lemma_fr_add_stands(r, ri, fr_mul(u, v), ui * vi);
    lemma_fr_mul_stands(a, ai, fr_add(r, fr_mul(u, v)), ri + ui * vi);
    lemma_fr_add_stands(
        fr_mul(e, fr_add(p, fr_mul(l, 1))),
        ei * (pi + li * 1),
        fr_mul(a, fr_add(r, fr_mul(u, v))),
        ai * (ri + ui * vi),
    );
    assert((ei * pi + ai * ri) + (li * ei + (ui * ai) * vi) == ei * (pi + li * 1) + ai * (ri + ui
        * vi)) by (nonlinear_arith);
}

/// A weighted sum of the values of a polynomial, over the first `m` nodes but
/// the last, in terms of the quotient of the polynomial by `y - c`, where `c`
/// is the last node.
proof fn lemma_sum_splits(x: Seq<nat>, f: Seq<nat>, z: nat, m: nat, k: nat)
    requires
        1 <= m <= x.len(),
        k <= m - 1,
        nodes_apart(x, m),
    ensures
        weighted_sum(x, evaluations(f, x), z, m, k) == fr_add(
            fr_mul(horner(f, x[m - 1]), weighted_sum(x, ones(x), z, m, k)),
            fr_mul(
                fr_sub(z, x[m - 1]),
                weighted_sum(x, evaluations(quotient(f, x[m - 1]), x), z, (m - 1) as nat, k),
            ),
        ),
    decreases k,
{
    let n = (m - 1) as nat;
    let c = x[n as int];
    let e = horner(f, c);
    let a = fr_sub(z, c);
    let q = quotient(f, c);
    if k == 0 {
        lemma_fr_mul_zero(e);
        lemma_fr_mul_zero(a);
        lemma_fr_add_zero(0);
    } else {
        let j = (k - 1) as nat;
        lemma_sum_splits(x, f, z, m, j);
        let xj = x[j as int];
        let l = lagrange_partial(x, j as int, z, m);
        let u = lagrange_partial(x, j as int, z, n);
        let delta = fr_sub(xj, c);
        let inverse = fr_inv(delta);
        let value = evaluations(f, x)[j as int];
        let rest = evaluations(q, x)[j as int];
        // the value at the node, by the quotient
        lemma_horner(f, xj);
        lemma_horner(q, xj);
        lemma_division(f, xj, c);
        assert(value == fr_add(e, fr_mul(delta, rest)));
        // the basis polynomial over the nodes with the last, times the
        // difference to the last node
        assert(fr_invertible(delta));
        assert(fr_is_inverse(delta, inverse));
        assert(l == fr_mul(u, fr_mul(a, inverse)));
        lemma_reduced(x, j as int, z, n);
        lemma_fr_mul_bound(u, a);
        assert(fr_mul(l, delta) == fr_mul(u, a)) by {
            lemma_fr_mul_assoc(u, fr_mul(a, inverse), delta);
            lemma_fr_mul_assoc(a, inverse, delta);
            lemma_fr_mul_comm(inverse, delta);
            lemma_fr_reduce_bound(z as int - c as int);
            lemma_fr_mul_one(a);
        }
        // l (e + delta rest) = l e + (l delta) rest
        lemma_fr_distrib(l, e, fr_mul(delta, rest));
        lemma_fr_mul_assoc(l, delta, rest);
        lemma_split_combines(
            e,
            weighted_sum(x, ones(x), z, m, j),
            a,
            weighted_sum(x, evaluations(q, x), z, n, j),
            l,
            u,
            rest,
        );
    }
}

/// Lagrange interpolation: the values of a polynomial at the first `m` nodes,
/// each weighted by the basis polynomial of its node at `z`, add up to the
/// value of the polynomial at `z`, where the polynomial has at most `m`
/// coefficients and the nodes differ by invertible numbers.
pub proof fn lemma_interpolation(x: Seq<nat>, f: Seq<nat>, z: nat, m: nat)
    requires
        f.len() <= m <= x.len(),
        nodes_apart(x, m),
    ensures
        weighted_sum(x, evaluations(f, x), z, m, m) == poly_eval(f, z),
    decreases m,
{
    if f.len() == 0 {
        assert forall|j: int| 0 <= j < m implies #[trigger] evaluations(f, x)[j] == 0 by {}
        lemma_sum_of_zeros(x, evaluations(f, x), z, m, m);
    } else {
        let n = (m - 1) as nat;
        let c = x[n as int];
        let e = horner(f, c);
        let a = fr_sub(z, c);
        let q = quotient(f, c);
        let l = lagrange_partial(x, n as int, z, m);
        let p = weighted_sum(x, ones(x), z, m, n);
        let r = weighted_sum(x, evaluations(q, x), z, n, n);
        lemma_division(f, z, c);
        lemma_horner(f, z);
        lemma_horner(f, c);
        lemma_horner(q, z);
        assert(nodes_apart(x, n));
        lemma_interpolation(x, q, z, n);
        lemma_sum_splits(x, f, z, m, n);
        lemma_basis_adds_up(x, z, m);
        assert(evaluations(f, x)[n as int] == e);
        // (e p + a r) + l e = e (p + l 1) + a r = e 1 + a r
        lemma_fr_mul_zero(a);
        lemma_fr_mul_bound(l, e);
        lemma_fr_add_zero(fr_mul(l, e));
        lemma_split_combines(e, p, a, r, l, 0, 0);
        lemma_sum_reduced(x, evaluations(q, x), z, n, n);
        lemma_fr_add_zero(r);
        lemma_horner_reduced(f, c);
        lemma_fr_mul_one(e);
    }
}

/// The sum of the products `a[j] * b[j]` over the positions `j < k`.
pub open spec fn fr_dot(a: Seq<nat>, b: Seq<nat>, k: nat) -> nat
    decreases k,
{
    if k == 0 {
        0
    } else {
        fr_add(fr_dot(a, b, (k - 1) as nat), fr_mul(a[k - 1], b[k - 1]))
    }
}

/// A weighted sum over all nodes is the sum of the products of the Lagrange
/// coefficients and the values.
proof fn lemma_sum_is_dot(x: Seq<nat>, v: Seq<nat>, z: nat, k: nat)
    requires
        k <= x.len(),
    ensures
        weighted_sum(x, v, z, x.len(), k) == fr_dot(lagrange_all(x, z), v, k),
    decreases k,
{
    if k > 0 {
        lemma_sum_is_dot(x, v, z, (k - 1) as nat);
        assert(lagrange_all(x, z)[k - 1] == lagrange_coeff(x, k - 1, z));
    }
}

/// The sum of products over two sequences in a row is the sum of the two sums
/// of products.
proof fn lemma_dot_of_two(a1: Seq<nat>, a2: Seq<nat>, b1: Seq<nat>, b2: Seq<nat>, k: nat)
    requires
        a1.len() == b1.len(),
        k <= a2.len(),
        k <= b2.len(),
    ensures
        fr_dot(a1 + a2, b1 + b2, a1.len() + k) == fr_add(
            fr_dot(a1, b1, a1.len()),
            fr_dot(a2, b2, k),
        ),
    decreases k,
{
    let n = a1.len();
    if k == 0 {
        lemma_dot_prefix(a1 + a2, b1 + b2, a1, b1, n);
        lemma_dot_reduced(a1, b1, n);
        lemma_fr_add_zero(fr_dot(a1, b1, n));
    } else {
        lemma_dot_of_two(a1, a2, b1, b2, (k - 1) as nat);
        assert((a1 + a2)[n + k - 1] == a2[k - 1]);
        assert((b1 + b2)[n + k - 1] == b2[k - 1]);
        lemma_fr_add_assoc(
            fr_dot(a1, b1, n),
            fr_dot(a2, b2, (k - 1) as nat),
            fr_mul(a2[k - 1], b2[k - 1]),
        );
    }
}

proof fn lemma_dot_reduced(a: Seq<nat>, b: Seq<nat>, k: nat)
    ensures
        fr_dot(a, b, k) < fr_modulus(),
{
    if k > 0 {
        lemma_fr_reduce_bound(
            fr_dot(a, b, (k - 1) as nat) as int + fr_mul(a[k - 1], b[k - 1]) as int,
        );
    } else {
        lemma_fr_reduce_small(0);
    }
}

/// A sum of products depends only on the items that it takes.
proof fn lemma_dot_prefix(a: Seq<nat>, b: Seq<nat>, c: Seq<nat>, d: Seq<nat>, k: nat)
    requires
        k <= a.len(),
        k <= b.len(),
        k <= c.len(),
        k <= d.len(),
        forall|j: int| 0 <= j < k ==> a[j] == c[j] && b[j] == d[j],
    ensures
        fr_dot(a, b, k) == fr_dot(c, d, k),
    decreases k,
{
    if k > 0 {
        lemma_dot_prefix(a, b, c, d, (k - 1) as nat);
    }
}

/// `(a + s c) + s (v - c) = a + s v`.
proof fn lemma_update_combines(a: nat, s: nat, c: nat, v: nat)
    ensures
        fr_add(fr_add(a, fr_mul(s, c)), fr_mul(s, fr_sub(v, c))) == fr_add(a, fr_mul(s, v)),
{
    let (ai, si, ci, vi) = (a as int, s as int, c as int, v as int);
    lemma_fr_mul_stands(s, si, c, ci);
    lemma_fr_add_stands(a, ai, fr_mul(s, c), si * ci);
    lemma_fr_sub_stands(v, vi, c, ci);
    lemma_fr_mul_stands(s, si, fr_sub(v, c), vi - ci);
    lemma_fr_add_stands(
        fr_add(a, fr_mul(s, c)),
        ai + si * ci,
        fr_mul(s, fr_sub(v, c)),
        si * (vi - ci),
    );
    lemma_fr_mul_stands(s, si, v, vi);
    lemma_fr_add_stands(a, ai, fr_mul(s, v), si * vi);
    assert((ai + si * ci) + si * (vi - ci) == ai + si * vi) by (nonlinear_arith);
}

/// What changing one of the numbers does to a sum of products: it adds the
/// change, times the number that stands against it.
pub proof fn lemma_dot_update(s: Seq<nat>, c: Seq<nat>, p: int, v: nat, m: nat)
    requires
        0 <= p < m <= c.len(),
        m <= s.len(),
    ensures
        fr_dot(s, c.update(p, v), m) == fr_add(fr_dot(s, c, m), fr_mul(s[p], fr_sub(v, c[p]))),
    decreases m,
{
    let changed = c.update(p, v);
    let last = (m - 1) as int;
    let change = fr_mul(s[p], fr_sub(v, c[p]));
    if last == p {
        lemma_dot_prefix(s, changed, s, c, last as nat);
        lemma_update_combines(fr_dot(s, c, last as nat), s[p], c[p], v);
    } else {
        lemma_dot_update(s, c, p, v, last as nat);
        let term = fr_mul(s[last], c[last]);
        // (d + change) + term = (d + term) + change
        lemma_fr_add_assoc(fr_dot(s, c, last as nat), change, term);
        lemma_fr_add_comm(change, term);
        lemma_fr_add_assoc(fr_dot(s, c, last as nat), term, change);
    }
}

/// The negated powers of `alpha`, times the coefficients of a polynomial, add
/// up to the additive inverse of its value at `alpha`.
proof fn lemma_negated_powers(f: Seq<nat>, alpha: nat, k: nat)
    requires
        k <= f.len(),
    ensures
        fr_dot(negated_powers(f.len(), alpha), f, k) == fr_neg(poly_eval_prefix(f, alpha, k)),
    decreases k,
{
    if k == 0 {
        lemma_fr_add_neg(0);
        lemma_fr_sub_is_add_neg(0, 0);
        lemma_fr_reduce_small(0);
    } else {
        let j = (k - 1) as nat;
        lemma_negated_powers(f, alpha, j);
        let p = fr_pow(alpha, j);
        assert(negated_powers(f.len(), alpha)[j as int] == fr_neg(p));
        lemma_fr_mul_neg(p, f[j as int]);
        lemma_fr_mul_comm(p, f[j as int]);
        lemma_fr_neg_add(poly_eval_prefix(f, alpha, j), fr_mul(f[j as int], p));
    }
}

/// Shares add up to the secret. Let a polynomial have the coefficients `f`,
/// and let each of the members `indices` hold its value at the member's node.
/// Where no fewer members than the polynomial has coefficients are named, and
/// the weights that `combine_shares` gives them can be computed, the values
/// times those weights add up to the constant term `f[0]`, the secret.
pub proof fn lemma_shares_add_up_to_the_secret(f: Seq<nat>, indices: Seq<usize>)
    requires
        1 <= f.len() <= indices.len(),
        forall|j: int| 0 <= j < indices.len() ==> lagrange_defined_at(nodes_of(indices), j),
    ensures
        fr_dot(
            combining_weights(indices),
            evaluations(f, nodes_of(indices)),
            indices.len(),
        ) == f[0] % fr_modulus(),
{
    let x = nodes_of(indices);
    assert(nodes_apart(x, x.len())) by {
        assert forall|i: int, j: int|
            0 <= i < x.len() && 0 <= j < x.len() && i != j implies fr_invertible(
            #[trigger] fr_sub(x[i], x[j]),
        ) by {
            assert(lagrange_defined_at(x, i));
        }
    }
    lemma_interpolation(x, f, 0, x.len());
    lemma_sum_is_dot(x, evaluations(f, x), 0, x.len());
    lemma_horner(f, 0);
    lemma_fr_mul_zero(horner(f.skip(1), 0));
}

/// Shares add up to the secret, in a committee of up to 65 members: where no
/// fewer members than the polynomial has coefficients are named, and none of
/// them twice, the values that they hold, times the weights that
/// `combine_shares` gives them, add up to the constant term `f[0]`.
pub proof fn lemma_shares_of_a_small_committee_add_up(f: Seq<nat>, indices: Seq<usize>)
    requires
        1 <= f.len() <= indices.len(),
        forall|j: int| 0 <= j < indices.len() ==> #[trigger] indices[j] < 65,
        forall|j: int| 0 <= j < indices.len() ==> !occurs_twice(indices, j),
    ensures
        fr_dot(
            combining_weights(indices),
            evaluations(f, nodes_of(indices)),
            indices.len(),
        ) == f[0] % fr_modulus(),
{
    assert forall|j: int| 0 <= j < indices.len() implies lagrange_defined_at(
        nodes_of(indices),
        j,
    ) by {
        lemma_small_members_apart(indices, j);
    }
    lemma_shares_add_up_to_the_secret(f, indices);
}

/// The consistency check passes on what an honest dealer commits to. Let a
/// polynomial have the coefficients `f`, no more than a committee of `n` has
/// members. The scalars of the check are the Lagrange coefficients at `alpha`
/// for the members and then the negated powers of `alpha`; the numbers that
/// the ciphertext commits to are the values of the polynomial at the members'
/// nodes and then its coefficients. Where the Lagrange coefficients can be
/// computed by the closed formula, the products of the former and the latter
/// add up to zero.
pub proof fn lemma_honest_evaluations_are_consistent(f: Seq<nat>, n: nat, alpha: nat)
    requires
        f.len() <= n < fr_modulus(),
        basis_defined(n, alpha),
    ensures
        fr_dot(
            basis_all(n, alpha) + negated_powers(f.len(), alpha),
            evaluations(f, nodes(n)) + f,
            n + f.len(),
        ) == 0,
{
    let x = nodes(n);
    lemma_lagrange_equivalence_all(n, alpha);
    assert(nodes_apart(x, n)) by {
        assert forall|i: int, j: int| 0 <= i < n && 0 <= j < n && i != j implies fr_invertible(
            #[trigger] fr_sub(x[i], x[j]),
        ) by {
            assert(lagrange_defined_at(x, i));
        }
    }
    lemma_interpolation(x, f, alpha, n);
    lemma_sum_is_dot(x, evaluations(f, x), alpha, n);
    lemma_negated_powers(f, alpha, f.len());
    lemma_dot_of_two(basis_all(n, alpha), negated_powers(f.len(), alpha), evaluations(f, x), f, f.len());
    lemma_fr_add_neg(poly_eval(f, alpha));
}

} // verus!
