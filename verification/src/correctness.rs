//! What the scheme promises, given the laws of the groups and the pairing.
//!
//! The library holds points by their coordinates and leaves the arithmetic of
//! the groups to `ark_ec`: it knows the results of that arithmetic by name
//! only. That an honest dealer's ciphertext passes the check, that a
//! decrypted share passes its check, that enough shares combine to the
//! committed secret, and that a ciphertext in which one commitment or share
//! has been changed is refused, rests on laws of that arithmetic. They are
//! stated here as `group_laws`, and the theorems of this module take them as
//! given: what is proved is that nothing else is needed.

use crate::algebra::{
    all_reduced, fr_add, fr_inv, fr_invertible, fr_is_inverse, fr_modulus, fr_mul, fr_neg, fr_pow,
    fr_stands_for, fr_sub, lemma_fr_add_stands, lemma_fr_add_zero, lemma_fr_mul_assoc,
    lemma_fr_mul_bound, lemma_fr_mul_comm, lemma_fr_mul_one, lemma_fr_mul_stands,
    lemma_fr_neg_bound, lemma_fr_neg_invertible, lemma_fr_neg_reduce, lemma_fr_reduce_bound,
    lemma_fr_reduce_small, lemma_fr_sub_zero, lemma_fr_unit_times_nonzero,
};
use crate::curve::{
    g1_msm, g1_mul, g1_neg, g1_points, g2_msm, g2_mul, g2_points, pairing_product_is_one, G1Point,
    G2Point,
};
use crate::dealer::{is_dealing, poly_eval, poly_eval_prefix};
use crate::errors::PVSSError;
use crate::interpolation::{
    evaluations, fr_dot, lemma_dot_update, lemma_honest_evaluations_are_consistent,
    lemma_shares_add_up_to_the_secret,
};
use crate::lagrange::{
    basis_all, basis_at, basis_defined, basis_denominator, lagrange_defined_at,
    lemma_basis_invertible, lemma_lagrange_reduced, node, node_product, nodes, nodes_of,
};
use crate::public::{
    combining_weights, evaluation_residue, negated_powers, share_check_left, share_check_right,
    share_is_valid, verdict,
};
use crate::structs::{PVSSCiphertext, PVSSConfig, PVSSSecrets};
use vstd::prelude::*;

verus! {

/// The multiples `c[i] * g` of a point of the first group.
pub open spec fn g1_multiples(g: G1Point, c: Seq<nat>) -> Seq<G1Point> {
    Seq::new(c.len(), |i: int| g1_mul(g, c[i]))
}

/// The multiples `c[i] * h` of a point of the second group.
pub open spec fn g2_multiples(h: G2Point, c: Seq<nat>) -> Seq<G2Point> {
    Seq::new(c.len(), |i: int| g2_mul(h, c[i]))
}

/// The laws of multiplying a point by a scalar on which the scheme rests, for
/// the generators `g` and `h` and reduced scalars: one times the opposite of
/// `g` is that point, and one times `h` is `h`; a multiple of the opposite of
/// `g` is the multiple of `g` by the additive inverse; a multiple of a
/// multiple is the multiple by the product; and zero times `g` is the point
/// at infinity, and nothing else times `g` is.
#[verifier::opaque]
pub open spec fn multiple_laws(g: G1Point, h: G2Point) -> bool {
    &&& g1_mul(g1_neg(g), 1) == g1_neg(g)
    &&& forall|w: nat| w < fr_modulus() ==> #[trigger] g1_mul(g1_neg(g), w) == g1_mul(g, fr_neg(w))
    &&& forall|a: nat, b: nat|
        a < fr_modulus() && b < fr_modulus() ==> #[trigger] g1_mul(g1_mul(g, a), b) == g1_mul(
            g,
            fr_mul(a, b),
        )
    &&& g1_mul(g, 0).infinity
    &&& forall|a: nat| a < fr_modulus() && (#[trigger] g1_mul(g, a)).infinity ==> a == 0
    &&& g2_mul(h, 1) == h
    &&& forall|a: nat, b: nat|
        a < fr_modulus() && b < fr_modulus() ==> #[trigger] g2_mul(g2_mul(h, a), b) == g2_mul(
            h,
            fr_mul(a, b),
        )
}

/// The law of sums of multiples on which the scheme rests, for the generators
/// `g` and `h` and reduced scalars: a sum of multiples of multiples of `g`,
/// or of `h`, is the multiple by the sum of the products.
#[verifier::opaque]
pub open spec fn sum_laws(g: G1Point, h: G2Point) -> bool {
    &&& forall|c: Seq<nat>, s: Seq<nat>|
        c.len() == s.len() && all_reduced(c) && all_reduced(s) ==> #[trigger] g1_msm(
            g1_multiples(g, c),
            s,
        ) == g1_mul(g, fr_dot(s, c, c.len()))
    &&& forall|c: Seq<nat>, s: Seq<nat>|
        c.len() == s.len() && all_reduced(c) && all_reduced(s) ==> #[trigger] g2_msm(
            g2_multiples(h, c),
            s,
        ) == g2_mul(h, fr_dot(s, c, c.len()))
}

/// The law of the pairing on which the scheme rests, for the generators `g`
/// and `h` and reduced scalars: the product of the pairings of multiples
/// `x[i] * g` with multiples `y[i] * h` is one where the products
/// `x[i] * y[i]` add up to zero, and there only.
#[verifier::opaque]
pub open spec fn pairing_laws(g: G1Point, h: G2Point) -> bool {
    forall|x: Seq<nat>, y: Seq<nat>|
        x.len() == y.len() && all_reduced(x) && all_reduced(y) ==> (#[trigger]
        pairing_product_is_one(g1_multiples(g, x), g2_multiples(h, y)) <==> fr_dot(x, y, x.len())
            == 0)
}

/// The laws of the two groups and of the pairing on which the scheme rests.
pub open spec fn group_laws(g: G1Point, h: G2Point) -> bool {
    multiple_laws(g, h) && sum_laws(g, h) && pairing_laws(g, h)
}

/// The laws of multiples, for given scalars.
proof fn lemma_multiples(g: G1Point, h: G2Point, a: nat, b: nat)
    requires
        multiple_laws(g, h),
        a < fr_modulus(),
        b < fr_modulus(),
    ensures
        g1_mul(g1_neg(g), 1) == g1_neg(g),
        g1_mul(g1_neg(g), a) == g1_mul(g, fr_neg(a)),
        g1_mul(g1_mul(g, a), b) == g1_mul(g, fr_mul(a, b)),
        g1_mul(g, 0).infinity,
        g2_mul(h, 1) == h,
        g2_mul(g2_mul(h, a), b) == g2_mul(h, fr_mul(a, b)),
{
    reveal(multiple_laws);
}

/// Only zero times `g` is the point at infinity.
proof fn lemma_not_infinity(g: G1Point, h: G2Point, a: nat)
    requires
        multiple_laws(g, h),
        0 < a < fr_modulus(),
    ensures
        !g1_mul(g, a).infinity,
{
    reveal(multiple_laws);
}

/// The law of sums, for given multiples and scalars.
proof fn lemma_sums(g: G1Point, h: G2Point, c: Seq<nat>, s: Seq<nat>)
    requires
        sum_laws(g, h),
        c.len() == s.len(),
        all_reduced(c),
        all_reduced(s),
    ensures
        g1_msm(g1_multiples(g, c), s) == g1_mul(g, fr_dot(s, c, c.len())),
        g2_msm(g2_multiples(h, c), s) == g2_mul(h, fr_dot(s, c, c.len())),
{
    reveal(sum_laws);
}

/// The law of the pairing, for given multiples.
proof fn lemma_pairings(g: G1Point, h: G2Point, x: Seq<nat>, y: Seq<nat>)
    requires
        pairing_laws(g, h),
        x.len() == y.len(),
        all_reduced(x),
        all_reduced(y),
    ensures
        pairing_product_is_one(g1_multiples(g, x), g2_multiples(h, y)) <==> fr_dot(x, y, x.len())
            == 0,
{
    reveal(pairing_laws);
}

/// The public keys of the committee belong to the secret keys `sks`: each is
/// its secret key times `h`.
pub open spec fn keys_belong(config: PVSSConfig, sks: Seq<nat>) -> bool {
    &&& sks.len() == config.pks().len()
    &&& forall|i: int|
        0 <= i < sks.len() ==> #[trigger] sks[i] < fr_modulus() && config.pks()[i]@ == g2_mul(
            config.pairing().h@,
            sks[i],
        )
}

proof fn lemma_values_reduced(f: Seq<nat>, x: nat)
    ensures
        poly_eval(f, x) < fr_modulus(),
{
    if f.len() > 0 {
        lemma_fr_reduce_bound(
            poly_eval_prefix(f, x, (f.len() - 1) as nat) as int + fr_mul(
                f[f.len() - 1],
                fr_pow(x, (f.len() - 1) as nat),
            ) as int,
        );
    } else {
        lemma_fr_reduce_small(0);
    }
}

proof fn lemma_power_reduced(alpha: nat, k: nat)
    ensures
        fr_pow(alpha, k) < fr_modulus(),
{
    if k > 0 {
        lemma_fr_mul_bound(fr_pow(alpha, (k - 1) as nat), alpha);
    } else {
        lemma_fr_reduce_small(1);
    }
}

/// What a member decrypts from an honest dealer's ciphertext is the value of
/// the polynomial at the member's node, times `h`.
proof fn lemma_decrypted_share(
    config: PVSSConfig,
    f: Seq<nat>,
    ciphertext: PVSSCiphertext,
    secrets: PVSSSecrets,
    sks: Seq<nat>,
    i: int,
)
    requires
        group_laws(config.pairing().g@, config.pairing().h@),
        keys_belong(config, sks),
        is_dealing(config, f, ciphertext, secrets),
        0 <= i < sks.len(),
        fr_invertible(sks[i]),
    ensures
        g2_mul(ciphertext.y_i@[i]@, fr_inv(sks[i])) == g2_mul(
            config.pairing().h@,
            poly_eval(f, node(i)),
        ),
{
    let h = config.pairing().h@;
    let sk = sks[i];
    let v = poly_eval(f, node(i));
    let inverse = fr_inv(sk);
    lemma_values_reduced(f, node(i));
    assert(fr_is_inverse(sk, inverse));
    assert(config.pks()[i]@ == g2_mul(h, sk));
    assert(ciphertext.y_i@[i]@ == g2_mul(g2_mul(h, sk), v));
    lemma_multiples(config.pairing().g@, h, sk, v);
    lemma_fr_mul_bound(sk, v);
    lemma_multiples(config.pairing().g@, h, fr_mul(sk, v), inverse);
    // (sk v) inverse = (v sk) inverse = v (sk inverse) = v
    lemma_fr_mul_comm(sk, v);
    lemma_fr_mul_assoc(v, sk, inverse);
    lemma_fr_mul_one(v);
}

/// `(0 + (-w) (s v)) + (v w) s = 0`.
proof fn lemma_pair_cancels(w: nat, s: nat, v: nat)
    ensures
        fr_add(fr_add(0, fr_mul(fr_neg(w), fr_mul(s, v))), fr_mul(fr_mul(v, w), s)) == 0,
{
    let (wi, si, vi) = (w as int, s as int, v as int);
    lemma_fr_neg_reduce(wi);
    lemma_fr_reduce_bound(-wi);
    lemma_fr_reduce_small(fr_neg(w));
    assert(fr_stands_for(fr_neg(w), -wi));
    lemma_fr_mul_stands(s, si, v, vi);
    lemma_fr_mul_stands(fr_neg(w), -wi, fr_mul(s, v), si * vi);
    lemma_fr_add_stands(0, 0, fr_mul(fr_neg(w), fr_mul(s, v)), (-wi) * (si * vi));
    lemma_fr_mul_stands(v, vi, w, wi);
    lemma_fr_mul_stands(fr_mul(v, w), vi * wi, s, si);
    lemma_fr_add_stands(
        fr_add(0, fr_mul(fr_neg(w), fr_mul(s, v))),
        0 + (-wi) * (si * vi),
        fr_mul(fr_mul(v, w), s),
        (vi * wi) * si,
    );
    assert((0 + (-wi) * (si * vi)) + (vi * wi) * si == 0) by (nonlinear_arith);
    lemma_fr_reduce_small(0);
}

/// A share that a member decrypts from an honest dealer's ciphertext is valid
/// to `verify_share`.
pub proof fn lemma_decrypted_share_is_valid(
    config: PVSSConfig,
    f: Seq<nat>,
    ciphertext: PVSSCiphertext,
    secrets: PVSSSecrets,
    sks: Seq<nat>,
    i: int,
)
    requires
        group_laws(config.pairing().g@, config.pairing().h@),
        keys_belong(config, sks),
        is_dealing(config, f, ciphertext, secrets),
        0 <= i < sks.len(),
        fr_invertible(sks[i]),
    ensures
        share_is_valid(config, ciphertext, g2_mul(ciphertext.y_i@[i]@, fr_inv(sks[i])), i),
{
    let g = config.pairing().g@;
    let h = config.pairing().h@;
    let v = poly_eval(f, node(i));
    lemma_decrypted_share(config, f, ciphertext, secrets, sks, i);
    lemma_values_reduced(f, node(i));
    lemma_fr_reduce_small(1);
    lemma_fr_neg_bound(1);
    let x = seq![fr_neg(1), v];
    let y = seq![v, 1nat];
    lemma_multiples(g, h, 1, 1);
    assert(ciphertext.a_i@[i]@ == g1_mul(g, v));
    assert(g1_multiples(g, x) =~= seq![g1_neg(g), ciphertext.a_i@[i]@]);
    assert(g2_multiples(h, y) =~= seq![g2_mul(h, v), h]);
    lemma_pairings(g, h, x, y);
    lemma_pair_cancels(1, 1, v);
    lemma_fr_mul_one(v);
    assert(fr_dot(x, y, 0) == 0);
    assert(fr_dot(x, y, 1) == fr_add(0, fr_mul(fr_neg(1), v)));
    assert(fr_dot(x, y, 2) == 0);
}

/// Enough shares, decrypted from an honest dealer's ciphertext, combine to
/// the committed secret: what `combine_shares` returns for no fewer members
/// than the polynomial has coefficients is `f[0] * h`.
pub proof fn lemma_shares_combine_to_the_secret(
    config: PVSSConfig,
    f: Seq<nat>,
    ciphertext: PVSSCiphertext,
    secrets: PVSSSecrets,
    sks: Seq<nat>,
    indices: Seq<usize>,
    shares: Seq<G2Point>,
)
    requires
        config.valid(),
        group_laws(config.pairing().g@, config.pairing().h@),
        keys_belong(config, sks),
        all_reduced(f),
        is_dealing(config, f, ciphertext, secrets),
        f.len() <= indices.len() == shares.len(),
        forall|j: int|
            0 <= j < indices.len() ==> {
                &&& (#[trigger] indices[j]) < sks.len()
                &&& fr_invertible(sks[indices[j] as int])
                &&& shares[j] == g2_mul(
                    ciphertext.y_i@[indices[j] as int]@,
                    fr_inv(sks[indices[j] as int]),
                )
            },
        forall|j: int| 0 <= j < indices.len() ==> lagrange_defined_at(nodes_of(indices), j),
    ensures
        g2_msm(shares, combining_weights(indices)) == secrets.h_f_0@,
{
    let h = config.pairing().h@;
    let x = nodes_of(indices);
    let values = evaluations(f, x);
    let weights = combining_weights(indices);
    config.lemma_valid();
    assert(shares =~= g2_multiples(h, values)) by {
        assert forall|j: int| 0 <= j < shares.len() implies shares[j] == g2_mul(h, values[j]) by {
            assert(indices[j] < sks.len());
            lemma_decrypted_share(config, f, ciphertext, secrets, sks, indices[j] as int);
        }
    }
    assert(all_reduced(values)) by {
        assert forall|j: int| 0 <= j < values.len() implies #[trigger] values[j] < fr_modulus() by {
            lemma_values_reduced(f, x[j]);
        }
    }
    assert(all_reduced(weights)) by {
        assert forall|j: int| 0 <= j < weights.len() implies #[trigger] weights[j]
            < fr_modulus() by {
            lemma_lagrange_reduced(x, j, 0, x.len());
        }
    }
    lemma_sums(config.pairing().g@, h, values, weights);
    lemma_shares_add_up_to_the_secret(f, indices);
    lemma_fr_reduce_small(f[0]);
}

/// The scalars of which the left sides of the share check are the multiples
/// of `g`, for the ciphertext of an honest dealer: for each member `i` the
/// additive inverse of `alpha^i`, and then the member's value times
/// `alpha^i`.
pub open spec fn left_scalars(f: Seq<nat>, n: nat, alpha: nat) -> Seq<nat> {
    Seq::new(
        2 * n,
        |k: int|
            if k % 2 == 0 {
                fr_neg(fr_pow(alpha, (k / 2) as nat))
            } else {
                fr_mul(poly_eval(f, node(k / 2)), fr_pow(alpha, (k / 2) as nat))
            },
    )
}

/// The scalars of which the right sides of the share check are the multiples
/// of `h`, for the ciphertext of an honest dealer: for each member the
/// member's secret key times the member's value, and then the secret key.
pub open spec fn right_scalars(f: Seq<nat>, sks: Seq<nat>) -> Seq<nat> {
    Seq::new(
        2 * sks.len(),
        |k: int|
            if k % 2 == 0 {
                fr_mul(sks[k / 2], poly_eval(f, node(k / 2)))
            } else {
                sks[k / 2]
            },
    )
}

/// The products of the scalars of the two sides add up to zero.
proof fn lemma_scalars_cancel(f: Seq<nat>, sks: Seq<nat>, alpha: nat, k: nat)
    requires
        k <= sks.len(),
    ensures
        fr_dot(left_scalars(f, sks.len(), alpha), right_scalars(f, sks), 2 * k) == 0,
    decreases k,
{
    let x = left_scalars(f, sks.len(), alpha);
    let y = right_scalars(f, sks);
    if k > 0 {
        let i = (k - 1) as int;
        lemma_scalars_cancel(f, sks, alpha, (k - 1) as nat);
        let before = fr_dot(x, y, (2 * i) as nat);
        let first = fr_mul(x[2 * i], y[2 * i]);
        assert(fr_dot(x, y, (2 * i + 1) as nat) == fr_add(before, first));
        assert(fr_dot(x, y, (2 * i + 2) as nat) == fr_add(
            fr_add(before, first),
            fr_mul(x[2 * i + 1], y[2 * i + 1]),
        ));
        lemma_pair_cancels(fr_pow(alpha, i as nat), sks[i], poly_eval(f, node(i)));
    }
}

/// The sides of the share check, for the ciphertext of an honest dealer, are
/// the multiples of `g` and of `h` by their scalars.
proof fn lemma_sides_are_multiples(
    config: PVSSConfig,
    f: Seq<nat>,
    ciphertext: PVSSCiphertext,
    secrets: PVSSSecrets,
    sks: Seq<nat>,
    alpha: nat,
)
    requires
        multiple_laws(config.pairing().g@, config.pairing().h@),
        keys_belong(config, sks),
        is_dealing(config, f, ciphertext, secrets),
    ensures
        share_check_left(config.pairing().g@, g1_points(ciphertext.a_i@), alpha) == g1_multiples(
            config.pairing().g@,
            left_scalars(f, sks.len(), alpha),
        ),
        share_check_right(g2_points(ciphertext.y_i@), g2_points(config.pks())) == g2_multiples(
            config.pairing().h@,
            right_scalars(f, sks),
        ),
        all_reduced(left_scalars(f, sks.len(), alpha)),
        all_reduced(right_scalars(f, sks)),
{
    let g = config.pairing().g@;
    let h = config.pairing().h@;
    let n = sks.len();
    let left = share_check_left(g, g1_points(ciphertext.a_i@), alpha);
    let right = share_check_right(g2_points(ciphertext.y_i@), g2_points(config.pks()));
    let x = left_scalars(f, n, alpha);
    let y = right_scalars(f, sks);
    assert forall|k: int| 0 <= k < 2 * n implies left[k] == g1_mul(g, x[k]) && right[k] == g2_mul(
        h,
        y[k],
    ) && x[k] < fr_modulus() && y[k] < fr_modulus() by {
        let i = k / 2;
        let v = poly_eval(f, node(i));
        let w = fr_pow(alpha, i as nat);
        let sk = sks[i];
        lemma_values_reduced(f, node(i));
        lemma_power_reduced(alpha, i as nat);
        lemma_multiples(g, h, w, w);
        lemma_multiples(g, h, v, w);
        lemma_multiples(g, h, sk, v);
        lemma_fr_neg_bound(w);
        lemma_fr_mul_bound(v, w);
        lemma_fr_mul_bound(sk, v);
        assert(ciphertext.a_i@[i]@ == g1_mul(g, v));
        assert(config.pks()[i]@ == g2_mul(h, sk));
        assert(ciphertext.y_i@[i]@ == g2_mul(g2_mul(h, sk), v));
    }
    assert(left =~= g1_multiples(g, x));
    assert(right =~= g2_multiples(h, y));
}

/// An honest dealer's ciphertext passes the check, whatever the challenge, as
/// long as the Lagrange coefficients at the challenge can be computed.
pub proof fn lemma_honest_ciphertext_passes(
    config: PVSSConfig,
    f: Seq<nat>,
    ciphertext: PVSSCiphertext,
    secrets: PVSSSecrets,
    sks: Seq<nat>,
    alpha: nat,
)
    requires
        config.valid(),
        group_laws(config.pairing().g@, config.pairing().h@),
        keys_belong(config, sks),
        all_reduced(f),
        is_dealing(config, f, ciphertext, secrets),
        basis_defined(config.pks().len(), alpha),
    ensures
        verdict(config, ciphertext, alpha, Ok(())),
{
    let g = config.pairing().g@;
    let n = config.pks().len();
    let t = config.threshold();
    config.lemma_valid();
    // the evaluations belong to the polynomial
    let scalars = basis_all(n, alpha) + negated_powers(t, alpha);
    let committed = evaluations(f, nodes(n)) + f;
    assert(g1_points(ciphertext.a_i@ + ciphertext.f_i@) =~= g1_multiples(g, committed));
    assert(all_reduced(committed)) by {
        assert forall|i: int| 0 <= i < committed.len() implies #[trigger] committed[i]
            < fr_modulus() by {
            if i < n {
                lemma_values_reduced(f, nodes(n)[i]);
            }
        }
    }
    assert(all_reduced(scalars)) by {
        assert forall|i: int| 0 <= i < scalars.len() implies #[trigger] scalars[i]
            < fr_modulus() by {
            if i < n {
                lemma_fr_mul_bound(
                    fr_mul(node_product(n, alpha), fr_inv(fr_sub(alpha, node(i)))),
                    fr_inv(basis_denominator(n, i)),
                );
            } else {
                lemma_fr_neg_bound(fr_pow(alpha, (i - n) as nat));
            }
        }
    }
    lemma_sums(g, config.pairing().h@, committed, scalars);
    lemma_multiples(g, config.pairing().h@, 0, 0);
    lemma_honest_evaluations_are_consistent(f, n, alpha);
    assert(evaluation_residue(config, ciphertext, alpha).infinity);
    // the shares match
    lemma_sides_are_multiples(config, f, ciphertext, secrets, sks, alpha);
    lemma_scalars_cancel(f, sks, alpha, n);
    lemma_pairings(
        g,
        config.pairing().h@,
        left_scalars(f, n, alpha),
        right_scalars(f, sks),
    );
}

/// What checking an honest dealer's ciphertext gives: it passes, unless the
/// Lagrange coefficients at the challenge cannot be computed, and then the
/// check fails with `RatioIncorrect`.
pub proof fn lemma_honest_ciphertext_outcome(
    config: PVSSConfig,
    f: Seq<nat>,
    ciphertext: PVSSCiphertext,
    secrets: PVSSSecrets,
    sks: Seq<nat>,
    alpha: nat,
    r: Result<(), PVSSError>,
)
    requires
        config.valid(),
        group_laws(config.pairing().g@, config.pairing().h@),
        keys_belong(config, sks),
        all_reduced(f),
        is_dealing(config, f, ciphertext, secrets),
        verdict(config, ciphertext, alpha, r),
    ensures
        basis_defined(config.pks().len(), alpha) ==> r is Ok,
        !basis_defined(config.pks().len(), alpha) ==> r == Err::<(), PVSSError>(
            PVSSError::RatioIncorrect,
        ),
{
    if basis_defined(config.pks().len(), alpha) {
        lemma_honest_ciphertext_passes(config, f, ciphertext, secrets, sks, alpha);
    }
}

/// What the evaluation check leaves over once one of the numbers that an
/// honest dealer's ciphertext commits to has been changed to `c`: the
/// change, times the scalar that the check weights that number with, times
/// `g`. The numbers are the values of the polynomial at the members' nodes
/// and then its coefficients.
proof fn lemma_residue_after_change(
    config: PVSSConfig,
    f: Seq<nat>,
    changed: PVSSCiphertext,
    p: int,
    c: nat,
    alpha: nat,
)
    requires
        config.valid(),
        sum_laws(config.pairing().g@, config.pairing().h@),
        all_reduced(f),
        f.len() == config.threshold(),
        basis_defined(config.pks().len(), alpha),
        0 <= p < config.pks().len() + f.len(),
        c < fr_modulus(),
        g1_points(changed.a_i@ + changed.f_i@) == g1_multiples(
            config.pairing().g@,
            (evaluations(f, nodes(config.pks().len())) + f).update(p, c),
        ),
    ensures
        evaluation_residue(config, changed, alpha) == g1_mul(
            config.pairing().g@,
            fr_mul(
                (basis_all(config.pks().len(), alpha) + negated_powers(f.len(), alpha))[p],
                fr_sub(c, (evaluations(f, nodes(config.pks().len())) + f)[p]),
            ),
        ),
{
    let g = config.pairing().g@;
    let n = config.pks().len();
    config.lemma_valid();
    let scalars = basis_all(n, alpha) + negated_powers(f.len(), alpha);
    let committed = evaluations(f, nodes(n)) + f;
    let after = committed.update(p, c);
    assert(all_reduced(after)) by {
        assert forall|i: int| 0 <= i < after.len() implies #[trigger] after[i] < fr_modulus() by {
            if i != p && i < n {
                lemma_values_reduced(f, nodes(n)[i]);
            }
        }
    }
    assert(all_reduced(scalars)) by {
        assert forall|i: int| 0 <= i < scalars.len() implies #[trigger] scalars[i]
            < fr_modulus() by {
            if i < n {
                lemma_fr_mul_bound(
                    fr_mul(node_product(n, alpha), fr_inv(fr_sub(alpha, node(i)))),
                    fr_inv(basis_denominator(n, i)),
                );
            } else {
                lemma_fr_neg_bound(fr_pow(alpha, (i - n) as nat));
            }
        }
    }
    lemma_sums(g, config.pairing().h@, after, scalars);
    lemma_dot_update(scalars, committed, p, c, committed.len());
    lemma_honest_evaluations_are_consistent(f, n, alpha);
    let change = fr_mul(scalars[p], fr_sub(c, committed[p]));
    lemma_fr_mul_bound(scalars[p], fr_sub(c, committed[p]));
    lemma_fr_reduce_small(change);
}

/// A changed coefficient commitment is caught. Let the commitment to the
/// coefficient `f[k]` in an honest dealer's ciphertext be replaced by
/// `c * g` for another number `c`. Then the check fails with
/// `EvaluationsCheckError` and the point `-alpha^k (c - f[k]) * g`, which is
/// not the point at infinity, for every challenge at which the Lagrange
/// coefficients can be computed and of which the power `alpha^k` is
/// invertible.
pub proof fn lemma_changed_coefficient_is_caught(
    config: PVSSConfig,
    f: Seq<nat>,
    ciphertext: PVSSCiphertext,
    secrets: PVSSSecrets,
    changed: PVSSCiphertext,
    k: int,
    c: nat,
    alpha: nat,
    r: Result<(), PVSSError>,
)
    requires
        config.valid(),
        group_laws(config.pairing().g@, config.pairing().h@),
        all_reduced(f),
        is_dealing(config, f, ciphertext, secrets),
        0 <= k < f.len(),
        c < fr_modulus(),
        c != f[k],
        changed.a_i@ == ciphertext.a_i@,
        changed.y_i@ == ciphertext.y_i@,
        changed.f_i@.len() == ciphertext.f_i@.len(),
        changed.f_i@[k]@ == g1_mul(config.pairing().g@, c),
        forall|j: int| 0 <= j < f.len() && j != k ==> changed.f_i@[j] == ciphertext.f_i@[j],
        basis_defined(config.pks().len(), alpha),
        fr_invertible(fr_pow(alpha, k as nat)),
        verdict(config, changed, alpha, r),
    ensures
        match r {
            Err(PVSSError::EvaluationsCheckError(p)) => !p@.infinity && p@ == g1_mul(
                config.pairing().g@,
                fr_mul(fr_neg(fr_pow(alpha, k as nat)), fr_sub(c, f[k])),
            ),
            _ => false,
        },
{
    let g = config.pairing().g@;
    let h = config.pairing().h@;
    let n = config.pks().len();
    config.lemma_valid();
    let committed = evaluations(f, nodes(n)) + f;
    assert(g1_points(changed.a_i@ + changed.f_i@) =~= g1_multiples(
        g,
        committed.update(n + k, c),
    ));
    lemma_residue_after_change(config, f, changed, n + k, c, alpha);
    let scalar = fr_neg(fr_pow(alpha, k as nat));
    let change = fr_sub(c, f[k]);
    assert((basis_all(n, alpha) + negated_powers(f.len(), alpha))[n + k] == scalar);
    assert(committed[n + k] == f[k]);
    lemma_fr_neg_invertible(fr_pow(alpha, k as nat));
    lemma_fr_sub_zero(c, f[k]);
    lemma_fr_reduce_bound(c as int - f[k] as int);
    lemma_fr_unit_times_nonzero(scalar, change);
    lemma_fr_mul_bound(scalar, change);
    lemma_not_infinity(g, h, fr_mul(scalar, change));
}

/// A changed evaluation commitment is caught. Let the commitment to the
/// value for member `j` in an honest dealer's ciphertext be replaced by
/// `c * g` for another number `c`. Then the check fails with
/// `EvaluationsCheckError` and the point `L (c - f(j + 1)) * g`, where `L` is
/// the Lagrange coefficient of the member at the challenge; it is not the
/// point at infinity. This holds for every challenge at which the Lagrange
/// coefficients can be computed.
pub proof fn lemma_changed_evaluation_is_caught(
    config: PVSSConfig,
    f: Seq<nat>,
    ciphertext: PVSSCiphertext,
    secrets: PVSSSecrets,
    changed: PVSSCiphertext,
    j: int,
    c: nat,
    alpha: nat,
    r: Result<(), PVSSError>,
)
    requires
        config.valid(),
        group_laws(config.pairing().g@, config.pairing().h@),
        all_reduced(f),
        is_dealing(config, f, ciphertext, secrets),
        0 <= j < config.pks().len(),
        c < fr_modulus(),
        c != poly_eval(f, node(j)),
        changed.f_i@ == ciphertext.f_i@,
        changed.y_i@ == ciphertext.y_i@,
        changed.a_i@.len() == ciphertext.a_i@.len(),
        changed.a_i@[j]@ == g1_mul(config.pairing().g@, c),
        forall|i: int|
            0 <= i < config.pks().len() && i != j ==> changed.a_i@[i] == ciphertext.a_i@[i],
        basis_defined(config.pks().len(), alpha),
        verdict(config, changed, alpha, r),
    ensures
        match r {
            Err(PVSSError::EvaluationsCheckError(p)) => !p@.infinity && p@ == g1_mul(
                config.pairing().g@,
                fr_mul(basis_at(config.pks().len(), j, alpha), fr_sub(c, poly_eval(f, node(j)))),
            ),
            _ => false,
        },
{
    let g = config.pairing().g@;
    let h = config.pairing().h@;
    let n = config.pks().len();
    config.lemma_valid();
    let committed = evaluations(f, nodes(n)) + f;
    assert(g1_points(changed.a_i@ + changed.f_i@) =~= g1_multiples(g, committed.update(j, c)));
    lemma_residue_after_change(config, f, changed, j, c, alpha);
    let scalar = basis_at(n, j, alpha);
    let value = poly_eval(f, node(j));
    let change = fr_sub(c, value);
    assert((basis_all(n, alpha) + negated_powers(f.len(), alpha))[j] == scalar);
    assert(committed[j] == value);
    lemma_basis_invertible(n, j, alpha);
    lemma_values_reduced(f, node(j));
    lemma_fr_sub_zero(c, value);
    lemma_fr_reduce_bound(c as int - value as int);
    lemma_fr_unit_times_nonzero(scalar, change);
    lemma_fr_mul_bound(scalar, change);
    lemma_not_infinity(g, h, fr_mul(scalar, change));
}

/// A changed share is caught. Let the encrypted share of member `j` in an
/// honest dealer's ciphertext be replaced by `c * h` for another number `c`.
/// Then the check fails with `RatioIncorrect`, for every challenge at which
/// the Lagrange coefficients can be computed and of which the power
/// `alpha^j` is invertible.
pub proof fn lemma_changed_share_is_caught(
    config: PVSSConfig,
    f: Seq<nat>,
    ciphertext: PVSSCiphertext,
    secrets: PVSSSecrets,
    sks: Seq<nat>,
    changed: PVSSCiphertext,
    j: int,
    c: nat,
    alpha: nat,
    r: Result<(), PVSSError>,
)
    requires
        config.valid(),
        group_laws(config.pairing().g@, config.pairing().h@),
        keys_belong(config, sks),
        all_reduced(f),
        is_dealing(config, f, ciphertext, secrets),
        0 <= j < config.pks().len(),
        c < fr_modulus(),
        c != fr_mul(sks[j], poly_eval(f, node(j))),
        changed.f_i@ == ciphertext.f_i@,
        changed.a_i@ == ciphertext.a_i@,
        changed.y_i@.len() == ciphertext.y_i@.len(),
        changed.y_i@[j]@ == g2_mul(config.pairing().h@, c),
        forall|i: int|
            0 <= i < config.pks().len() && i != j ==> changed.y_i@[i] == ciphertext.y_i@[i],
        basis_defined(config.pks().len(), alpha),
        fr_invertible(fr_pow(alpha, j as nat)),
        verdict(config, changed, alpha, r),
    ensures
        r == Err::<(), PVSSError>(PVSSError::RatioIncorrect),
{
    let g = config.pairing().g@;
    let h = config.pairing().h@;
    let n = config.pks().len();
    config.lemma_valid();
    lemma_honest_ciphertext_passes(config, f, ciphertext, secrets, sks, alpha);
    assert(evaluation_residue(config, changed, alpha) == evaluation_residue(
        config,
        ciphertext,
        alpha,
    ));
    // the sides of the share check
    let x = left_scalars(f, n, alpha);
    let y = right_scalars(f, sks);
    let after = y.update(2 * j, c);
    lemma_sides_are_multiples(config, f, ciphertext, secrets, sks, alpha);
    let right = share_check_right(g2_points(changed.y_i@), g2_points(config.pks()));
    let honest = share_check_right(g2_points(ciphertext.y_i@), g2_points(config.pks()));
    assert(right =~= g2_multiples(h, after)) by {
        assert forall|k: int| 0 <= k < 2 * n implies right[k] == g2_mul(h, after[k]) by {
            if k != 2 * j {
                assert(right[k] == honest[k]);
                assert(honest[k] == g2_multiples(h, y)[k]);
            }
        }
    }
    assert(all_reduced(after)) by {
        assert forall|k: int| 0 <= k < after.len() implies #[trigger] after[k] < fr_modulus() by {
            if k != 2 * j {
                assert(y[k] < fr_modulus());
            }
        }
    }
    lemma_pairings(g, h, x, after);
    // the products do not add up to zero
    lemma_scalars_cancel(f, sks, alpha, n);
    lemma_dot_update(x, y, 2 * j, c, 2 * n);
    let weight = fr_neg(fr_pow(alpha, j as nat));
    let change = fr_sub(c, y[2 * j]);
    assert(x[2 * j] == weight);
    lemma_fr_mul_bound(sks[j], poly_eval(f, node(j)));
    lemma_fr_sub_zero(c, y[2 * j]);
    lemma_fr_reduce_bound(c as int - y[2 * j] as int);
    lemma_fr_neg_invertible(fr_pow(alpha, j as nat));
    lemma_fr_unit_times_nonzero(weight, change);
    lemma_fr_mul_bound(weight, change);
    lemma_fr_add_zero(fr_mul(weight, change));
}

} // verus!
