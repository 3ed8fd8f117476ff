//! The dealer: shares a secret among a committee.

use crate::algebra::{
    all_reduced, fr_add, fr_modulus, fr_mul, fr_pow, lemma_fr_reduce_small, secret_bound,
};
use crate::curve::{fr_values, g1_mul, g2_mul, G1Affine, G2Affine};
use crate::errors::PVSSError;
use crate::field::Fr;
use crate::lagrange::node;
use crate::structs::{PVSSCiphertext, PVSSConfig, PVSSSecrets};
use vstd::prelude::*;

verus! {

/// The first `k` terms of the polynomial with the coefficients `f`, at `x`.
pub open spec fn poly_eval_prefix(f: Seq<nat>, x: nat, k: nat) -> nat
    decreases k,
{
    if k == 0 {
        0
    } else {
        fr_add(poly_eval_prefix(f, x, (k - 1) as nat), fr_mul(f[k - 1], fr_pow(x, (k - 1) as nat)))
    }
}

/// The value at `x` of the polynomial with the coefficients `f`, constant term
/// first.
pub open spec fn poly_eval(f: Seq<nat>, x: nat) -> nat {
    poly_eval_prefix(f, x, f.len())
}

/// `ciphertext` and `secrets` are what sharing the polynomial with the
/// coefficients `f` among the committee gives: a commitment `f[k] * g` to each
/// coefficient, a commitment `f(i + 1) * g` to the value for each member `i`,
/// that value times the member's public key, and the secret `f[0]` with
/// `f[0] * h`.
pub open spec fn is_dealing(
    config: PVSSConfig,
    f: Seq<nat>,
    ciphertext: PVSSCiphertext,
    secrets: PVSSSecrets,
) -> bool {
    let g = config.pairing().g@;
    let h = config.pairing().h@;
    let pks = config.pks();
    &&& f.len() == config.threshold()
    &&& ciphertext.f_i@.len() == f.len()
    &&& ciphertext.a_i@.len() == pks.len()
    &&& ciphertext.y_i@.len() == pks.len()
    &&& forall|k: int| 0 <= k < f.len() ==> (#[trigger] ciphertext.f_i@[k])@ == g1_mul(g, f[k])
    &&& forall|i: int|
        0 <= i < pks.len() ==> (#[trigger] ciphertext.a_i@[i])@ == g1_mul(
            g,
            poly_eval(f, node(i)),
        )
    &&& forall|i: int|
        0 <= i < pks.len() ==> (#[trigger] ciphertext.y_i@[i])@ == g2_mul(
            pks[i]@,
            poly_eval(f, node(i)),
        )
    &&& secrets.f_0@ == f[0]
    &&& secrets.h_f_0@ == g2_mul(h, f[0])
}

/// The value at `x` of the polynomial with the given coefficients, by one
/// pass that keeps the current power of `x`.
fn evaluate(coefficients: &Vec<Fr>, x: &Fr) -> (r: Fr)
    ensures
        r@ == poly_eval(fr_values(coefficients@), x@),
{
    let ghost f = fr_values(coefficients@);
    let mut acc = Fr::zero();
    let mut x_pow = Fr::one();
    let mut k: usize = 0;
    while k < coefficients.len()
        invariant
            k <= coefficients@.len(),
            f == fr_values(coefficients@),
            acc@ == poly_eval_prefix(f, x@, k as nat),
            x_pow@ == fr_pow(x@, k as nat),
        decreases coefficients@.len() - k,
    {
        acc = acc.add(&coefficients[k].mul(&x_pow));
        x_pow = x_pow.mul(x);
        k = k + 1;
    }
    acc
}

/// Shares the polynomial with the given coefficients among the committee. The
/// constant term is the secret; callers that need the secret to have at most
/// 250 bits choose it so.
pub fn distribute_secret_with_coefficients(
    pvss_config: &PVSSConfig,
    coefficients: &Vec<Fr>,
) -> (r: (PVSSCiphertext, PVSSSecrets))
    requires
        coefficients@.len() == pvss_config.threshold(),
    ensures
        is_dealing(*pvss_config, fr_values(coefficients@), r.0, r.1),
        all_reduced(fr_values(coefficients@)),
{
    let ghost f = fr_values(coefficients@);
    let pks = pvss_config.committee_pks();
    let g = pvss_config.pairing_config().g;
    let h = pvss_config.pairing_config().h;
    let n = pks.len();
    let t = coefficients.len();

    let mut f_i: Vec<G1Affine> = Vec::new();
    let mut k: usize = 0;
    while k < t
        invariant
            k <= t,
            t == coefficients@.len(),
            f == fr_values(coefficients@),
            f_i@.len() == k,
            forall|j: int| 0 <= j < k ==> (#[trigger] f_i@[j])@ == g1_mul(g@, f[j]),
            forall|j: int| 0 <= j < k ==> #[trigger] f[j] < fr_modulus(),
        decreases t - k,
    {
        let coefficient = coefficients[k];
        proof {
            use_type_invariant(&coefficient);
            coefficient.lemma_reduced();
        }
        f_i.push(g.mul(&coefficient));
        k = k + 1;
    }

    let mut a_i: Vec<G1Affine> = Vec::new();
    let mut y_i: Vec<G2Affine> = Vec::new();
    let mut i: usize = 0;
    while i < n
        invariant
            i <= n,
            n == pks@.len(),
            f == fr_values(coefficients@),
            a_i@.len() == i,
            y_i@.len() == i,
            forall|j: int| 0 <= j < i ==> (#[trigger] a_i@[j])@ == g1_mul(g@, poly_eval(f, node(j))),
            forall|j: int|
                0 <= j < i ==> (#[trigger] y_i@[j])@ == g2_mul(pks@[j]@, poly_eval(f, node(j))),
        decreases n - i,
    {
        let x = Fr::from_u64(i as u64).add(&Fr::one());
        proof {
            lemma_fr_reduce_small((i + 1) as nat);
        }
        let y_eval = evaluate(coefficients, &x);
        a_i.push(g.mul(&y_eval));
        y_i.push(pks[i].mul(&y_eval));
        i = i + 1;
    }

    let f_0 = coefficients[0];
    let h_f_0 = h.mul(&f_0);
    (PVSSCiphertext { f_i, a_i, y_i }, PVSSSecrets { f_0, h_f_0 })
}

/// Shares a fresh secret among the committee. The secret is drawn uniformly
/// from the numbers of at most 250 bits, the other coefficients of the
/// polynomial uniformly from the scalar field. Every member has a key, so
/// sharing does not fail.
pub fn distribute_secret(pvss_config: &PVSSConfig) -> (r: Result<
    (PVSSCiphertext, PVSSSecrets),
    PVSSError,
>)
    ensures
        r is Ok,
        r is Ok ==> r->Ok_0.1.f_0@ < secret_bound() && exists|f: Seq<nat>|
            all_reduced(f) && #[trigger] is_dealing(*pvss_config, f, r->Ok_0.0, r->Ok_0.1),
{
    let t = pvss_config.t();
    let mut coefficients: Vec<Fr> = Vec::new();
    coefficients.push(Fr::random_250_bits());
    let mut k: usize = 1;
    while k < t
        invariant
            1 <= k <= t,
            coefficients@.len() == k,
            coefficients@[0]@ < secret_bound(),
        decreases t - k,
    {
        coefficients.push(Fr::random());
        k = k + 1;
    }
    let dealt = distribute_secret_with_coefficients(pvss_config, &coefficients);
    Ok(dealt)
}

} // verus!
