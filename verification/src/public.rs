//! What anybody can do with public data: compute Lagrange coefficients, check
//! a ciphertext or a decrypted share, and combine shares.

use crate::algebra::{
    fr_invertible, fr_modulus, fr_neg, fr_pow, fr_sub, lemma_fr_mul_neg, lemma_fr_reduce_small,
    lemma_fr_sub_zero,
};
use crate::curve::{
    fr_values, g1_msm, g1_mul, g1_multi_scalar_mul, g1_neg, g1_points, g2_msm, g2_multi_scalar_mul,
    g2_points, pairing_check, pairing_product_is_one, G1Affine, G1Point, G2Affine, G2Point,
};
use crate::errors::PVSSError;
use crate::field::Fr;
use crate::lagrange::{
    basis_all, basis_at, basis_defined, basis_defined_at, basis_denominator, basis_vanishes_at,
    lagrange_all, lagrange_coeff, lagrange_defined_at, lagrange_partial,
    lemma_lagrange_equivalence_all, lemma_nodes_repeat, neg_factorial, node, node_product, nodes,
    nodes_of, occurs_twice, pos_factorial,
};
use crate::structs::{PVSSCiphertext, PVSSConfig};
use crate::units::lemma_small_denominators_invertible;
use vstd::prelude::*;

verus! {

/// The factorials `0!, .., (n - 1)!`, or their counterparts over the negated
/// numbers.
fn factorials(n: usize, negated: bool) -> (r: Vec<Fr>)
    ensures
        r@.len() == n,
        forall|k: int|
            0 <= k < n ==> (#[trigger] r@[k])@ == if negated {
                neg_factorial(k as nat)
            } else {
                pos_factorial(k as nat)
            },
{
    let mut r: Vec<Fr> = Vec::new();
    if n == 0 {
        return r;
    }
    let mut state = Fr::one();
    r.push(state);
    let mut k: usize = 1;
    while k < n
        invariant
            1 <= k <= n,
            r@.len() == k,
            state@ == if negated {
                neg_factorial((k - 1) as nat)
            } else {
                pos_factorial((k - 1) as nat)
            },
            forall|j: int|
                0 <= j < k ==> (#[trigger] r@[j])@ == if negated {
                    neg_factorial(j as nat)
                } else {
                    pos_factorial(j as nat)
                },
        decreases n - k,
    {
        let x = Fr::from_u64(k as u64);
        let factor = if negated {
            x.neg()
        } else {
            x
        };
        state = state.mul(&factor);
        r.push(state);
        k = k + 1;
    }
    r
}

/// The values at `alpha` of the Lagrange basis polynomials for the nodes
/// `1, .., n`, by the closed formula, which costs two inversions for each
/// member. `None` when one of the numbers to divide by is zero, and so has no
/// inverse. For up to 65 nodes that is when `alpha` is itself one of the
/// nodes, and then only. What comes otherwise is what
/// `gen_lagrange_coefficients` gives for these nodes.
pub fn gen_all_lagrange_coefficients(n: usize, alpha: Fr) -> (r: Option<Vec<Fr>>)
    ensures
        r is Some <==> basis_defined(n as nat, alpha@),
        r is None <==> exists|i: int| 0 <= i < n && #[trigger] basis_vanishes_at(n as nat, i, alpha@),
        n <= 65 ==> (r is None <==> 1 <= alpha@ <= n),
        r is Some ==> r->0@.len() == n && fr_values(r->0@) == basis_all(n as nat, alpha@),
        r is Some ==> fr_values(r->0@) == lagrange_all(nodes(n as nat), alpha@),
{
    let mut numerator = Fr::one();
    let mut j: usize = 0;
    while j < n
        invariant
            j <= n,
            numerator@ == node_product(j as nat, alpha@),
        decreases n - j,
    {
        j = j + 1;
        numerator = numerator.mul(&alpha.sub(&Fr::from_u64(j as u64)));
    }
    let pos = factorials(n, false);
    let neg = factorials(n, true);
    proof {
        use_type_invariant(&alpha);
        alpha.lemma_reduced();
    }
    let mut out: Vec<Fr> = Vec::new();
    let mut i: usize = 0;
    while i < n
        invariant
            i <= n,
            pos@.len() == n,
            neg@.len() == n,
            forall|k: int| 0 <= k < n ==> (#[trigger] pos@[k])@ == pos_factorial(k as nat),
            forall|k: int| 0 <= k < n ==> (#[trigger] neg@[k])@ == neg_factorial(k as nat),
            numerator@ == node_product(n as nat, alpha@),
            out@.len() == i,
            forall|k: int| 0 <= k < i ==> basis_defined_at(n as nat, k, alpha@),
            forall|k: int| 0 <= k < i ==> !basis_vanishes_at(n as nat, k, alpha@),
            forall|k: int| 0 <= k < i ==> (#[trigger] out@[k])@ == basis_at(n as nat, k, alpha@),
            alpha@ < fr_modulus(),
            alpha@ < 1 || alpha@ > i,
        decreases n - i,
    {
        let shifted = alpha.sub(&Fr::from_u64((i + 1) as u64));
        let denominator = pos[i].mul(&neg[n - 1 - i]);
        assert(denominator@ == basis_denominator(n as nat, i as int));
        proof {
            lemma_fr_sub_zero(alpha@, (i + 1) as nat);
            if n <= 65 {
                lemma_small_denominators_invertible(n as nat, i as int);
            }
        }
        let coefficient = match (shifted.inverse(), denominator.inverse()) {
            (Some(a), Some(b)) => numerator.mul(&a).mul(&b),
            _ => {
                assert(!basis_defined_at(n as nat, i as int, alpha@));
                assert(basis_vanishes_at(n as nat, i as int, alpha@));
                return None;
            },
        };
        out.push(coefficient);
        i = i + 1;
    }
    assert(fr_values(out@) =~= basis_all(n as nat, alpha@));
    proof {
        lemma_lagrange_equivalence_all(n as nat, alpha@);
    }
    Some(out)
}

/// The values at `alpha` of the Lagrange basis polynomials for the nodes `x`,
/// each computed as the product that defines it. The nodes must differ: a
/// coefficient divides by the differences of its node and the others.
/// `Err(i)` when position `i` is the first whose node stands at another
/// position too.
pub fn gen_lagrange_coefficients(x: Vec<Fr>, alpha: Fr) -> (r: Result<Vec<Fr>, usize>)
    ensures
        match r {
            Ok(v) => {
                &&& v@.len() == x@.len()
                &&& fr_values(v@) == lagrange_all(fr_values(x@), alpha@)
                &&& forall|i: int| 0 <= i < x@.len() ==> !occurs_twice(fr_values(x@), i)
                &&& forall|i: int| 0 <= i < x@.len() ==> lagrange_defined_at(fr_values(x@), i)
            },
            Err(i) => {
                &&& i < x@.len()
                &&& occurs_twice(fr_values(x@), i as int)
                &&& !lagrange_defined_at(fr_values(x@), i as int)
                &&& forall|k: int| 0 <= k < i ==> !occurs_twice(fr_values(x@), k)
            },
        },
{
    let ghost xs = fr_values(x@);
    let n = x.len();
    let mut out: Vec<Fr> = Vec::new();
    let mut i: usize = 0;
    while i < n
        invariant
            i <= n,
            n == x@.len(),
            xs == fr_values(x@),
            out@.len() == i,
            forall|k: int| 0 <= k < i ==> lagrange_defined_at(xs, k),
            forall|k: int| 0 <= k < i ==> !occurs_twice(xs, k),
            forall|k: int| 0 <= k < i ==> (#[trigger] out@[k])@ == lagrange_coeff(xs, k, alpha@),
        decreases n - i,
    {
        let mut coeff = Fr::one();
        let mut j: usize = 0;
        while j < n
            invariant
                i < n,
                j <= n,
                n == x@.len(),
                xs == fr_values(x@),
                coeff@ == lagrange_partial(xs, i as int, alpha@, j as nat),
                forall|k: int| 0 <= k < i ==> lagrange_defined_at(xs, k),
                forall|k: int| 0 <= k < i ==> !occurs_twice(xs, k),
                forall|k: int| 0 <= k < j && k != i ==> #[trigger] xs[k] != xs[i as int],
                forall|k: int| 0 <= k < j && k != i ==> fr_invertible(#[trigger] fr_sub(xs[i as int], xs[k])),
            decreases n - j,
        {
            if j != i {
                let (x_i, x_j) = (x[i], x[j]);
                let difference = x_i.sub(&x_j);
                proof {
                    use_type_invariant(&x_i);
                    use_type_invariant(&x_j);
                    x_i.lemma_reduced();
                    x_j.lemma_reduced();
                    lemma_fr_sub_zero(x_i@, x_j@);
                }
                assert(difference@ == fr_sub(xs[i as int], xs[j as int]));
                match difference.inverse() {
                    Some(d) => {
                        coeff = coeff.mul(&alpha.sub(&x[j]).mul(&d));
                    },
                    None => {
                        assert(!lagrange_defined_at(xs, i as int));
                        assert(xs[j as int] == xs[i as int]);
                        return Err(i);
                    },
                }
            }
            j = j + 1;
        }
        assert(lagrange_defined_at(xs, i as int));
        assert(!occurs_twice(xs, i as int));
        out.push(coeff);
        i = i + 1;
    }
    assert(fr_values(out@) =~= lagrange_all(xs, alpha@));
    Ok(out)
}

/// The first position that one of two sequences of the given lengths has and
/// the other lacks, where their lengths differ.
pub open spec fn first_unmatched(have: nat, want: nat) -> Option<nat> {
    if have == want {
        None
    } else if have < want {
        Some(have)
    } else {
        Some(want)
    }
}

/// Where a ciphertext does not fit a committee: the first member without an
/// evaluation commitment or the first such commitment without a member, else
/// the same for the encrypted shares, else the same for the coefficient
/// commitments and the threshold.
pub open spec fn shape_fault(config: PVSSConfig, ciphertext: PVSSCiphertext) -> Option<nat> {
    let n = config.pks().len();
    if first_unmatched(ciphertext.a_i@.len(), n) is Some {
        first_unmatched(ciphertext.a_i@.len(), n)
    } else if first_unmatched(ciphertext.y_i@.len(), n) is Some {
        first_unmatched(ciphertext.y_i@.len(), n)
    } else {
        first_unmatched(ciphertext.f_i@.len(), config.threshold())
    }
}

/// The powers `alpha^0, .., alpha^(n - 1)`.
pub open spec fn powers(n: nat, alpha: nat) -> Seq<nat> {
    Seq::new(n, |k: int| fr_pow(alpha, k as nat))
}

/// The negated powers `-alpha^0, .., -alpha^(n - 1)`.
pub open spec fn negated_powers(n: nat, alpha: nat) -> Seq<nat> {
    Seq::new(n, |k: int| fr_neg(fr_pow(alpha, k as nat)))
}

/// What is left of the evaluation commitments, weighted by the Lagrange
/// coefficients at `alpha`, once the coefficient commitments, weighted by the
/// powers of `alpha`, are taken away. It is the point at infinity where the
/// evaluations belong to the committed polynomial.
pub open spec fn evaluation_residue(
    config: PVSSConfig,
    ciphertext: PVSSCiphertext,
    alpha: nat,
) -> G1Point {
    g1_msm(
        g1_points(ciphertext.a_i@ + ciphertext.f_i@),
        basis_all(config.pks().len(), alpha) + negated_powers(config.threshold(), alpha),
    )
}

/// The left sides of the pairings of the share check: for each member `i` the
/// opposite of `g` and then the evaluation commitment, both times `alpha^i`.
pub open spec fn share_check_left(g: G1Point, a: Seq<G1Point>, alpha: nat) -> Seq<G1Point> {
    Seq::new(
        2 * a.len(),
        |k: int|
            if k % 2 == 0 {
                g1_mul(g1_neg(g), fr_pow(alpha, (k / 2) as nat))
            } else {
                g1_mul(a[k / 2], fr_pow(alpha, (k / 2) as nat))
            },
    )
}

/// The right sides of the pairings of the share check: for each member the
/// encrypted share and then the public key.
pub open spec fn share_check_right(y: Seq<G2Point>, pks: Seq<G2Point>) -> Seq<G2Point> {
    Seq::new(
        2 * y.len(),
        |k: int|
            if k % 2 == 0 {
                y[k / 2]
            } else {
                pks[k / 2]
            },
    )
}

/// Every encrypted share holds, under its member's key, the value that the
/// evaluation commitment of that member commits to, as far as one batched
/// pairing equation with the weights `alpha^i` shows.
pub open spec fn shares_match(config: PVSSConfig, ciphertext: PVSSCiphertext, alpha: nat) -> bool {
    pairing_product_is_one(
        share_check_left(config.pairing().g@, g1_points(ciphertext.a_i@), alpha),
        share_check_right(g2_points(ciphertext.y_i@), g2_points(config.pks())),
    )
}

/// What checking a ciphertext with the challenge `alpha` gives.
///
/// - A ciphertext that does not fit the committee is refused with
///   `InvalidParticipantId` and the position of `shape_fault`.
/// - Otherwise, where a Lagrange coefficient at `alpha` cannot be computed,
///   the check fails with `RatioIncorrect`.
/// - Otherwise, where the evaluations do not belong to the committed
///   polynomial, it fails with `EvaluationsCheckError` and what was left over.
/// - Otherwise, where the shares do not match, it fails with
///   `RatioIncorrect`.
pub open spec fn verdict(
    config: PVSSConfig,
    ciphertext: PVSSCiphertext,
    alpha: nat,
    r: Result<(), PVSSError>,
) -> bool {
    let n = config.pks().len();
    let residue = evaluation_residue(config, ciphertext, alpha);
    match r {
        Ok(_) => {
            &&& shape_fault(config, ciphertext) is None
            &&& basis_defined(n, alpha)
            &&& residue.infinity
            &&& shares_match(config, ciphertext, alpha)
        },
        Err(PVSSError::InvalidParticipantId(k)) => shape_fault(config, ciphertext) == Some(
            k as nat,
        ),
        Err(PVSSError::EvaluationsCheckError(p)) => {
            &&& shape_fault(config, ciphertext) is None
            &&& basis_defined(n, alpha)
            &&& !residue.infinity
            &&& p@ == residue
        },
        Err(PVSSError::RatioIncorrect) => {
            &&& shape_fault(config, ciphertext) is None
            &&& !basis_defined(n, alpha) || (residue.infinity && !shares_match(
                config,
                ciphertext,
                alpha,
            ))
        },
        Err(PVSSError::InvalidSecretKeyError) => false,
    }
}

/// In a committee of up to 65 members whose ciphertext has the right shape,
/// the Lagrange coefficients at `alpha` can be computed unless `alpha` is one
/// of the nodes `1, .., n`. It holds of every challenge that a check has been
/// made with.
pub open spec fn fails_at_nodes_only(
    config: PVSSConfig,
    ciphertext: PVSSCiphertext,
    alpha: nat,
) -> bool {
    let n = config.pks().len();
    shape_fault(config, ciphertext) is None && n <= 65 ==> (basis_defined(n, alpha) <==> !(1
        <= alpha <= n))
}

/// Appends the items of `src` to `dst`.
fn append<T: Copy>(dst: &mut Vec<T>, src: &Vec<T>)
    ensures
        final(dst)@ == old(dst)@ + src@,
{
    let mut i: usize = 0;
    while i < src.len()
        invariant
            i <= src@.len(),
            dst@ == old(dst)@ + src@.take(i as int),
        decreases src@.len() - i,
    {
        dst.push(src[i]);
        i = i + 1;
        assert(dst@ =~= old(dst)@ + src@.take(i as int));
    }
    assert(src@.take(i as int) =~= src@);
}

/// The first `n` powers of `alpha`, or their additive inverses.
fn challenge_powers(n: usize, alpha: &Fr, negated: bool) -> (r: Vec<Fr>)
    ensures
        r@.len() == n,
        fr_values(r@) == if negated {
            negated_powers(n as nat, alpha@)
        } else {
            powers(n as nat, alpha@)
        },
{
    let mut current = if negated {
        Fr::one().neg()
    } else {
        Fr::one()
    };
    let mut r: Vec<Fr> = Vec::new();
    let mut k: usize = 0;
    while k < n
        invariant
            k <= n,
            r@.len() == k,
            current@ == if negated {
                fr_neg(fr_pow(alpha@, k as nat))
            } else {
                fr_pow(alpha@, k as nat)
            },
            forall|j: int|
                0 <= j < k ==> (#[trigger] r@[j])@ == if negated {
                    fr_neg(fr_pow(alpha@, j as nat))
                } else {
                    fr_pow(alpha@, j as nat)
                },
        decreases n - k,
    {
        r.push(current);
        proof {
            lemma_fr_mul_neg(fr_pow(alpha@, k as nat), alpha@);
        }
        current = current.mul(alpha);
        k = k + 1;
    }
    assert(fr_values(r@) =~= if negated {
        negated_powers(n as nat, alpha@)
    } else {
        powers(n as nat, alpha@)
    });
    r
}

/// Where the lengths differ, the smaller one.
fn unmatched(have: usize, want: usize) -> (r: Option<usize>)
    ensures
        match r {
            Some(k) => first_unmatched(have as nat, want as nat) == Some(k as nat),
            None => first_unmatched(have as nat, want as nat) is None,
        },
{
    if have == want {
        None
    } else if have < want {
        Some(have)
    } else {
        Some(want)
    }
}

/// Checks a ciphertext against a committee with the challenge `alpha`: that
/// it fits the committee, that the evaluation commitments belong to the
/// polynomial of the coefficient commitments, and that each encrypted share
/// matches its evaluation commitment under its member's key. Both checks hold
/// of every honest ciphertext for every challenge; a ciphertext that is not
/// consistent passes only for few challenges, so the challenge must be chosen
/// at random after the ciphertext is known.
pub fn verify_ciphertext_with_challenge(
    pvss_config: &PVSSConfig,
    ciphertext: &PVSSCiphertext,
    alpha: &Fr,
) -> (r: Result<(), PVSSError>)
    ensures
        verdict(*pvss_config, *ciphertext, alpha@, r),
        fails_at_nodes_only(*pvss_config, *ciphertext, alpha@),
{
    let pks = pvss_config.committee_pks();
    let n = pks.len();
    let t = pvss_config.t();
    if let Some(k) = unmatched(ciphertext.a_i.len(), n) {
        return Err(PVSSError::InvalidParticipantId(k));
    }
    if let Some(k) = unmatched(ciphertext.y_i.len(), n) {
        return Err(PVSSError::InvalidParticipantId(k));
    }
    if let Some(k) = unmatched(ciphertext.f_i.len(), t) {
        return Err(PVSSError::InvalidParticipantId(k));
    }
    // The evaluations belong to the committed polynomial.
    let mut scalars = match gen_all_lagrange_coefficients(n, *alpha) {
        Some(coefficients) => coefficients,
        None => {
            return Err(PVSSError::RatioIncorrect);
        },
    };
    let mut bases: Vec<G1Affine> = Vec::new();
    append(&mut bases, &ciphertext.a_i);
    append(&mut bases, &ciphertext.f_i);
    let negated = challenge_powers(t, alpha, true);
    append(&mut scalars, &negated);
    assert(bases@ =~= ciphertext.a_i@ + ciphertext.f_i@);
    assert(fr_values(scalars@) =~= basis_all(n as nat, alpha@) + negated_powers(
        t as nat,
        alpha@,
    ));
    let product = g1_multi_scalar_mul(&bases, &scalars);
    if !product.infinity {
        return Err(PVSSError::EvaluationsCheckError(product));
    }
    // The shares are encrypted correctly.
    let weights = challenge_powers(n, alpha, false);
    let g_neg = pvss_config.pairing_config().g.neg();
    let mut left: Vec<G1Affine> = Vec::new();
    let mut right: Vec<G2Affine> = Vec::new();
    let ghost want_left = share_check_left(
        pvss_config.pairing().g@,
        g1_points(ciphertext.a_i@),
        alpha@,
    );
    let ghost want_right = share_check_right(g2_points(ciphertext.y_i@), g2_points(pks@));
    let mut i: usize = 0;
    while i < n
        invariant
            i <= n,
            n == pks@.len(),
            n == ciphertext.a_i@.len(),
            n == ciphertext.y_i@.len(),
            weights@.len() == n,
            fr_values(weights@) == powers(n as nat, alpha@),
            g_neg@ == g1_neg(pvss_config.pairing().g@),
            want_left == share_check_left(
                pvss_config.pairing().g@,
                g1_points(ciphertext.a_i@),
                alpha@,
            ),
            want_right == share_check_right(g2_points(ciphertext.y_i@), g2_points(pks@)),
            left@.len() == 2 * i,
            right@.len() == 2 * i,
            forall|k: int| 0 <= k < 2 * i ==> (#[trigger] left@[k])@ == want_left[k],
            forall|k: int| 0 <= k < 2 * i ==> (#[trigger] right@[k])@ == want_right[k],
        decreases n - i,
    {
        assert(weights@[i as int]@ == fr_values(weights@)[i as int]);
        let weight = weights[i];
        left.push(g_neg.mul(&weight));
        right.push(ciphertext.y_i[i]);
        left.push(ciphertext.a_i[i].mul(&weight));
        right.push(pks[i]);
        i = i + 1;
    }
    assert(g1_points(left@) =~= want_left);
    assert(g2_points(right@) =~= want_right);
    if !pairing_check(&left, &right) {
        return Err(PVSSError::RatioIncorrect);
    }
    Ok(())
}

/// Checks a ciphertext against a committee, with a challenge that is drawn at
/// random for this call.
pub fn verify_ciphertext(pvss_config: &PVSSConfig, ciphertext: &PVSSCiphertext) -> (r: Result<
    (),
    PVSSError,
>)
    ensures
        exists|alpha: nat|
            {
                &&& alpha < fr_modulus()
                &&& #[trigger] verdict(*pvss_config, *ciphertext, alpha, r)
                &&& fails_at_nodes_only(*pvss_config, *ciphertext, alpha)
            },
{
    let alpha = Fr::random();
    let r = verify_ciphertext_with_challenge(pvss_config, ciphertext, &alpha);
    proof {
        use_type_invariant(&alpha);
        alpha.lemma_reduced();
    }
    r
}

/// Whether a decrypted share is the one that the ciphertext commits to for
/// member `i`: whether `e(-g, share) * e(a_i[i], h)` is one.
pub open spec fn share_is_valid(
    config: PVSSConfig,
    ciphertext: PVSSCiphertext,
    share: G2Point,
    i: int,
) -> bool {
    pairing_product_is_one(
        seq![g1_neg(config.pairing().g@), ciphertext.a_i@[i]@],
        seq![share, config.pairing().h@],
    )
}

/// Checks the decrypted share of member `i` against the ciphertext. An index
/// that names no member of the committee, or no evaluation commitment of the
/// ciphertext, is refused with `InvalidParticipantId`; a share that does not
/// match fails with `RatioIncorrect`.
pub fn verify_share(
    pvss_config: &PVSSConfig,
    pvss_ciphertext: &PVSSCiphertext,
    decrypted_share: G2Affine,
    i: usize,
) -> (r: Result<(), PVSSError>)
    ensures
        match r {
            Ok(_) => {
                &&& i < pvss_config.pks().len()
                &&& i < pvss_ciphertext.a_i@.len()
                &&& share_is_valid(*pvss_config, *pvss_ciphertext, decrypted_share@, i as int)
            },
            Err(PVSSError::InvalidParticipantId(k)) => {
                &&& k == i
                &&& (i >= pvss_config.pks().len() || i >= pvss_ciphertext.a_i@.len())
            },
            Err(PVSSError::RatioIncorrect) => {
                &&& i < pvss_config.pks().len()
                &&& i < pvss_ciphertext.a_i@.len()
                &&& !share_is_valid(*pvss_config, *pvss_ciphertext, decrypted_share@, i as int)
            },
            Err(_) => false,
        },
{
    if i >= pvss_config.committee_pks().len() || i >= pvss_ciphertext.a_i.len() {
        return Err(PVSSError::InvalidParticipantId(i));
    }
    let g_neg = pvss_config.pairing_config().g.neg();
    let mut left: Vec<G1Affine> = Vec::new();
    left.push(g_neg);
    left.push(pvss_ciphertext.a_i[i]);
    let mut right: Vec<G2Affine> = Vec::new();
    right.push(decrypted_share);
    right.push(pvss_config.pairing_config().h);
    assert(g1_points(left@) =~= seq![
        g1_neg(pvss_config.pairing().g@),
        pvss_ciphertext.a_i@[i as int]@,
    ]);
    assert(g2_points(right@) =~= seq![decrypted_share@, pvss_config.pairing().h@]);
    if !pairing_check(&left, &right) {
        return Err(PVSSError::RatioIncorrect);
    }
    Ok(())
}

/// The weights with which shares of the members `indices` add up to the
/// secret: the Lagrange coefficients at zero for the members' nodes.
pub open spec fn combining_weights(indices: Seq<usize>) -> Seq<nat> {
    lagrange_all(nodes_of(indices), 0)
}

/// Combines decrypted shares of the members `indices` into `f(0) * h`, the
/// committed form of the dealer's secret: the sum of the shares, each weighted
/// by the Lagrange coefficient at zero of its member's node. The shares are
/// trusted; with fewer shares than the polynomial has coefficients the result
/// is some other point. Where an index or a share has no counterpart, the sum
/// leaves it out.
///
/// No member may be named twice: the first index that stands at two positions
/// is refused with `InvalidParticipantId`.
pub fn combine_shares(decrypted_shares: &Vec<G2Affine>, indices: &Vec<usize>) -> (r: Result<
    G2Affine,
    PVSSError,
>)
    ensures
        match r {
            Ok(p) => {
                &&& forall|j: int| 0 <= j < indices@.len() ==> !occurs_twice(indices@, j)
                &&& forall|j: int|
                    0 <= j < indices@.len() ==> lagrange_defined_at(nodes_of(indices@), j)
                &&& p@ == g2_msm(g2_points(decrypted_shares@), combining_weights(indices@))
            },
            Err(PVSSError::InvalidParticipantId(k)) => exists|j: int|
                {
                    &&& 0 <= j < indices@.len()
                    &&& k == #[trigger] indices@[j]
                    &&& occurs_twice(indices@, j)
                    &&& forall|l: int| 0 <= l < j ==> !occurs_twice(indices@, l)
                },
            Err(_) => false,
        },
{
    let mut x: Vec<Fr> = Vec::new();
    let mut j: usize = 0;
    while j < indices.len()
        invariant
            j <= indices@.len(),
            x@.len() == j,
            forall|l: int| 0 <= l < j ==> (#[trigger] x@[l])@ == node(indices@[l] as int),
        decreases indices@.len() - j,
    {
        proof {
            lemma_fr_reduce_small((indices@[j as int] + 1) as nat);
        }
        x.push(Fr::from_u64(indices[j] as u64).add(&Fr::one()));
        j = j + 1;
    }
    assert(fr_values(x@) =~= nodes_of(indices@));
    match gen_lagrange_coefficients(x, Fr::zero()) {
        Ok(coefficients) => {
            assert forall|j: int| 0 <= j < indices@.len() implies !#[trigger] occurs_twice(
                indices@,
                j,
            ) by {
                lemma_nodes_repeat(indices@, j);
            }
            Ok(g2_multi_scalar_mul(decrypted_shares, &coefficients))
        },
        Err(j) => {
            proof {
                lemma_nodes_repeat(indices@, j as int);
                assert forall|l: int| 0 <= l < j implies !occurs_twice(indices@, l) by {
                    lemma_nodes_repeat(indices@, l);
                }
            }
            Err(PVSSError::InvalidParticipantId(indices[j]))
        },
    }
}

} // verus!
