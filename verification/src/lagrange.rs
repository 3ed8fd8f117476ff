//! Lagrange coefficients over the scalar ring, as numbers.
//!
//! Member `i` of a committee (counted from zero) holds the value of the
//! dealer's polynomial at the node `i + 1`.

use crate::algebra::{
    fr_inv, fr_invertible, fr_modulus, fr_mul, fr_neg, fr_sub, lemma_fr_inv_invertible,
    lemma_fr_inv_one, lemma_fr_invertible_factor, lemma_fr_invertible_mul, lemma_fr_mul_assoc,
    lemma_fr_mul_bound, lemma_fr_mul_cancel, lemma_fr_mul_comm, lemma_fr_mul_one, lemma_fr_mul_swap,
    lemma_fr_reduce_small,
};
use vstd::prelude::*;

verus! {

/// The node of member `i`.
pub open spec fn node(i: int) -> nat {
    (i + 1) as nat
}

/// The nodes of a committee of `n` members: `1, .., n`.
pub open spec fn nodes(n: nat) -> Seq<nat> {
    Seq::new(n, |i: int| node(i))
}

/// The nodes of the members with the given indices.
pub open spec fn nodes_of(indices: Seq<usize>) -> Seq<nat> {
    Seq::new(indices.len(), |j: int| node(indices[j] as int))
}

/// The product, over the positions `j < k` other than `i`, of
/// `(alpha - x[j]) / (x[i] - x[j])`.
pub open spec fn lagrange_partial(x: Seq<nat>, i: int, alpha: nat, k: nat) -> nat
    decreases k,
{
    if k == 0 {
        1
    } else if k - 1 == i {
        lagrange_partial(x, i, alpha, (k - 1) as nat)
    } else {
        fr_mul(
            lagrange_partial(x, i, alpha, (k - 1) as nat),
            fr_mul(fr_sub(alpha, x[k - 1]), fr_inv(fr_sub(x[i], x[k - 1]))),
        )
    }
}

/// The value at `alpha` of the Lagrange basis polynomial of position `i` for
/// the nodes `x`: the product, over the other positions `j`, of
/// `(alpha - x[j]) / (x[i] - x[j])`.
pub open spec fn lagrange_coeff(x: Seq<nat>, i: int, alpha: nat) -> nat {
    lagrange_partial(x, i, alpha, x.len())
}

/// The Lagrange coefficients at `alpha` for the nodes `x`.
pub open spec fn lagrange_all(x: Seq<nat>, alpha: nat) -> Seq<nat> {
    Seq::new(x.len(), |i: int| lagrange_coeff(x, i, alpha))
}

/// Every difference that the coefficient of position `i` divides by has an
/// inverse.
pub open spec fn lagrange_defined_at(x: Seq<nat>, i: int) -> bool {
    forall|j: int| 0 <= j < x.len() && j != i ==> fr_invertible(#[trigger] fr_sub(x[i], x[j]))
}

/// What stands at position `i` stands at another position too.
pub open spec fn occurs_twice<T>(x: Seq<T>, i: int) -> bool {
    exists|j: int| 0 <= j < x.len() && j != i && #[trigger] x[j] == x[i]
}

/// The product of `alpha - j` over `j = 1, .., n`.
pub open spec fn node_product(n: nat, alpha: nat) -> nat
    decreases n,
{
    if n == 0 {
        1
    } else {
        fr_mul(node_product((n - 1) as nat, alpha), fr_sub(alpha, n))
    }
}

/// The product of `1, .., k`.
pub open spec fn pos_factorial(k: nat) -> nat
    decreases k,
{
    if k == 0 {
        1
    } else {
        fr_mul(pos_factorial((k - 1) as nat), k)
    }
}

/// The product of `-1, .., -k`.
pub open spec fn neg_factorial(k: nat) -> nat
    decreases k,
{
    if k == 0 {
        1
    } else {
        fr_mul(neg_factorial((k - 1) as nat), fr_neg(k))
    }
}

/// What the coefficient of member `i` among `n` divides by besides
/// `alpha - node(i)`: the product of `node(i) - node(j)` over the other
/// members `j`.
pub open spec fn basis_denominator(n: nat, i: int) -> nat {
    fr_mul(pos_factorial(i as nat), neg_factorial((n - 1 - i) as nat))
}

/// The value at `alpha` of the Lagrange basis polynomial of member `i` for the
/// nodes `1, .., n`, by the closed formula: the product of all `alpha - j`,
/// divided by `alpha - node(i)` and by the product of the differences
/// `node(i) - node(j)`.
pub open spec fn basis_at(n: nat, i: int, alpha: nat) -> nat {
    fr_mul(
        fr_mul(node_product(n, alpha), fr_inv(fr_sub(alpha, node(i)))),
        fr_inv(basis_denominator(n, i)),
    )
}

/// Everything that the closed formula divides by, for member `i`, has an
/// inverse.
pub open spec fn basis_defined_at(n: nat, i: int, alpha: nat) -> bool {
    fr_invertible(fr_sub(alpha, node(i))) && fr_invertible(basis_denominator(n, i))
}

/// Something that the closed formula divides by, for member `i`, is zero.
pub open spec fn basis_vanishes_at(n: nat, i: int, alpha: nat) -> bool {
    fr_sub(alpha, node(i)) == 0 || basis_denominator(n, i) == 0
}

/// The closed formula can be evaluated for every member.
pub open spec fn basis_defined(n: nat, alpha: nat) -> bool {
    forall|i: int| 0 <= i < n ==> basis_defined_at(n, i, alpha)
}

/// The values of the closed formula for the members `0, .., n - 1`.
pub open spec fn basis_all(n: nat, alpha: nat) -> Seq<nat> {
    Seq::new(n, |i: int| basis_at(n, i, alpha))
}

/// The product of `alpha - node(j)` over the members `j < k` other than `i`.
pub open spec fn numerator_without(i: int, k: nat, alpha: nat) -> nat
    decreases k,
{
    if k == 0 {
        1
    } else if k - 1 == i {
        numerator_without(i, (k - 1) as nat, alpha)
    } else {
        fr_mul(numerator_without(i, (k - 1) as nat, alpha), fr_sub(alpha, node(k - 1)))
    }
}

/// The product of `node(i) - node(j)` over the members `j < k` other than
/// `i`.
pub open spec fn denominator_upto(i: int, k: nat) -> nat
    decreases k,
{
    if k == 0 {
        1
    } else if k - 1 == i {
        denominator_upto(i, (k - 1) as nat)
    } else {
        fr_mul(denominator_upto(i, (k - 1) as nat), fr_sub(node(i), node(k - 1)))
    }
}

proof fn lemma_products_reduced(i: int, k: nat, alpha: nat)
    ensures
        numerator_without(i, k, alpha) < fr_modulus(),
        denominator_upto(i, k) < fr_modulus(),
        node_product(k, alpha) < fr_modulus(),
        pos_factorial(k) < fr_modulus(),
        neg_factorial(k) < fr_modulus(),
    decreases k,
{
    if k > 0 {
        lemma_products_reduced(i, (k - 1) as nat, alpha);
        lemma_fr_mul_bound(numerator_without(i, (k - 1) as nat, alpha), fr_sub(alpha, node(k - 1)));
        lemma_fr_mul_bound(denominator_upto(i, (k - 1) as nat), fr_sub(node(i), node(k - 1)));
        lemma_fr_mul_bound(node_product((k - 1) as nat, alpha), fr_sub(alpha, k));
        lemma_fr_mul_bound(pos_factorial((k - 1) as nat), k);
        lemma_fr_mul_bound(neg_factorial((k - 1) as nat), fr_neg(k));
    }
}

/// The product of the differences below member `i`, times what is left of the
/// factorial, is the factorial.
proof fn lemma_denominator_below(i: nat, k: nat)
    requires
        k <= i < fr_modulus(),
    ensures
        fr_mul(denominator_upto(i as int, k), pos_factorial((i - k) as nat)) == pos_factorial(i),
    decreases k,
{
    lemma_products_reduced(i as int, i, 0);
    if k == 0 {
        lemma_fr_mul_one(pos_factorial(i));
    } else {
        let j = (k - 1) as nat;
        let rest = pos_factorial((i - k) as nat);
        let d = fr_sub(node(i as int), node(j as int));
        lemma_denominator_below(i, j);
        lemma_fr_reduce_small((i - j) as nat);
        assert(d == (i - j) as nat);
        // (D d) rest = D (d rest) = D (rest d) = D pos_factorial(i - j)
        lemma_fr_mul_assoc(denominator_upto(i as int, j), d, rest);
        lemma_fr_mul_comm(d, rest);
        assert(pos_factorial((i - j) as nat) == fr_mul(rest, (i - j) as nat));
    }
}

/// The product of the differences for member `i` among `n` is what the closed
/// formula divides by.
proof fn lemma_denominator(n: nat, i: nat, k: nat)
    requires
        i < k <= n,
        i < fr_modulus(),
    ensures
        denominator_upto(i as int, k) == fr_mul(
            pos_factorial(i),
            neg_factorial((k - 1 - i) as nat),
        ),
    decreases k,
{
    lemma_products_reduced(i as int, i, 0);
    if k == i + 1 {
        lemma_denominator_below(i, i);
        lemma_products_reduced(i as int, i, 0);
        lemma_fr_mul_one(denominator_upto(i as int, i));
        lemma_fr_mul_one(pos_factorial(i));
    } else {
        let j = (k - 1) as nat;
        lemma_denominator(n, i, j);
        let d = fr_sub(node(i as int), node(j as int));
        assert(d == fr_neg((j - i) as nat));
        lemma_fr_mul_assoc(pos_factorial(i), neg_factorial((j - 1 - i) as nat), d);
    }
}

/// Where the product of the differences has an inverse, each difference has
/// one.
proof fn lemma_differences_invertible(i: int, k: nat)
    requires
        fr_invertible(denominator_upto(i, k)),
    ensures
        forall|j: int|
            0 <= j < k && j != i ==> fr_invertible(#[trigger] fr_sub(node(i), node(j))),
        forall|m: nat| m <= k ==> fr_invertible(#[trigger] denominator_upto(i, m)),
    decreases k,
{
    if k > 0 {
        if k - 1 == i {
            lemma_differences_invertible(i, (k - 1) as nat);
        } else {
            lemma_fr_invertible_factor(
                denominator_upto(i, (k - 1) as nat),
                fr_sub(node(i), node(k - 1)),
            );
            lemma_differences_invertible(i, (k - 1) as nat);
        }
    }
}

/// The product that defines a coefficient is the product of its numerators
/// divided by the product of its differences.
proof fn lemma_partial_splits(n: nat, i: int, alpha: nat, k: nat)
    requires
        0 <= i < n,
        k <= n,
        fr_invertible(denominator_upto(i, k)),
    ensures
        lagrange_partial(nodes(n), i, alpha, k) == fr_mul(
            numerator_without(i, k, alpha),
            fr_inv(denominator_upto(i, k)),
        ),
    decreases k,
{
    lemma_differences_invertible(i, k);
    if k == 0 {
        lemma_fr_inv_one();
        lemma_fr_mul_one(1);
    } else {
        let j = (k - 1) as nat;
        assert(fr_invertible(denominator_upto(i, j)));
        lemma_partial_splits(n, i, alpha, j);
        if j != i {
            let t = numerator_without(i, j, alpha);
            let b = denominator_upto(i, j);
            let a = fr_sub(alpha, node(j as int));
            let d = fr_sub(node(i), node(j as int));
            assert(nodes(n)[j as int] == node(j as int));
            assert(nodes(n)[i] == node(i));
            assert(fr_invertible(d));
            lemma_fr_invertible_mul(b, d);
            lemma_fr_mul_swap(t, fr_inv(b), a, fr_inv(d));
        }
    }
}

/// The product of the numerators without member `i`, times the numerator of
/// member `i`, is the product of all numerators.
proof fn lemma_numerator(i: nat, k: nat, alpha: nat)
    ensures
        k <= i ==> numerator_without(i as int, k, alpha) == node_product(k, alpha),
        k > i ==> fr_mul(numerator_without(i as int, k, alpha), fr_sub(alpha, node(i as int)))
            == node_product(k, alpha),
    decreases k,
{
    if k > 0 {
        let j = (k - 1) as nat;
        lemma_numerator(i, j, alpha);
        if j > i {
            let t = numerator_without(i as int, j, alpha);
            let a = fr_sub(alpha, node(j as int));
            let s = fr_sub(alpha, node(i as int));
            // (t a) s = t (a s) = t (s a) = (t s) a
            lemma_fr_mul_assoc(t, a, s);
            lemma_fr_mul_comm(a, s);
            lemma_fr_mul_assoc(t, s, a);
        }
    }
}

/// For the nodes `1, .., n`, the product that defines the Lagrange coefficient
/// of a member and the closed formula give the same number, wherever the
/// closed formula can be evaluated; and there the product can be evaluated
/// too. The committee is smaller than the field, as every committee that fits
/// into memory is.
pub proof fn lemma_lagrange_equivalence(n: nat, i: int, alpha: nat)
    requires
        0 <= i < n < fr_modulus(),
        basis_defined_at(n, i, alpha),
    ensures
        lagrange_defined_at(nodes(n), i),
        lagrange_coeff(nodes(n), i, alpha) == basis_at(n, i, alpha),
{
    let s = fr_sub(alpha, node(i));
    lemma_denominator(n, i as nat, n);
    assert((n - 1 - i) as nat == n - 1 - i);
    assert(denominator_upto(i, n) == basis_denominator(n, i));
    lemma_differences_invertible(i, n);
    assert forall|j: int| 0 <= j < nodes(n).len() && j != i implies fr_invertible(
        #[trigger] fr_sub(nodes(n)[i], nodes(n)[j]),
    ) by {
        assert(fr_invertible(fr_sub(node(i), node(j))));
    }
    lemma_partial_splits(n, i, alpha, n);
    lemma_numerator(i as nat, n, alpha);
    lemma_products_reduced(i, n, alpha);
    lemma_fr_mul_cancel(numerator_without(i, n, alpha), s);
}

/// For the nodes `1, .., n`, the coefficients by the defining products and
/// those by the closed formula are the same sequence, wherever the closed
/// formula can be evaluated.
pub proof fn lemma_lagrange_equivalence_all(n: nat, alpha: nat)
    requires
        n < fr_modulus(),
        basis_defined(n, alpha),
    ensures
        forall|i: int| 0 <= i < n ==> #[trigger] lagrange_defined_at(nodes(n), i),
        lagrange_all(nodes(n), alpha) == basis_all(n, alpha),
{
    assert forall|i: int| 0 <= i < n implies #[trigger] lagrange_defined_at(nodes(n), i) by {
        lemma_lagrange_equivalence(n, i, alpha);
    }
    assert forall|i: int| 0 <= i < n implies #[trigger] lagrange_coeff(nodes(n), i, alpha)
        == basis_at(n, i, alpha) by {
        lemma_lagrange_equivalence(n, i, alpha);
    }
    assert(lagrange_all(nodes(n), alpha) =~= basis_all(n, alpha));
}

/// No two members of a committee have the same node.
pub proof fn lemma_nodes_differ(n: nat, i: int)
    requires
        0 <= i < n,
    ensures
        !occurs_twice(nodes(n), i),
{
}

/// Where the closed formula can be evaluated, the product of all
/// `alpha - j` is invertible.
pub proof fn lemma_node_product_invertible(n: nat, alpha: nat, m: nat)
    requires
        m <= n,
        basis_defined(n, alpha),
    ensures
        fr_invertible(node_product(m, alpha)),
    decreases m,
{
    if m == 0 {
        lemma_fr_inv_one();
    } else {
        lemma_node_product_invertible(n, alpha, (m - 1) as nat);
        assert(basis_defined_at(n, m - 1, alpha));
        assert(fr_sub(alpha, m) == fr_sub(alpha, node(m - 1)));
        lemma_fr_invertible_mul(node_product((m - 1) as nat, alpha), fr_sub(alpha, m));
    }
}

/// Where the closed formula can be evaluated, each Lagrange coefficient that
/// it gives is invertible.
pub proof fn lemma_basis_invertible(n: nat, i: int, alpha: nat)
    requires
        0 <= i < n,
        basis_defined(n, alpha),
    ensures
        fr_invertible(basis_at(n, i, alpha)),
{
    lemma_node_product_invertible(n, alpha, n);
    assert(basis_defined_at(n, i, alpha));
    lemma_fr_inv_invertible(fr_sub(alpha, node(i)));
    lemma_fr_inv_invertible(basis_denominator(n, i));
    lemma_fr_invertible_mul(node_product(n, alpha), fr_inv(fr_sub(alpha, node(i))));
    lemma_fr_invertible_mul(
        fr_mul(node_product(n, alpha), fr_inv(fr_sub(alpha, node(i)))),
        fr_inv(basis_denominator(n, i)),
    );
}

/// A Lagrange coefficient is reduced.
pub proof fn lemma_lagrange_reduced(x: Seq<nat>, i: int, alpha: nat, k: nat)
    ensures
        lagrange_partial(x, i, alpha, k) < fr_modulus(),
    decreases k,
{
    if k > 0 {
        lemma_lagrange_reduced(x, i, alpha, (k - 1) as nat);
        lemma_fr_mul_bound(
            lagrange_partial(x, i, alpha, (k - 1) as nat),
            fr_mul(fr_sub(alpha, x[k - 1]), fr_inv(fr_sub(x[i], x[k - 1]))),
        );
    }
}

/// Members have the same node only if they are the same member.
pub proof fn lemma_nodes_repeat(indices: Seq<usize>, i: int)
    requires
        0 <= i < indices.len(),
    ensures
        occurs_twice(nodes_of(indices), i) <==> occurs_twice(indices, i),
{
    if occurs_twice(nodes_of(indices), i) {
        let j = choose|j: int|
            0 <= j < nodes_of(indices).len() && j != i && #[trigger] nodes_of(indices)[j]
                == nodes_of(indices)[i];
        assert(indices[j] == indices[i]);
    }
    if occurs_twice(indices, i) {
        let j = choose|j: int| 0 <= j < indices.len() && j != i && #[trigger] indices[j] == indices[i];
        assert(nodes_of(indices)[j] == nodes_of(indices)[i]);
    }
}

} // verus!
