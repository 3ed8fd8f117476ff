//! Arithmetic of the scalar ring `Z / r`, where `r` is the order of the BN254
//! groups, stated over natural numbers.
//!
//! Nothing here relies on `r` being prime: a residue that has a multiplicative
//! inverse is called invertible, and every statement about division is made for
//! invertible residues.

use vstd::arithmetic::div_mod::*;
use vstd::arithmetic::mul::*;
use vstd::arithmetic::power2::{lemma2_to64, lemma_pow2_adds, pow2};
use vstd::prelude::*;

verus! {

/// Order of the BN254 scalar field.
pub open spec fn fr_modulus() -> nat {
    21888242871839275222246405745257275088548364400416034343698204186575808495617nat
}

/// Order of the BN254 base field.
pub open spec fn fq_modulus() -> nat {
    21888242871839275222246405745257275088696311157297823662689037894645226208583nat
}

/// The largest secret plus one: two to the power 250. Secrets have at most
/// 250 bits, which is what the circuits that consume them can take.
pub open spec fn secret_bound() -> nat {
    pow2(250)
}

/// Every number of the sequence is reduced.
pub open spec fn all_reduced(s: Seq<nat>) -> bool {
    forall|i: int| 0 <= i < s.len() ==> #[trigger] s[i] < fr_modulus()
}

/// The natural number held by four 64-bit limbs, least significant first.
pub open spec fn limbs_value(l0: u64, l1: u64, l2: u64, l3: u64) -> nat {
    (l0 as nat) + (l1 as nat) * 0x1_0000_0000_0000_0000nat + (l2 as nat)
        * 0x1_0000_0000_0000_0000_0000_0000_0000_0000nat + (l3 as nat)
        * 0x1_0000_0000_0000_0000_0000_0000_0000_0000_0000_0000_0000_0000nat
}

/// A limb and what stands above it are fixed by the number that they hold.
proof fn lemma_limb_splits(x: u64, above_x: int, y: u64, above_y: int)
    requires
        x + 0x1_0000_0000_0000_0000 * above_x == y + 0x1_0000_0000_0000_0000 * above_y,
    ensures
        x == y,
        above_x == above_y,
{
    if above_x < above_y {
        assert(0x1_0000_0000_0000_0000 * (above_y - above_x) >= 0x1_0000_0000_0000_0000);
    } else if above_y < above_x {
        assert(0x1_0000_0000_0000_0000 * (above_x - above_y) >= 0x1_0000_0000_0000_0000);
    }
}

/// Two limb quadruples that hold the same number are the same quadruple.
pub proof fn lemma_limbs_value_injective(
    a0: u64,
    a1: u64,
    a2: u64,
    a3: u64,
    b0: u64,
    b1: u64,
    b2: u64,
    b3: u64,
)
    requires
        limbs_value(a0, a1, a2, a3) == limbs_value(b0, b1, b2, b3),
    ensures
        a0 == b0,
        a1 == b1,
        a2 == b2,
        a3 == b3,
{
    let m = 0x1_0000_0000_0000_0000int;
    let above_a1 = a2 + m * a3;
    let above_b1 = b2 + m * b3;
    let above_a0 = a1 + m * above_a1;
    let above_b0 = b1 + m * above_b1;
    assert(limbs_value(a0, a1, a2, a3) == a0 + m * above_a0);
    assert(limbs_value(b0, b1, b2, b3) == b0 + m * above_b0);
    lemma_limb_splits(a0, above_a0, b0, above_b0);
    lemma_limb_splits(a1, above_a1, b1, above_b1);
    lemma_limb_splits(a2, a3 as int, b2, b3 as int);
}

/// Residue of an integer modulo the scalar field order.
pub open spec fn fr_reduce(a: int) -> nat {
    (a % (fr_modulus() as int)) as nat
}

/// The sum of two residues.
pub open spec fn fr_add(a: nat, b: nat) -> nat {
    fr_reduce(a as int + b as int)
}

/// The difference of two residues.
pub open spec fn fr_sub(a: nat, b: nat) -> nat {
    fr_reduce(a - b)
}

/// The additive inverse of a residue.
pub open spec fn fr_neg(a: nat) -> nat {
    fr_reduce(-(a as int))
}

/// The product of two residues.
pub open spec fn fr_mul(a: nat, b: nat) -> nat {
    fr_reduce(a as int * b as int)
}

/// `a` raised to the power `e`.
pub open spec fn fr_pow(a: nat, e: nat) -> nat
    decreases e,
{
    if e == 0 {
        1
    } else {
        fr_mul(fr_pow(a, (e - 1) as nat), a)
    }
}

/// `b` is a reduced residue with `a * b = 1`.
pub open spec fn fr_is_inverse(a: nat, b: nat) -> bool {
    b < fr_modulus() && fr_mul(a, b) == 1
}

/// `a` has a multiplicative inverse.
pub open spec fn fr_invertible(a: nat) -> bool {
    exists|b: nat| fr_is_inverse(a, b)
}

/// The multiplicative inverse of an invertible residue.
pub open spec fn fr_inv(a: nat) -> nat {
    choose|b: nat| fr_is_inverse(a, b)
}

/// A residue is below the field order.
pub proof fn lemma_fr_reduce_bound(a: int)
    ensures
        fr_reduce(a) < fr_modulus(),
        fr_reduce(a) as int == a % (fr_modulus() as int),
{
    lemma_mod_bound(a, fr_modulus() as int);
}

/// A number below the field order is its own residue.
pub proof fn lemma_fr_reduce_small(a: nat)
    requires
        a < fr_modulus(),
    ensures
        fr_reduce(a as int) == a,
{
    lemma_small_mod(a, fr_modulus());
}

/// Reducing a factor first does not change a product.
pub proof fn lemma_fr_mul_reduce(a: int, b: int)
    ensures
        fr_reduce(fr_reduce(a) * b) == fr_reduce(a * b),
        fr_reduce(a * fr_reduce(b)) == fr_reduce(a * b),
{
    let m = fr_modulus() as int;
    lemma_fr_reduce_bound(a);
    lemma_fr_reduce_bound(b);
    lemma_mul_mod_noop_left(a, b, m);
    lemma_mul_mod_noop_right(a, b, m);
}

/// Reducing a summand first does not change a sum.
pub proof fn lemma_fr_add_reduce(a: int, b: int)
    ensures
        fr_reduce(fr_reduce(a) + b) == fr_reduce(a + b),
        fr_reduce(a + fr_reduce(b)) == fr_reduce(a + b),
{
    let m = fr_modulus() as int;
    lemma_fr_reduce_bound(a);
    lemma_fr_reduce_bound(b);
    lemma_add_mod_noop(a, b, m);
    lemma_add_mod_noop(fr_reduce(a) as int, b, m);
    lemma_add_mod_noop(a, fr_reduce(b) as int, m);
    lemma_mod_twice(a, m);
    lemma_mod_twice(b, m);
}

/// The factors of a product can change places.
pub proof fn lemma_fr_mul_comm(a: nat, b: nat)
    ensures
        fr_mul(a, b) == fr_mul(b, a),
{
    lemma_mul_is_commutative(a as int, b as int);
}

/// Products can be taken in any grouping.
pub proof fn lemma_fr_mul_assoc(a: nat, b: nat, c: nat)
    ensures
        fr_mul(fr_mul(a, b), c) == fr_mul(a, fr_mul(b, c)),
{
    lemma_fr_mul_reduce(a as int * b as int, c as int);
    lemma_fr_mul_reduce(a as int, b as int * c as int);
    lemma_mul_is_associative(a as int, b as int, c as int);
}

/// A product with one is the other factor.
pub proof fn lemma_fr_mul_one(a: nat)
    requires
        a < fr_modulus(),
    ensures
        fr_mul(a, 1) == a,
        fr_mul(1, a) == a,
{
    lemma_fr_reduce_small(a);
    assert(a * 1 == a && 1 * a == a);
}

/// An inverse is unique, so `fr_inv` names it.
pub proof fn lemma_fr_inverse_unique(a: nat, b: nat)
    requires
        fr_is_inverse(a, b),
    ensures
        fr_invertible(a),
        fr_inv(a) == b,
        fr_is_inverse(a, fr_inv(a)),
{
    let c = fr_inv(a);
    assert(fr_is_inverse(a, c));
    // b = b * (a * c) = (b * a) * c = c
    lemma_fr_mul_assoc(b, a, c);
    lemma_fr_mul_comm(a, b);
    lemma_fr_mul_one(b);
    lemma_fr_mul_one(c);
}

/// Zero has no inverse.
pub proof fn lemma_fr_zero_not_invertible(a: nat)
    requires
        fr_reduce(a as int) == 0,
    ensures
        !fr_invertible(a),
{
    if fr_invertible(a) {
        let b = fr_inv(a);
        assert(fr_is_inverse(a, b));
        lemma_fr_mul_reduce(a as int, b as int);
        assert(0 * b == 0);
        lemma_fr_reduce_small(0);
    }
}

/// A product of two invertible residues is invertible.
pub proof fn lemma_fr_invertible_mul(a: nat, b: nat)
    requires
        fr_invertible(a),
        fr_invertible(b),
    ensures
        fr_invertible(fr_mul(a, b)),
        fr_inv(fr_mul(a, b)) == fr_mul(fr_inv(a), fr_inv(b)),
{
    let x = fr_inv(a);
    let y = fr_inv(b);
    assert(fr_is_inverse(a, x));
    assert(fr_is_inverse(b, y));
    let p = fr_mul(a, b);
    let q = fr_mul(x, y);
    lemma_fr_reduce_bound(x as int * y as int);
    // (a b)(x y) = a (b (x y)) = a ((b x) y) = a ((x b) y) = a (x (b y)) = a x = 1
    lemma_fr_mul_assoc(a, b, q);
    lemma_fr_mul_assoc(b, x, y);
    lemma_fr_mul_comm(b, x);
    lemma_fr_mul_assoc(x, b, y);
    lemma_fr_mul_one(x);
    assert(fr_mul(b, q) == x);
    assert(fr_mul(p, q) == 1);
    lemma_fr_inverse_unique(p, q);
}

/// A residue whose product with another is invertible is itself invertible.
pub proof fn lemma_fr_invertible_factor(a: nat, b: nat)
    requires
        fr_invertible(fr_mul(a, b)),
    ensures
        fr_invertible(a),
        fr_invertible(b),
{
    let p = fr_mul(a, b);
    let q = fr_inv(p);
    assert(fr_is_inverse(p, q));
    // a * (b q) = (a b) q = 1
    lemma_fr_mul_assoc(a, b, q);
    lemma_fr_reduce_bound(b as int * q as int);
    assert(fr_is_inverse(a, fr_mul(b, q)));
    // b * (a q) = (b a) q = 1
    lemma_fr_mul_comm(a, b);
    lemma_fr_mul_assoc(b, a, q);
    lemma_fr_reduce_bound(a as int * q as int);
    assert(fr_is_inverse(b, fr_mul(a, q)));
}

/// Negating a reduced number gives what negating the number gives.
pub proof fn lemma_fr_neg_reduce(a: int)
    ensures
        fr_reduce(-(fr_reduce(a) as int)) == fr_reduce(-a),
{
    let m = fr_modulus() as int;
    lemma_fr_reduce_bound(a);
    lemma_sub_mod_noop_right(0, a, m);
}

/// A sign can be moved out of a product.
pub proof fn lemma_fr_mul_neg(a: nat, b: nat)
    ensures
        fr_mul(fr_neg(a), b) == fr_neg(fr_mul(a, b)),
{
    lemma_fr_mul_reduce(-(a as int), b as int);
    lemma_fr_neg_reduce(a as int * b as int);
    lemma_mul_unary_negation(a as int, b as int);
}

/// A product is reduced.
pub proof fn lemma_fr_mul_bound(a: nat, b: nat)
    ensures
        fr_mul(a, b) < fr_modulus(),
{
    lemma_fr_reduce_bound(a as int * b as int);
}

/// The two middle factors of a product of two products can change places.
pub proof fn lemma_fr_mul_swap(a: nat, b: nat, c: nat, d: nat)
    ensures
        fr_mul(fr_mul(a, b), fr_mul(c, d)) == fr_mul(fr_mul(a, c), fr_mul(b, d)),
{
    lemma_fr_mul_assoc(fr_mul(a, b), c, d);
    lemma_fr_mul_assoc(a, b, c);
    lemma_fr_mul_comm(b, c);
    lemma_fr_mul_assoc(a, c, b);
    lemma_fr_mul_assoc(fr_mul(a, c), b, d);
}

/// One is its own inverse.
pub proof fn lemma_fr_inv_one()
    ensures
        fr_invertible(1),
        fr_inv(1) == 1,
{
    lemma_fr_reduce_small(1);
    assert(1 * 1 == 1);
    assert(fr_is_inverse(1, 1));
    lemma_fr_inverse_unique(1, 1);
}

/// Dividing a product by one of its factors gives the other.
pub proof fn lemma_fr_mul_cancel(a: nat, b: nat)
    requires
        a < fr_modulus(),
        fr_invertible(b),
    ensures
        fr_mul(fr_mul(a, b), fr_inv(b)) == a,
{
    assert(fr_is_inverse(b, fr_inv(b)));
    lemma_fr_mul_assoc(a, b, fr_inv(b));
    lemma_fr_mul_one(a);
}

/// Two reduced numbers differ by zero only if they are the same.
pub proof fn lemma_fr_sub_zero(a: nat, b: nat)
    requires
        a < fr_modulus(),
        b < fr_modulus(),
    ensures
        fr_sub(a, b) == 0 <==> a == b,
{
    let m = fr_modulus() as int;
    if a >= b {
        lemma_small_mod((a - b) as nat, fr_modulus());
    } else {
        lemma_small_mod((a - b + m) as nat, fr_modulus());
        lemma_mod_add_multiples_vanish(a - b, m);
    }
}

/// The summands of a sum can change places.
pub proof fn lemma_fr_add_comm(a: nat, b: nat)
    ensures
        fr_add(a, b) == fr_add(b, a),
{
}

/// Sums can be taken in any grouping.
pub proof fn lemma_fr_add_assoc(a: nat, b: nat, c: nat)
    ensures
        fr_add(fr_add(a, b), c) == fr_add(a, fr_add(b, c)),
{
    lemma_fr_add_reduce(a as int + b as int, c as int);
    lemma_fr_add_reduce(a as int, b as int + c as int);
}

/// A sum with zero is the other summand.
pub proof fn lemma_fr_add_zero(a: nat)
    requires
        a < fr_modulus(),
    ensures
        fr_add(a, 0) == a,
        fr_add(0, a) == a,
{
    lemma_fr_reduce_small(a);
}

/// A product with zero is zero.
pub proof fn lemma_fr_mul_zero(a: nat)
    ensures
        fr_mul(a, 0) == 0,
        fr_mul(0, a) == 0,
{
    lemma_fr_reduce_small(0);
    assert(a * 0 == 0 && 0 * a == 0);
}

/// A product with a sum is the sum of the products.
pub proof fn lemma_fr_distrib(a: nat, b: nat, c: nat)
    ensures
        fr_mul(a, fr_add(b, c)) == fr_add(fr_mul(a, b), fr_mul(a, c)),
        fr_mul(fr_add(b, c), a) == fr_add(fr_mul(b, a), fr_mul(c, a)),
{
    lemma_fr_mul_reduce(a as int, b as int + c as int);
    lemma_fr_add_reduce(a as int * b as int, a as int * c as int);
    lemma_fr_add_reduce(a as int * b as int, fr_mul(a, c) as int);
    lemma_mul_is_distributive_add(a as int, b as int, c as int);
    lemma_fr_mul_comm(a, fr_add(b, c));
    lemma_fr_mul_comm(a, b);
    lemma_fr_mul_comm(a, c);
}

/// A difference is the sum with the additive inverse.
pub proof fn lemma_fr_sub_is_add_neg(a: nat, b: nat)
    ensures
        fr_sub(a, b) == fr_add(a, fr_neg(b)),
{
    lemma_fr_add_reduce(a as int, -(b as int));
}

/// A number and its additive inverse add up to zero.
pub proof fn lemma_fr_add_neg(a: nat)
    ensures
        fr_add(a, fr_neg(a)) == 0,
        fr_sub(a, a) == 0,
{
    lemma_fr_sub_is_add_neg(a, a);
    lemma_fr_reduce_small(0);
}

/// A product with a difference is the difference of the products.
pub proof fn lemma_fr_distrib_sub(a: nat, b: nat, c: nat)
    ensures
        fr_mul(a, fr_sub(b, c)) == fr_sub(fr_mul(a, b), fr_mul(a, c)),
{
    lemma_fr_mul_reduce(a as int, b as int - c as int);
    lemma_sub_mod_noop(a as int * b as int, a as int * c as int, fr_modulus() as int);
    lemma_fr_reduce_bound(a as int * b as int);
    lemma_fr_reduce_bound(a as int * c as int);
    lemma_mul_is_distributive_sub(a as int, b as int, c as int);
}

/// The additive inverse of a difference is the difference the other way
/// round.
pub proof fn lemma_fr_neg_sub(a: nat, b: nat)
    ensures
        fr_neg(fr_sub(a, b)) == fr_sub(b, a),
{
    lemma_fr_neg_reduce(a as int - b as int);
}

/// A sign can be moved out of a product.
pub proof fn lemma_fr_mul_neg_right(a: nat, b: nat)
    ensures
        fr_mul(a, fr_neg(b)) == fr_neg(fr_mul(a, b)),
{
    lemma_fr_mul_neg(b, a);
    lemma_fr_mul_comm(a, fr_neg(b));
    lemma_fr_mul_comm(a, b);
}

/// Taking away an additive inverse is adding.
pub proof fn lemma_fr_sub_neg(a: nat, b: nat)
    ensures
        fr_sub(a, fr_neg(b)) == fr_add(a, b),
{
    let m = fr_modulus() as int;
    lemma_sub_mod_noop_right(a as int, -(b as int), m);
}

/// Differences in a row add up.
pub proof fn lemma_fr_sub_chain(a: nat, b: nat, c: nat)
    ensures
        fr_add(fr_sub(b, c), fr_sub(a, b)) == fr_sub(a, c),
{
    lemma_fr_add_reduce(b as int - c as int, a as int - b as int);
}

/// The additive inverses of two numbers add up to that of their sum.
pub proof fn lemma_fr_neg_add(a: nat, b: nat)
    ensures
        fr_add(fr_neg(a), fr_neg(b)) == fr_neg(fr_add(a, b)),
{
    lemma_fr_add_reduce(-(a as int), -(b as int));
    lemma_fr_neg_reduce(a as int + b as int);
}

/// An additive inverse is reduced.
pub proof fn lemma_fr_neg_bound(a: nat)
    ensures
        fr_neg(a) < fr_modulus(),
{
    lemma_fr_reduce_bound(-(a as int));
}

/// The additive inverse of an invertible number is invertible.
pub proof fn lemma_fr_neg_invertible(a: nat)
    requires
        fr_invertible(a),
    ensures
        fr_invertible(fr_neg(a)),
{
    let b = fr_inv(a);
    assert(fr_is_inverse(a, b));
    // (-a) (-b) = -(a (-b)) = -(-(a b)) = a b
    lemma_fr_mul_neg(a, fr_neg(b));
    lemma_fr_mul_neg_right(a, b);
    lemma_fr_reduce_small(1);
    lemma_fr_neg_bound(b);
    assert(fr_neg(fr_neg(1)) == 1);
    assert(fr_is_inverse(fr_neg(a), fr_neg(b)));
}

/// The inverse of an invertible number is invertible.
pub proof fn lemma_fr_inv_invertible(a: nat)
    requires
        fr_invertible(a),
    ensures
        fr_invertible(fr_inv(a)),
{
    let b = fr_inv(a);
    assert(fr_is_inverse(a, b));
    lemma_fr_reduce_bound(a as int);
    lemma_fr_mul_reduce(b as int, a as int);
    lemma_fr_mul_comm(a, b);
    assert(fr_is_inverse(b, fr_reduce(a as int)));
}

/// An invertible number times a number that is not zero is not zero.
pub proof fn lemma_fr_unit_times_nonzero(u: nat, d: nat)
    requires
        fr_invertible(u),
        0 < d < fr_modulus(),
    ensures
        fr_mul(u, d) != 0,
{
    if fr_mul(u, d) == 0 {
        lemma_fr_mul_cancel(d, u);
        lemma_fr_mul_comm(u, d);
        lemma_fr_mul_zero(fr_inv(u));
    }
}

/// `a` stands for the integer `ai`: both have the same residue.
pub open spec fn fr_stands_for(a: nat, ai: int) -> bool {
    fr_reduce(a as int) == fr_reduce(ai)
}

/// A sum stands for the sum of what its summands stand for.
pub proof fn lemma_fr_add_stands(a: nat, ai: int, b: nat, bi: int)
    requires
        fr_stands_for(a, ai),
        fr_stands_for(b, bi),
    ensures
        fr_add(a, b) == fr_reduce(ai + bi),
        fr_stands_for(fr_add(a, b), ai + bi),
{
    let m = fr_modulus() as int;
    lemma_add_mod_noop(a as int, b as int, m);
    lemma_add_mod_noop(ai, bi, m);
    lemma_mod_twice(ai + bi, m);
}

/// A difference stands for the difference of what its terms stand for.
pub proof fn lemma_fr_sub_stands(a: nat, ai: int, b: nat, bi: int)
    requires
        fr_stands_for(a, ai),
        fr_stands_for(b, bi),
    ensures
        fr_sub(a, b) == fr_reduce(ai - bi),
        fr_stands_for(fr_sub(a, b), ai - bi),
{
    let m = fr_modulus() as int;
    lemma_sub_mod_noop(a as int, b as int, m);
    lemma_sub_mod_noop(ai, bi, m);
    lemma_mod_twice(ai - bi, m);
}

/// A product stands for the product of what its factors stand for.
pub proof fn lemma_fr_mul_stands(a: nat, ai: int, b: nat, bi: int)
    requires
        fr_stands_for(a, ai),
        fr_stands_for(b, bi),
    ensures
        fr_mul(a, b) == fr_reduce(ai * bi),
        fr_stands_for(fr_mul(a, b), ai * bi),
{
    let m = fr_modulus() as int;
    lemma_mul_mod_noop_general(a as int, b as int, m);
    lemma_mul_mod_noop_general(ai, bi, m);
    lemma_mod_twice(ai * bi, m);
}

/// Numbers that give the same product with an invertible number are the
/// same.
pub proof fn lemma_fr_mul_cancel_both(a: nat, b: nat, d: nat)
    requires
        a < fr_modulus(),
        b < fr_modulus(),
        fr_invertible(d),
        fr_mul(a, d) == fr_mul(b, d),
    ensures
        a == b,
{
    lemma_fr_mul_cancel(a, d);
    lemma_fr_mul_cancel(b, d);
}

/// The bound on secrets, written out: a number of 250 bits is below the
/// order of the scalar field.
pub proof fn lemma_secret_bound()
    ensures
        secret_bound() == 0x400_0000_0000_0000_0000_0000_0000_0000_0000_0000_0000_0000_0000_0000_0000_0000nat,
        secret_bound() < fr_modulus(),
{
    lemma2_to64();
    lemma_pow2_adds(64, 64);
    lemma_pow2_adds(128, 64);
    lemma_pow2_adds(192, 58);
    assert(pow2(58) == 0x400_0000_0000_0000) by {
        lemma_pow2_adds(32, 26);
    }
    assert(pow2(128) == 0x1_0000_0000_0000_0000_0000_0000_0000_0000) by (nonlinear_arith)
        requires
            pow2(128) == pow2(64) * pow2(64),
            pow2(64) == 0x1_0000_0000_0000_0000,
    ;
    assert(pow2(192) == 0x1_0000_0000_0000_0000_0000_0000_0000_0000_0000_0000_0000_0000)
        by (nonlinear_arith)
        requires
            pow2(192) == pow2(128) * pow2(64),
            pow2(128) == 0x1_0000_0000_0000_0000_0000_0000_0000_0000,
            pow2(64) == 0x1_0000_0000_0000_0000,
    ;
    assert(pow2(250)
        == 0x400_0000_0000_0000_0000_0000_0000_0000_0000_0000_0000_0000_0000_0000_0000_0000nat)
        by (nonlinear_arith)
        requires
            pow2(250) == pow2(192) * pow2(58),
            pow2(192) == 0x1_0000_0000_0000_0000_0000_0000_0000_0000_0000_0000_0000_0000,
            pow2(58) == 0x400_0000_0000_0000,
    ;
}

} // verus!
