//! The numbers up to 64 have inverses in the scalar ring.
//!
//! That the order `r` of the ring is prime is not proved here. What a
//! committee of up to 65 members needs is less: the closed formula for its
//! Lagrange coefficients divides by products of the numbers up to 64 and of
//! their additive inverses. The factorial of 64 is invertible, as one
//! multiplication shows, and so is each number that divides it.

use crate::algebra::{
    fr_invertible, fr_is_inverse, fr_modulus, fr_neg, fr_reduce, fr_sub, lemma_fr_inv_one,
    lemma_fr_invertible_mul, lemma_fr_mul_neg, lemma_fr_mul_neg_right, lemma_fr_mul_reduce,
    lemma_fr_reduce_bound, lemma_fr_reduce_small,
};
use crate::lagrange::{
    basis_at, basis_denominator, lagrange_coeff, lagrange_defined_at, lemma_lagrange_equivalence,
    neg_factorial, node, nodes, nodes_of, occurs_twice, pos_factorial,
};
use vstd::arithmetic::div_mod::{
    lemma_fundamental_div_mod, lemma_mod_multiples_basic, lemma_mod_multiples_vanish,
    lemma_small_mod,
};
use vstd::prelude::*;

verus! {

/// The product of the numbers `1, .., n`, as a number.
pub open spec fn factorial(n: nat) -> nat
    decreases n,
{
    if n == 0 {
        1
    } else {
        n * factorial((n - 1) as nat)
    }
}

/// The factorial of 64.
pub open spec fn factorial_64() -> nat {
    126886932185884164103433389335161480802865516174545192198801894375214704230400000000000000nat
}

/// The inverse of the factorial of 64 in the scalar ring.
pub open spec fn factorial_64_inverse() -> nat {
    15865946599017955626384648717203689164326413708592486192232580915891532054163nat
}

proof fn lemma_factorial_64()
    ensures
        factorial(64) == factorial_64(),
{
    assert(factorial(0) == 1);
    assert(factorial(1) == 1);
    assert(factorial(2) == 2);
    assert(factorial(3) == 6);
    assert(factorial(4) == 24);
    assert(factorial(5) == 120);
    assert(factorial(6) == 720);
    assert(factorial(7) == 5040);
    assert(factorial(8) == 40320);
    assert(factorial(9) == 362880);
    assert(factorial(10) == 3628800);
    assert(factorial(11) == 39916800);
    assert(factorial(12) == 479001600);
    assert(factorial(13) == 6227020800);
    assert(factorial(14) == 87178291200);
    assert(factorial(15) == 1307674368000);
    assert(factorial(16) == 20922789888000);
    assert(factorial(17) == 355687428096000);
    assert(factorial(18) == 6402373705728000);
    assert(factorial(19) == 121645100408832000);
    assert(factorial(20) == 2432902008176640000);
    assert(factorial(21) == 51090942171709440000nat);
    assert(factorial(22) == 1124000727777607680000nat);
    assert(factorial(23) == 25852016738884976640000nat);
    assert(factorial(24) == 620448401733239439360000nat);
    assert(factorial(25) == 15511210043330985984000000nat);
    assert(factorial(26) == 403291461126605635584000000nat);
    assert(factorial(27) == 10888869450418352160768000000nat);
    assert(factorial(28) == 304888344611713860501504000000nat);
    assert(factorial(29) == 8841761993739701954543616000000nat);
    assert(factorial(30) == 265252859812191058636308480000000nat);
    assert(factorial(31) == 8222838654177922817725562880000000nat);
    assert(factorial(32) == 263130836933693530167218012160000000nat);
    assert(factorial(33) == 8683317618811886495518194401280000000nat);
    assert(factorial(34) == 295232799039604140847618609643520000000nat);
    assert(factorial(35) == 10333147966386144929666651337523200000000nat);
    assert(factorial(36) == 371993326789901217467999448150835200000000nat);
    assert(factorial(37) == 13763753091226345046315979581580902400000000nat);
    assert(factorial(38) == 523022617466601111760007224100074291200000000nat);
    assert(factorial(39) == 20397882081197443358640281739902897356800000000nat);
    assert(factorial(40) == 815915283247897734345611269596115894272000000000nat);
    assert(factorial(41) == 33452526613163807108170062053440751665152000000000nat);
    assert(factorial(42) == 1405006117752879898543142606244511569936384000000000nat);
    assert(factorial(43) == 60415263063373835637355132068513997507264512000000000nat);
    assert(factorial(44) == 2658271574788448768043625811014615890319638528000000000nat);
    assert(factorial(45) == 119622220865480194561963161495657715064383733760000000000nat);
    assert(factorial(46) == 5502622159812088949850305428800254892961651752960000000000nat);
    assert(factorial(47) == 258623241511168180642964355153611979969197632389120000000000nat);
    assert(factorial(48) == 12413915592536072670862289047373375038521486354677760000000000nat);
    assert(factorial(49) == 608281864034267560872252163321295376887552831379210240000000000nat);
    assert(factorial(50) == 30414093201713378043612608166064768844377641568960512000000000000nat);
    assert(factorial(51) == 1551118753287382280224243016469303211063259720016986112000000000000nat);
    assert(factorial(52)
        == 80658175170943878571660636856403766975289505440883277824000000000000nat);
    assert(factorial(53)
        == 4274883284060025564298013753389399649690343788366813724672000000000000nat);
    assert(factorial(54)
        == 230843697339241380472092742683027581083278564571807941132288000000000000nat);
    assert(factorial(55)
        == 12696403353658275925965100847566516959580321051449436762275840000000000000nat);
    assert(factorial(56)
        == 710998587804863451854045647463724949736497978881168458687447040000000000000nat);
    assert(factorial(57)
        == 40526919504877216755680601905432322134980384796226602145184481280000000000000nat);
    assert(factorial(58)
        == 2350561331282878571829474910515074683828862318181142924420699914240000000000000nat);
    assert(factorial(59)
        == 138683118545689835737939019720389406345902876772687432540821294940160000000000000nat);
    assert(factorial(60)
        == 8320987112741390144276341183223364380754172606361245952449277696409600000000000000nat);
    assert(factorial(61)
        == 507580213877224798800856812176625227226004528988036003099405939480985600000000000000nat);
    assert(factorial(62)
        == 31469973260387937525653122354950764088012280797258232192163168247821107200000000000000nat);
    assert(factorial(63)
        == 1982608315404440064116146708361898137544773690227268628106279599612729753600000000000000nat);
    assert(factorial(64)
        == 126886932185884164103433389335161480802865516174545192198801894375214704230400000000000000nat);
}

/// A factorial is a multiple of each number up to its own.
proof fn lemma_divides_factorial(k: nat, n: nat)
    requires
        1 <= k <= n,
    ensures
        factorial(n) % k == 0,
    decreases n,
{
    let rest = factorial((n - 1) as nat);
    if k == n {
        lemma_mod_multiples_basic(rest as int, k as int);
        assert(rest * k == k * rest) by (nonlinear_arith);
    } else {
        lemma_divides_factorial(k, (n - 1) as nat);
        lemma_fundamental_div_mod(rest as int, k as int);
        let q = rest / k;
        assert(n * rest == (n * q) * k) by (nonlinear_arith)
            requires
                rest == k * q,
        ;
        lemma_mod_multiples_basic((n * q) as int, k as int);
    }
}

/// The numbers up to 64, and their additive inverses, are invertible.
pub proof fn lemma_small_invertible(k: nat)
    requires
        1 <= k <= 64,
    ensures
        fr_invertible(k),
        fr_invertible(fr_neg(k)),
{
    let r = fr_modulus() as int;
    let f = factorial_64() as int;
    let v = factorial_64_inverse() as int;
    lemma_factorial_64();
    lemma_divides_factorial(k, 64);
    lemma_fundamental_div_mod(f, k as int);
    let c = f / (k as int);
    assert(f == k * c);
    assert(0 <= c) by (nonlinear_arith)
        requires
            f == k * c,
            f > 0,
            k >= 1,
    ;
    // the inverse of the factorial, at work
    assert(v * f == 1 + r
        * 91975463812334910918667192203267074847380463241529399938143219403887288000246035458818047int);
    lemma_mod_multiples_vanish(
        91975463812334910918667192203267074847380463241529399938143219403887288000246035458818047int,
        1,
        r,
    );
    lemma_small_mod(1, r as nat);
    assert(fr_reduce(v * f) == 1);
    // k (c v) = f v
    let b = fr_reduce(c * v);
    lemma_fr_reduce_bound(c * v);
    lemma_fr_mul_reduce(k as int, c * v);
    assert(k * (c * v) == v * f) by (nonlinear_arith)
        requires
            f == k * c,
    ;
    assert(fr_is_inverse(k, b));
    // (-k) (-b) = k b
    lemma_fr_mul_neg(k, fr_neg(b));
    lemma_fr_mul_neg_right(k, b);
    lemma_fr_reduce_small(1);
    lemma_fr_reduce_bound(-(b as int));
    assert(fr_neg(fr_neg(1)) == 1);
    assert(fr_is_inverse(fr_neg(k), fr_neg(b)));
}

/// The factorials up to that of 64, and their counterparts over the negated
/// numbers, are invertible.
pub proof fn lemma_small_factorials_invertible(k: nat)
    requires
        k <= 64,
    ensures
        fr_invertible(pos_factorial(k)),
        fr_invertible(neg_factorial(k)),
    decreases k,
{
    if k == 0 {
        lemma_fr_inv_one();
    } else {
        lemma_small_factorials_invertible((k - 1) as nat);
        lemma_small_invertible(k);
        lemma_fr_invertible_mul(pos_factorial((k - 1) as nat), k);
        lemma_fr_invertible_mul(neg_factorial((k - 1) as nat), fr_neg(k));
    }
}

/// In a committee of up to 65 members, what the closed formula for a
/// Lagrange coefficient divides by besides `alpha - node(i)` is invertible.
pub proof fn lemma_small_denominators_invertible(n: nat, i: int)
    requires
        0 <= i < n <= 65,
    ensures
        fr_invertible(basis_denominator(n, i)),
{
    lemma_small_factorials_invertible(i as nat);
    lemma_small_factorials_invertible((n - 1 - i) as nat);
    lemma_fr_invertible_mul(pos_factorial(i as nat), neg_factorial((n - 1 - i) as nat));
}

/// For a committee of up to 65 members, the product that defines the
/// Lagrange coefficient of a member and the closed formula give the same
/// number wherever `alpha - node(i)` is invertible: the one division that can
/// fail is the one by `alpha - node(i)`.
pub proof fn lemma_lagrange_equivalence_small(n: nat, i: int, alpha: nat)
    requires
        0 <= i < n <= 65,
        fr_invertible(fr_sub(alpha, node(i))),
    ensures
        lagrange_defined_at(nodes(n), i),
        lagrange_coeff(nodes(n), i, alpha) == basis_at(n, i, alpha),
{
    lemma_small_denominators_invertible(n, i);
    lemma_lagrange_equivalence(n, i, alpha);
}

/// Among members of a committee of up to 65, the weight of a member for
/// combining shares can be computed as long as the member is named once.
pub proof fn lemma_small_members_apart(indices: Seq<usize>, j: int)
    requires
        0 <= j < indices.len(),
        forall|l: int| 0 <= l < indices.len() ==> #[trigger] indices[l] < 65,
        !occurs_twice(indices, j),
    ensures
        lagrange_defined_at(nodes_of(indices), j),
{
    let x = nodes_of(indices);
    assert forall|l: int| 0 <= l < x.len() && l != j implies fr_invertible(
        #[trigger] fr_sub(x[j], x[l]),
    ) by {
        let a = indices[j] as int;
        let b = indices[l] as int;
        assert(indices[l] < 65 && indices[j] < 65);
        assert(a != b);
        if a > b {
            lemma_small_invertible((a - b) as nat);
            lemma_fr_reduce_small((a - b) as nat);
        } else {
            lemma_small_invertible((b - a) as nat);
        }
    }
}

} // verus!
