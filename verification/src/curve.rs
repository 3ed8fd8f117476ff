//! Points of the two BN254 source groups, held by their affine coordinates, and
//! the calls into `ark_ec` and `ark_bn254` that compute with them.
//!
//! What the group operations and the pairing return is not written out here:
//! each has a name, and the contracts of this library are stated over those
//! names.

use ark_bn254::{Bn254, Fq as ArkFq, Fq2 as ArkFq2, G1Affine as ArkG1, G2Affine as ArkG2};
use ark_ec::{AffineCurve, PairingEngine, ProjectiveCurve};
use ark_ec::msm::VariableBaseMSM;
use ark_ff::{BigInteger256, One, PrimeField};
use crate::algebra::{fq_modulus, limbs_value};
use crate::field::{Fq, Fq2, Fq2Value, Fr};
use vstd::prelude::*;

verus! {

/// The coordinates of a point of the first group.
pub struct G1Point {
    pub x: nat,
    pub y: nat,
    pub infinity: bool,
}

/// The coordinates of a point of the second group.
pub struct G2Point {
    pub x: Fq2Value,
    pub y: Fq2Value,
    pub infinity: bool,
}

/// A point of the first group in affine coordinates.
#[derive(Clone, Copy, Debug, PartialEq, Eq, Hash, Structural)]
pub struct G1Affine {
    pub x: Fq,
    pub y: Fq,
    pub infinity: bool,
}

/// A point of the second group in affine coordinates.
#[derive(Clone, Copy, Debug, PartialEq, Eq, Hash, Structural)]
pub struct G2Affine {
    pub x: Fq2,
    pub y: Fq2,
    pub infinity: bool,
}

impl View for G1Affine {
    type V = G1Point;

    open spec fn view(&self) -> G1Point {
        G1Point { x: self.x@, y: self.y@, infinity: self.infinity }
    }
}

impl View for G2Affine {
    type V = G2Point;

    open spec fn view(&self) -> G2Point {
        G2Point { x: self.x@, y: self.y@, infinity: self.infinity }
    }
}

/// The coordinates of each point of a sequence.
pub open spec fn g1_points(s: Seq<G1Affine>) -> Seq<G1Point> {
    s.map_values(|p: G1Affine| p@)
}

/// The coordinates of each point of a sequence.
pub open spec fn g2_points(s: Seq<G2Affine>) -> Seq<G2Point> {
    s.map_values(|p: G2Affine| p@)
}

/// The value of each scalar of a sequence.
pub open spec fn fr_values(s: Seq<Fr>) -> Seq<nat> {
    s.map_values(|x: Fr| x@)
}

/// The opposite of a point of the first group: the same `x`, and the additive
/// inverse of `y` in the base field. The point at infinity is its own
/// opposite.
pub open spec fn g1_neg(p: G1Point) -> G1Point {
    if p.infinity {
        p
    } else {
        G1Point { x: p.x, y: ((fq_modulus() - p.y) % (fq_modulus() as int)) as nat, infinity: false }
    }
}

/// The point `s * p` of the first group.
pub uninterp spec fn g1_mul(p: G1Point, s: nat) -> G1Point;

/// The point `s * p` of the second group.
pub uninterp spec fn g2_mul(p: G2Point, s: nat) -> G2Point;

/// The sum of `scalars[i] * bases[i]` in the first group, over the indices
/// that both sequences have.
pub uninterp spec fn g1_msm(bases: Seq<G1Point>, scalars: Seq<nat>) -> G1Point;

/// The sum of `scalars[i] * bases[i]` in the second group, over the indices
/// that both sequences have.
pub uninterp spec fn g2_msm(bases: Seq<G2Point>, scalars: Seq<nat>) -> G2Point;

/// Whether the product of the pairings `e(left[i], right[i])`, over the indices
/// that both sequences have, is the unit of the target group.
pub uninterp spec fn pairing_product_is_one(left: Seq<G1Point>, right: Seq<G2Point>) -> bool;

impl G1Affine {
    /// The point with the given coordinates. Nothing is asked of them: a point
    /// that is not on the curve can be held, and is what it is to every
    /// operation.
    pub fn new(x: Fq, y: Fq, infinity: bool) -> (r: G1Affine)
        ensures
            r.x == x,
            r.y == y,
            r.infinity == infinity,
    {
        G1Affine { x, y, infinity }
    }

    /// The limbs of the two coordinates, `x` first.
    pub fn to_limbs(&self) -> (l: [[u64; 4]; 2])
        ensures
            limbs_value(l[0][0], l[0][1], l[0][2], l[0][3]) == self.x@,
            limbs_value(l[1][0], l[1][1], l[1][2], l[1][3]) == self.y@,
    {
        [self.x.to_limbs(), self.y.to_limbs()]
    }

    /// The point with the coordinates that the limbs hold, `x` first.
    pub(crate) fn from_reduced_limbs(l: [[u64; 4]; 2], infinity: bool) -> (r: G1Affine)
        requires
            limbs_value(l[0][0], l[0][1], l[0][2], l[0][3]) < fq_modulus(),
            limbs_value(l[1][0], l[1][1], l[1][2], l[1][3]) < fq_modulus(),
        ensures
            r.x@ == limbs_value(l[0][0], l[0][1], l[0][2], l[0][3]),
            r.y@ == limbs_value(l[1][0], l[1][1], l[1][2], l[1][3]),
            r.infinity == infinity,
    {
        G1Affine { x: Fq::from_reduced_limbs(l[0]), y: Fq::from_reduced_limbs(l[1]), infinity }
    }

    /// Points with the same coordinates are the same point.
    pub proof fn lemma_view_injective(self, other: G1Affine)
        requires
            self@ == other@,
        ensures
            self == other,
    {
        self.x.lemma_view_injective(other.x);
        self.y.lemma_view_injective(other.y);
    }

    /// Scalar multiplication: `ark_ec`'s `AffineCurve::mul` on
    /// `ark_bn254::G1Affine`, brought back to affine coordinates.
    #[verifier::external_body]
    pub(crate) fn mul(&self, s: &Fr) -> (r: G1Affine)
        ensures
            r@ == g1_mul(self@, s@),
    {
        let [x, y] = self.to_limbs().map(|l| ArkFq::from_repr(BigInteger256(l)).unwrap());
        let r = ArkG1::new(x, y, self.infinity).mul(BigInteger256(s.to_limbs())).into_affine();
        G1Affine::from_reduced_limbs([r.x, r.y].map(|c| c.into_repr().0), r.infinity)
    }

    /// The opposite point: `Neg` of `ark_bn254::G1Affine`, which hands the
    /// point at infinity back as it is, and of any other point keeps `x` and
    /// takes the additive inverse of `y` in the base field.
    #[verifier::external_body]
    pub(crate) fn neg(&self) -> (r: G1Affine)
        ensures
            r@ == g1_neg(self@),
    {
        let [x, y] = self.to_limbs().map(|l| ArkFq::from_repr(BigInteger256(l)).unwrap());
        let r = -ArkG1::new(x, y, self.infinity);
        G1Affine::from_reduced_limbs([r.x, r.y].map(|c| c.into_repr().0), r.infinity)
    }
}

impl G2Affine {
    /// The point with the given coordinates. Nothing is asked of them: a point
    /// that is not on the curve can be held, and is what it is to every
    /// operation.
    pub fn new(x: Fq2, y: Fq2, infinity: bool) -> (r: G2Affine)
        ensures
            r.x == x,
            r.y == y,
            r.infinity == infinity,
    {
        G2Affine { x, y, infinity }
    }

    /// The limbs of the four coordinates: `x.c0`, `x.c1`, `y.c0`, `y.c1`.
    pub fn to_limbs(&self) -> (l: [[u64; 4]; 4])
        ensures
            limbs_value(l[0][0], l[0][1], l[0][2], l[0][3]) == self.x.c0@,
            limbs_value(l[1][0], l[1][1], l[1][2], l[1][3]) == self.x.c1@,
            limbs_value(l[2][0], l[2][1], l[2][2], l[2][3]) == self.y.c0@,
            limbs_value(l[3][0], l[3][1], l[3][2], l[3][3]) == self.y.c1@,
    {
        [self.x.c0.to_limbs(), self.x.c1.to_limbs(), self.y.c0.to_limbs(), self.y.c1.to_limbs()]
    }

    /// The point with the coordinates that the limbs hold: `x.c0`, `x.c1`,
    /// `y.c0`, `y.c1`.
    pub(crate) fn from_reduced_limbs(l: [[u64; 4]; 4], infinity: bool) -> (r: G2Affine)
        requires
            limbs_value(l[0][0], l[0][1], l[0][2], l[0][3]) < fq_modulus(),
            limbs_value(l[1][0], l[1][1], l[1][2], l[1][3]) < fq_modulus(),
            limbs_value(l[2][0], l[2][1], l[2][2], l[2][3]) < fq_modulus(),
            limbs_value(l[3][0], l[3][1], l[3][2], l[3][3]) < fq_modulus(),
        ensures
            r.x.c0@ == limbs_value(l[0][0], l[0][1], l[0][2], l[0][3]),
            r.x.c1@ == limbs_value(l[1][0], l[1][1], l[1][2], l[1][3]),
            r.y.c0@ == limbs_value(l[2][0], l[2][1], l[2][2], l[2][3]),
            r.y.c1@ == limbs_value(l[3][0], l[3][1], l[3][2], l[3][3]),
            r.infinity == infinity,
    {
        G2Affine {
            x: Fq2 { c0: Fq::from_reduced_limbs(l[0]), c1: Fq::from_reduced_limbs(l[1]) },
            y: Fq2 { c0: Fq::from_reduced_limbs(l[2]), c1: Fq::from_reduced_limbs(l[3]) },
            infinity,
        }
    }

    /// Points with the same coordinates are the same point.
    pub proof fn lemma_view_injective(self, other: G2Affine)
        requires
            self@ == other@,
        ensures
            self == other,
    {
        self.x.lemma_view_injective(other.x);
        self.y.lemma_view_injective(other.y);
    }

    /// Scalar multiplication: `ark_ec`'s `AffineCurve::mul` on
    /// `ark_bn254::G2Affine`, brought back to affine coordinates.
    #[verifier::external_body]
    pub(crate) fn mul(&self, s: &Fr) -> (r: G2Affine)
        ensures
            r@ == g2_mul(self@, s@),
    {
        let [a, b, c, d] = self.to_limbs().map(|l| ArkFq::from_repr(BigInteger256(l)).unwrap());
        let p = ArkG2::new(ArkFq2::new(a, b), ArkFq2::new(c, d), self.infinity);
        let r = p.mul(BigInteger256(s.to_limbs())).into_affine();
        G2Affine::from_reduced_limbs([r.x.c0, r.x.c1, r.y.c0, r.y.c1].map(|c| c.into_repr().0), r.infinity)
    }
}

/// Multi-scalar multiplication in the first group: `ark_ec`'s
/// `VariableBaseMSM::multi_scalar_mul` on `ark_bn254::G1Affine`, brought back
/// to affine coordinates. The point at infinity comes back with its flag set.
#[verifier::external_body]
pub(crate) fn g1_multi_scalar_mul(bases: &Vec<G1Affine>, scalars: &Vec<Fr>) -> (r: G1Affine)
    ensures
        r@ == g1_msm(g1_points(bases@), fr_values(scalars@)),
{
    let q = |l| ArkFq::from_repr(BigInteger256(l)).unwrap();
    let b: Vec<_> = bases.iter().map(|x| {
        let [c, d] = x.to_limbs().map(q);
        ArkG1::new(c, d, x.infinity)
    }).collect();
    let s: Vec<_> = scalars.iter().map(|x| BigInteger256(x.to_limbs())).collect();
    let r = VariableBaseMSM::multi_scalar_mul(&b, &s).into_affine();
    G1Affine::from_reduced_limbs([r.x, r.y].map(|c| c.into_repr().0), r.infinity)
}

/// Multi-scalar multiplication in the second group: `ark_ec`'s
/// `VariableBaseMSM::multi_scalar_mul` on `ark_bn254::G2Affine`, brought back
/// to affine coordinates.
#[verifier::external_body]
pub(crate) fn g2_multi_scalar_mul(bases: &Vec<G2Affine>, scalars: &Vec<Fr>) -> (r: G2Affine)
    ensures
        r@ == g2_msm(g2_points(bases@), fr_values(scalars@)),
{
    let q = |l| ArkFq::from_repr(BigInteger256(l)).unwrap();
    let b: Vec<_> = bases.iter().map(|x| {
        let [c, d, e, f] = x.to_limbs().map(q);
        ArkG2::new(ArkFq2::new(c, d), ArkFq2::new(e, f), x.infinity)
    }).collect();
    let s: Vec<_> = scalars.iter().map(|x| BigInteger256(x.to_limbs())).collect();
    let r = VariableBaseMSM::multi_scalar_mul(&b, &s).into_affine();
    G2Affine::from_reduced_limbs([r.x.c0, r.x.c1, r.y.c0, r.y.c1].map(|c| c.into_repr().0), r.infinity)
}

/// The pairing check: `ark_ec`'s `PairingEngine::miller_loop` and
/// `final_exponentiation` for `ark_bn254::Bn254` on the pairs
/// `(left[i], right[i])`, and whether what comes out is one. Where the final
/// exponentiation has no result, the answer is `false`.
#[verifier::external_body]
pub(crate) fn pairing_check(left: &Vec<G1Affine>, right: &Vec<G2Affine>) -> (r: bool)
    ensures
        r == pairing_product_is_one(g1_points(left@), g2_points(right@)),
{
    let q = |l| ArkFq::from_repr(BigInteger256(l)).unwrap();
    let pairs: Vec<_> = left.iter().zip(right).map(|(a, b)| {
        let ([x, y], [c, d, e, f]) = (a.to_limbs().map(q), b.to_limbs().map(q));
        let h = ArkG2::new(ArkFq2::new(c, d), ArkFq2::new(e, f), b.infinity);
        (ArkG1::new(x, y, a.infinity).into(), h.into())
    }).collect();
    Bn254::final_exponentiation(&Bn254::miller_loop(&pairs)).map_or(false, |v| v.is_one())
}

} // verus!
