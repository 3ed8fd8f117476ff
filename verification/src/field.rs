//! Elements of the BN254 scalar and base fields, held as four 64-bit limbs of
//! their least non-negative residue, and the calls into `ark_ff` that compute
//! with them.

use ark_ff::PrimeField;
use crate::algebra::{
    fq_modulus, fr_add, fr_inv, fr_invertible, fr_is_inverse, fr_modulus, fr_mul, fr_neg, fr_sub,
    lemma_fr_inverse_unique, lemma_fr_reduce_small, lemma_fr_zero_not_invertible,
    lemma_limbs_value_injective, limbs_value, secret_bound,
};
use crate::hex::{be_bytes_value, hex_text};
use vstd::prelude::*;

verus! {

/// An element of the scalar field, always reduced.
#[derive(Clone, Copy, Debug, PartialEq, Eq, Hash, Structural)]
pub struct Fr {
    l0: u64,
    l1: u64,
    l2: u64,
    l3: u64,
}

impl View for Fr {
    type V = nat;

    closed spec fn view(&self) -> nat {
        limbs_value(self.l0, self.l1, self.l2, self.l3)
    }
}

impl Fr {
    /// Holds of every element: the limbs hold a number below the field order.
    #[verifier::type_invariant]
    pub closed spec fn reduced(self) -> bool {
        limbs_value(self.l0, self.l1, self.l2, self.l3) < fr_modulus()
    }

    /// Zero.
    pub fn zero() -> (r: Fr)
        ensures
            r@ == 0,
    {
        Fr { l0: 0, l1: 0, l2: 0, l3: 0 }
    }

    /// One.
    pub fn one() -> (r: Fr)
        ensures
            r@ == 1,
    {
        Fr { l0: 1, l1: 0, l2: 0, l3: 0 }
    }

    /// The element that a number of 64 bits is.
    pub fn from_u64(x: u64) -> (r: Fr)
        ensures
            r@ == x,
    {
        Fr { l0: x, l1: 0, l2: 0, l3: 0 }
    }

    /// The element whose least residue the limbs hold, least significant limb
    /// first; `None` when they hold a number that is not reduced.
    pub fn from_limbs(l: [u64; 4]) -> (r: Option<Fr>)
        ensures
            match r {
                Some(x) => x@ == limbs_value(l[0], l[1], l[2], l[3]),
                None => limbs_value(l[0], l[1], l[2], l[3]) >= fr_modulus(),
            },
    {
        let below = l[3] < 0x30644e72e131a029 || (l[3] == 0x30644e72e131a029 && (l[2]
            < 0xb85045b68181585d || (l[2] == 0xb85045b68181585d && (l[1] < 0x2833e84879b97091 || (
        l[1] == 0x2833e84879b97091 && l[0] < 0x43e1f593f0000001)))));
        if below {
            Some(Fr { l0: l[0], l1: l[1], l2: l[2], l3: l[3] })
        } else {
            None
        }
    }

    /// As `from_limbs`, for limbs that are known to be reduced.
    pub(crate) fn from_reduced_limbs(l: [u64; 4]) -> (r: Fr)
        requires
            limbs_value(l[0], l[1], l[2], l[3]) < fr_modulus(),
        ensures
            r@ == limbs_value(l[0], l[1], l[2], l[3]),
    {
        Fr { l0: l[0], l1: l[1], l2: l[2], l3: l[3] }
    }

    /// The limbs of the least residue, least significant first.
    pub fn to_limbs(&self) -> (l: [u64; 4])
        ensures
            limbs_value(l[0], l[1], l[2], l[3]) == self@,
            self@ < fr_modulus(),
    {
        proof {
            use_type_invariant(self);
        }
        [self.l0, self.l1, self.l2, self.l3]
    }

    /// Every element is reduced.
    pub proof fn lemma_reduced(self)
        requires
            self.reduced(),
        ensures
            self@ < fr_modulus(),
    {
    }

    /// Elements with the same value are the same element.
    pub proof fn lemma_view_injective(self, other: Fr)
        requires
            self@ == other@,
        ensures
            self == other,
    {
        lemma_limbs_value_injective(
            self.l0,
            self.l1,
            self.l2,
            self.l3,
            other.l0,
            other.l1,
            other.l2,
            other.l3,
        );
    }

    /// The sum of two elements, computed by `ark_ff`'s `Add` for
    /// `ark_bn254::Fr`: the sum of the residues, reduced.
    #[verifier::external_body]
    pub(crate) fn add(&self, rhs: &Fr) -> (r: Fr)
        ensures
            r@ == fr_add(self@, rhs@),
    {
        let a = ark_bn254::Fr::from_repr(ark_ff::BigInteger256(self.to_limbs())).unwrap();
        let b = ark_bn254::Fr::from_repr(ark_ff::BigInteger256(rhs.to_limbs())).unwrap();
        Fr::from_reduced_limbs((a + b).into_repr().0)
    }

    /// The difference of two elements, computed by `ark_ff`'s `Sub` for
    /// `ark_bn254::Fr`: the difference of the residues, reduced.
    #[verifier::external_body]
    pub(crate) fn sub(&self, rhs: &Fr) -> (r: Fr)
        ensures
            r@ == fr_sub(self@, rhs@),
    {
        let a = ark_bn254::Fr::from_repr(ark_ff::BigInteger256(self.to_limbs())).unwrap();
        let b = ark_bn254::Fr::from_repr(ark_ff::BigInteger256(rhs.to_limbs())).unwrap();
        Fr::from_reduced_limbs((a - b).into_repr().0)
    }

    /// The product of two elements, computed by `ark_ff`'s `Mul` for
    /// `ark_bn254::Fr`: the product of the residues, reduced.
    #[verifier::external_body]
    pub(crate) fn mul(&self, rhs: &Fr) -> (r: Fr)
        ensures
            r@ == fr_mul(self@, rhs@),
    {
        let a = ark_bn254::Fr::from_repr(ark_ff::BigInteger256(self.to_limbs())).unwrap();
        let b = ark_bn254::Fr::from_repr(ark_ff::BigInteger256(rhs.to_limbs())).unwrap();
        Fr::from_reduced_limbs((a * b).into_repr().0)
    }

    /// The additive inverse, computed by `ark_ff`'s `Neg` for `ark_bn254::Fr`:
    /// zero for zero, the field order less the residue otherwise.
    #[verifier::external_body]
    pub(crate) fn neg(&self) -> (r: Fr)
        ensures
            r@ == fr_neg(self@),
    {
        let a = ark_bn254::Fr::from_repr(ark_ff::BigInteger256(self.to_limbs())).unwrap();
        Fr::from_reduced_limbs((-a).into_repr().0)
    }

    /// `ark_ff`'s `Field::inverse` for `ark_bn254::Fr`: nothing for zero, and
    /// otherwise an element whose product with this one is one.
    #[verifier::external_body]
    fn ark_inverse(&self) -> (r: Option<Fr>)
        ensures
            match r {
                Some(y) => fr_mul(self@, y@) == 1,
                None => self@ == 0,
            },
    {
        let a = ark_bn254::Fr::from_repr(ark_ff::BigInteger256(self.to_limbs())).unwrap();
        ark_ff::Field::inverse(&a).map(|y| Fr::from_reduced_limbs(y.into_repr().0))
    }

    /// The multiplicative inverse, where there is one.
    pub fn inverse(&self) -> (r: Option<Fr>)
        ensures
            r is Some <==> fr_invertible(self@),
            r is Some <==> self@ != 0,
            r is Some ==> r->0@ == fr_inv(self@) && fr_is_inverse(self@, r->0@),
    {
        let r = self.ark_inverse();
        proof {
            match r {
                Some(y) => {
                    use_type_invariant(&y);
                    y.lemma_reduced();
                    lemma_fr_inverse_unique(self@, y@);
                    if self@ == 0 {
                        lemma_fr_reduce_small(0);
                        lemma_fr_zero_not_invertible(self@);
                    }
                },
                None => {
                    lemma_fr_reduce_small(0);
                    lemma_fr_zero_not_invertible(self@);
                },
            }
        }
        r
    }

    /// An element drawn uniformly at random by `ark_ff`'s `UniformRand::rand`
    /// from `rand`'s thread-local generator. Which element comes is open.
    #[verifier::external_body]
    pub(crate) fn random() -> (r: Fr) {
        let x: ark_bn254::Fr = ark_ff::UniformRand::rand(&mut rand::thread_rng());
        Fr::from_reduced_limbs(x.into_repr().0)
    }

    /// An element drawn uniformly at random from the numbers of at most 250
    /// bits: `num_bigint`'s `RandBigInt::gen_biguint(250)` on `rand`'s
    /// thread-local generator, taken into the field by `ark_ff`'s
    /// `From<BigUint>`. A number of 250 bits is below the field order, so the
    /// residue is that number.
    #[verifier::external_body]
    pub(crate) fn random_250_bits() -> (r: Fr)
        ensures
            r@ < secret_bound(),
    {
        let n = num_bigint::RandBigInt::gen_biguint(&mut rand::thread_rng(), 250);
        Fr::from_reduced_limbs(ark_bn254::Fr::from(n).into_repr().0)
    }

    /// `ark_ff`'s `PrimeField::from_be_bytes_mod_order` for `ark_bn254::Fr`:
    /// the bytes read as a big-endian number, reduced.
    #[verifier::external_body]
    pub(crate) fn from_be_bytes_mod_order(bytes: &Vec<u8>) -> (r: Fr)
        ensures
            r@ == be_bytes_value(bytes@) % fr_modulus(),
    {
        Fr::from_reduced_limbs(ark_bn254::Fr::from_be_bytes_mod_order(bytes).into_repr().0)
    }

    /// The text that `ark_ff` prints for the residue (`Display` of
    /// `BigInteger256`, through `to_string`): its 64 hexadecimal digits, most
    /// significant first, in upper case.
    #[verifier::external_body]
    pub(crate) fn repr_text(&self) -> (r: String)
        ensures
            r@ == hex_text(self@, 64, true),
    {
        ark_bn254::Fr::from_repr(ark_ff::BigInteger256(self.to_limbs())).unwrap().into_repr().to_string()
    }
}


/// An element of the base field, always reduced.
#[derive(Clone, Copy, Debug, PartialEq, Eq, Hash, Structural)]
pub struct Fq {
    l0: u64,
    l1: u64,
    l2: u64,
    l3: u64,
}

impl View for Fq {
    type V = nat;

    closed spec fn view(&self) -> nat {
        limbs_value(self.l0, self.l1, self.l2, self.l3)
    }
}

impl Fq {
    /// Holds of every element: the limbs hold a number below the field order.
    #[verifier::type_invariant]
    pub closed spec fn reduced(self) -> bool {
        limbs_value(self.l0, self.l1, self.l2, self.l3) < fq_modulus()
    }

    /// Zero.
    pub fn zero() -> (r: Fq)
        ensures
            r@ == 0,
    {
        Fq { l0: 0, l1: 0, l2: 0, l3: 0 }
    }

    /// The element that a number of 64 bits is.
    pub fn from_u64(x: u64) -> (r: Fq)
        ensures
            r@ == x,
    {
        Fq { l0: x, l1: 0, l2: 0, l3: 0 }
    }

    /// The element whose least residue the limbs hold, least significant limb
    /// first; `None` when they hold a number that is not reduced.
    pub fn from_limbs(l: [u64; 4]) -> (r: Option<Fq>)
        ensures
            match r {
                Some(x) => x@ == limbs_value(l[0], l[1], l[2], l[3]),
                None => limbs_value(l[0], l[1], l[2], l[3]) >= fq_modulus(),
            },
    {
        let below = l[3] < 0x30644e72e131a029 || (l[3] == 0x30644e72e131a029 && (l[2]
            < 0xb85045b68181585d || (l[2] == 0xb85045b68181585d && (l[1] < 0x97816a916871ca8d || (
        l[1] == 0x97816a916871ca8d && l[0] < 0x3c208c16d87cfd47)))));
        if below {
            Some(Fq { l0: l[0], l1: l[1], l2: l[2], l3: l[3] })
        } else {
            None
        }
    }

    /// As `from_limbs`, for limbs that are known to be reduced.
    pub(crate) fn from_reduced_limbs(l: [u64; 4]) -> (r: Fq)
        requires
            limbs_value(l[0], l[1], l[2], l[3]) < fq_modulus(),
        ensures
            r@ == limbs_value(l[0], l[1], l[2], l[3]),
    {
        Fq { l0: l[0], l1: l[1], l2: l[2], l3: l[3] }
    }

    /// The limbs of the least residue, least significant first.
    pub fn to_limbs(&self) -> (l: [u64; 4])
        ensures
            limbs_value(l[0], l[1], l[2], l[3]) == self@,
            self@ < fq_modulus(),
    {
        proof {
            use_type_invariant(self);
        }
        [self.l0, self.l1, self.l2, self.l3]
    }

    /// Every element is reduced.
    pub proof fn lemma_reduced(self)
        requires
            self.reduced(),
        ensures
            self@ < fq_modulus(),
    {
    }

    /// Elements with the same value are the same element.
    pub proof fn lemma_view_injective(self, other: Fq)
        requires
            self@ == other@,
        ensures
            self == other,
    {
        lemma_limbs_value_injective(
            self.l0,
            self.l1,
            self.l2,
            self.l3,
            other.l0,
            other.l1,
            other.l2,
            other.l3,
        );
    }

    /// `ark_ff`'s `PrimeField::from_be_bytes_mod_order` for `ark_bn254::Fq`:
    /// the bytes read as a big-endian number, reduced.
    #[verifier::external_body]
    pub(crate) fn from_be_bytes_mod_order(bytes: &Vec<u8>) -> (r: Fq)
        ensures
            r@ == be_bytes_value(bytes@) % fq_modulus(),
    {
        Fq::from_reduced_limbs(ark_bn254::Fq::from_be_bytes_mod_order(bytes).into_repr().0)
    }

    /// The text that `ark_ff` prints for the residue (`Display` of
    /// `BigInteger256`, through `to_string`): its 64 hexadecimal digits, most
    /// significant first, in upper case.
    #[verifier::external_body]
    pub(crate) fn repr_text(&self) -> (r: String)
        ensures
            r@ == hex_text(self@, 64, true),
    {
        ark_bn254::Fq::from_repr(ark_ff::BigInteger256(self.to_limbs())).unwrap().into_repr().to_string()
    }
}

/// The two coordinates of an element `c0 + c1 * u` of the quadratic extension
/// of the base field.
pub struct Fq2Value {
    pub c0: nat,
    pub c1: nat,
}

/// An element `c0 + c1 * u` of the quadratic extension of the base field.
#[derive(Clone, Copy, Debug, PartialEq, Eq, Hash, Structural)]
pub struct Fq2 {
    pub c0: Fq,
    pub c1: Fq,
}

impl View for Fq2 {
    type V = Fq2Value;

    open spec fn view(&self) -> Fq2Value {
        Fq2Value { c0: self.c0@, c1: self.c1@ }
    }
}

impl Fq2 {
    /// The element `c0 + c1 * u`.
    pub fn new(c0: Fq, c1: Fq) -> (r: Fq2)
        ensures
            r.c0 == c0,
            r.c1 == c1,
    {
        Fq2 { c0, c1 }
    }

    /// Elements with the same value are the same element.
    pub proof fn lemma_view_injective(self, other: Fq2)
        requires
            self@ == other@,
        ensures
            self == other,
    {
        self.c0.lemma_view_injective(other.c0);
        self.c1.lemma_view_injective(other.c1);
    }
}

} // verus!
