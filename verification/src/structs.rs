//! The values that the scheme passes around: the generators, the committee,
//! the ciphertext and the dealer's secrets.

use crate::curve::{g1_points, g2_points, G1Affine, G1Point, G2Affine, G2Point};
use crate::field::{Fq2Value, Fr};
use vstd::prelude::*;

verus! {

/// The generators `g` of the first group and `h` of the second.
#[derive(Clone, Copy, Debug, PartialEq, Eq, Structural)]
pub struct PairingConfig {
    pub g: G1Affine,
    pub h: G2Affine,
}

/// The coordinates of the generator of the first group.
pub open spec fn g1_generator() -> G1Point {
    G1Point { x: 1, y: 2, infinity: false }
}

/// The coordinates of the generator of the second group.
pub open spec fn g2_generator() -> G2Point {
    G2Point {
        x: Fq2Value {
            c0: 10857046999023057135944570762232829481370756359578518086990519993285655852781nat,
            c1: 11559732032986387107991004021392285783925812861821192530917403151452391805634nat,
        },
        y: Fq2Value {
            c0: 8495653923123431417604973247489272438418190587263600148770280649306958101930nat,
            c1: 4082367875863433681332203403145435568316851327593401208105741076214120093531nat,
        },
        infinity: false,
    }
}

impl PairingConfig {
    /// The standard generators of the two BN254 groups.
    pub fn new() -> (r: PairingConfig)
        ensures
            r.g@ == g1_generator(),
            r.h@ == g2_generator(),
    {
        let g = G1Affine::from_reduced_limbs([[1, 0, 0, 0], [2, 0, 0, 0]], false);
        let h = G2Affine::from_reduced_limbs(
            [
                [0x46debd5cd992f6ed, 0x674322d4f75edadd, 0x426a00665e5c4479, 0x1800deef121f1e76],
                [0x97e485b7aef312c2, 0xf1aa493335a9e712, 0x7260bfb731fb5d25, 0x198e9393920d483a],
                [0x4ce6cc0166fa7daa, 0xe3d1e7690c43d37b, 0x4aab71808dcb408f, 0x12c85ea5db8c6deb],
                [0x55acdadcd122975b, 0xbc4b313370b38ef3, 0xec9e99ad690c3395, 0x090689d0585ff075],
            ],
            false,
        );
        PairingConfig { g, h }
    }
}

/// A committee: the generators, the members' public keys in the order of their
/// indices, and the threshold `t`. The dealer's polynomial has `t`
/// coefficients, and `0 < t < n` for a committee of `n` members.
#[derive(Debug)]
pub struct PVSSConfig {
    pairing_config: PairingConfig,
    committee_pks: Vec<G2Affine>,
    t: usize,
}

impl PVSSConfig {
    /// Holds of every committee: the threshold is positive and below the
    /// number of members.
    #[verifier::type_invariant]
    pub closed spec fn valid(self) -> bool {
        0 < self.t < self.committee_pks@.len()
    }

    /// The generators.
    pub closed spec fn pairing(self) -> PairingConfig {
        self.pairing_config
    }

    /// The members' public keys.
    pub closed spec fn pks(self) -> Seq<G2Affine> {
        self.committee_pks@
    }

    /// The threshold.
    pub closed spec fn threshold(self) -> nat {
        self.t as nat
    }

    /// What `valid` says, over the public names.
    pub proof fn lemma_valid(self)
        requires
            self.valid(),
        ensures
            0 < self.threshold() < self.pks().len(),
            self.pks().len() <= usize::MAX,
    {
        assert(self.committee_pks.len() == self.committee_pks@.len());
    }

    /// The committee with the given generators, public keys and threshold.
    /// The threshold is positive and below the number of keys.
    pub fn new(pairing_config: PairingConfig, committee_pks: Vec<G2Affine>, t: usize) -> (r:
        PVSSConfig)
        requires
            0 < t < committee_pks@.len(),
        ensures
            r.pairing() == pairing_config,
            r.pks() == committee_pks@,
            r.threshold() == t,
    {
        PVSSConfig { pairing_config, committee_pks, t }
    }

    /// The generators.
    pub fn pairing_config(&self) -> (r: &PairingConfig)
        ensures
            *r == self.pairing(),
    {
        &self.pairing_config
    }

    /// The members' public keys, in the order of their indices.
    pub fn committee_pks(&self) -> (r: &Vec<G2Affine>)
        ensures
            r@ == self.pks(),
            0 < self.threshold() < r@.len(),
    {
        proof {
            use_type_invariant(self);
        }
        &self.committee_pks
    }

    /// The threshold: the number of coefficients of the dealer's polynomial.
    pub fn t(&self) -> (r: usize)
        ensures
            r == self.threshold(),
            0 < r < self.pks().len(),
    {
        proof {
            use_type_invariant(self);
        }
        self.t
    }
}

/// What the dealer publishes: commitments `f_i` to the coefficients of the
/// polynomial, commitments `a_i` to its values at `1, .., n`, and those values
/// encrypted to the members as `y_i`.
#[derive(Clone, Debug)]
pub struct PVSSCiphertext {
    pub f_i: Vec<G1Affine>,
    pub a_i: Vec<G1Affine>,
    pub y_i: Vec<G2Affine>,
}

/// The three sequences of points of a ciphertext.
pub struct CiphertextView {
    pub f_i: Seq<G1Point>,
    pub a_i: Seq<G1Point>,
    pub y_i: Seq<G2Point>,
}

impl View for PVSSCiphertext {
    type V = CiphertextView;

    open spec fn view(&self) -> CiphertextView {
        CiphertextView {
            f_i: g1_points(self.f_i@),
            a_i: g1_points(self.a_i@),
            y_i: g2_points(self.y_i@),
        }
    }
}

/// What the dealer keeps: the secret `f_0`, which has at most 250 bits, and
/// `h_f_0 = f_0 * h`, which the committee can recover.
#[derive(Clone, Copy, Debug, PartialEq, Eq, Structural)]
pub struct PVSSSecrets {
    pub f_0: Fr,
    pub h_f_0: G2Affine,
}

/// The secret and its committed form.
pub struct SecretsView {
    pub f_0: nat,
    pub h_f_0: G2Point,
}

impl View for PVSSSecrets {
    type V = SecretsView;

    open spec fn view(&self) -> SecretsView {
        SecretsView { f_0: self.f_0@, h_f_0: self.h_f_0@ }
    }
}

} // verus!
