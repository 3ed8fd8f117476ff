use ark_ff::{BigInteger256, Field, PrimeField};
use cassiopeia::field::{Fq, Fr};
use cassiopeia::public::{gen_all_lagrange_coefficients, gen_lagrange_coefficients};

const R: [u64; 4] =
    [0x43e1f593f0000001, 0x2833e84879b97091, 0xb85045b68181585d, 0x30644e72e131a029];
const Q: [u64; 4] =
    [0x3c208c16d87cfd47, 0x97816a916871ca8d, 0xb85045b68181585d, 0x30644e72e131a029];

fn minus(x: u64) -> Fr {
    // r - x, for a small x that is not zero
    Fr::from_limbs([R[0] - x, R[1], R[2], R[3]]).unwrap()
}

fn half() -> Fr {
    // (r + 1) / 2
    let r = ark_bn254::Fr::from(2u64).inverse().unwrap();
    Fr::from_limbs(r.into_repr().0).unwrap()
}

#[test]
fn limbs_round_trip() {
    let l = [7, 8, 9, 10];
    assert_eq!(Fr::from_limbs(l).unwrap().to_limbs(), l);
    assert_eq!(Fq::from_limbs(l).unwrap().to_limbs(), l);
    assert_eq!(Fr::from_u64(5).to_limbs(), [5, 0, 0, 0]);
    assert_eq!(Fr::zero().to_limbs(), [0, 0, 0, 0]);
    assert_eq!(Fr::one().to_limbs(), [1, 0, 0, 0]);
    assert_eq!(Fq::zero().to_limbs(), [0, 0, 0, 0]);
}

#[test]
fn limbs_that_are_not_reduced_are_refused() {
    assert_eq!(Fr::from_limbs(R), None);
    assert_eq!(Fq::from_limbs(Q), None);
    assert_eq!(Fr::from_limbs([u64::MAX; 4]), None);
    assert_eq!(Fq::from_limbs([u64::MAX; 4]), None);
    assert!(Fr::from_limbs([R[0] - 1, R[1], R[2], R[3]]).is_some());
    assert!(Fq::from_limbs([Q[0] - 1, Q[1], Q[2], Q[3]]).is_some());
    // the base field is the larger one
    assert_eq!(Fr::from_limbs([Q[0] - 1, Q[1], Q[2], Q[3]]), None);
    assert!(Fq::from_limbs(R).is_some());
    assert_eq!(Fr::from_limbs([0, R[1] + 1, R[2], R[3]]), None);
    assert_eq!(Fr::from_limbs([0, 0, R[2] + 1, R[3]]), None);
    assert!(Fr::from_limbs([u64::MAX, u64::MAX, R[2] - 1, R[3]]).is_some());
}

#[test]
fn inverse_of_a_scalar() {
    assert_eq!(Fr::zero().inverse(), None);
    assert_eq!(Fr::one().inverse(), Some(Fr::one()));
    assert_eq!(Fr::from_u64(2).inverse(), Some(half()));
    assert_eq!(minus(1).inverse(), Some(minus(1)));
    let x = Fr::from_u64(123456789);
    let y = x.inverse().unwrap();
    let product = ark_bn254::Fr::from_repr(BigInteger256(x.to_limbs())).unwrap()
        * ark_bn254::Fr::from_repr(BigInteger256(y.to_limbs())).unwrap();
    assert_eq!(product, ark_bn254::Fr::from(1u64));
}

#[test]
fn coefficients_at_zero_for_two_nodes() {
    // nodes 1 and 2: (0 - 2) / (1 - 2) = 2 and (0 - 1) / (2 - 1) = -1
    let x = vec![Fr::from_u64(1), Fr::from_u64(2)];
    assert_eq!(gen_lagrange_coefficients(x, Fr::zero()), Ok(vec![Fr::from_u64(2), minus(1)]));
}

#[test]
fn coefficients_at_zero_for_three_nodes() {
    // nodes 1, 2, 4: 8/3, -2, 1/3
    let x = vec![Fr::from_u64(1), Fr::from_u64(2), Fr::from_u64(4)];
    let third = Fr::from_u64(3).inverse().unwrap();
    let eight_thirds = {
        let v = ark_bn254::Fr::from(8u64) / ark_bn254::Fr::from(3u64);
        Fr::from_limbs(v.into_repr().0).unwrap()
    };
    assert_eq!(gen_lagrange_coefficients(x, Fr::zero()), Ok(vec![eight_thirds, minus(2), third]));
}

#[test]
fn coefficients_at_a_node_are_zero_and_one() {
    let x = vec![Fr::from_u64(5), Fr::from_u64(9), Fr::from_u64(2)];
    assert_eq!(
        gen_lagrange_coefficients(x, Fr::from_u64(9)),
        Ok(vec![Fr::zero(), Fr::one(), Fr::zero()])
    );
}

#[test]
fn coefficients_of_one_node_and_of_none() {
    assert_eq!(gen_lagrange_coefficients(vec![Fr::from_u64(5)], Fr::from_u64(3)), Ok(vec![Fr::one()]));
    assert_eq!(gen_lagrange_coefficients(vec![], Fr::from_u64(3)), Ok(vec![]));
    assert_eq!(gen_all_lagrange_coefficients(1, Fr::from_u64(3)), Some(vec![Fr::one()]));
    assert_eq!(gen_all_lagrange_coefficients(0, Fr::from_u64(3)), Some(vec![]));
}

#[test]
fn coefficients_add_up_to_one() {
    let x = (0..9).map(|i| Fr::from_u64(3 * i + 1)).collect::<Vec<_>>();
    let coefficients = gen_lagrange_coefficients(x, Fr::from_u64(1000)).unwrap();
    let mut sum = ark_bn254::Fr::from(0u64);
    for c in coefficients.iter() {
        sum += ark_bn254::Fr::from_repr(BigInteger256(c.to_limbs())).unwrap();
    }
    assert_eq!(sum, ark_bn254::Fr::from(1u64));
}

#[test]
fn repeated_node_is_reported() {
    let x = vec![Fr::from_u64(1), Fr::from_u64(7), Fr::from_u64(3), Fr::from_u64(7)];
    assert_eq!(gen_lagrange_coefficients(x, Fr::zero()), Err(1));
    let x = vec![Fr::from_u64(4), Fr::from_u64(4)];
    assert_eq!(gen_lagrange_coefficients(x, Fr::from_u64(4)), Err(0));
}

#[test]
fn closed_formula_for_two_nodes() {
    // nodes 1 and 2 at 3: (3 - 2) / (1 - 2) = -1 and (3 - 1) / (2 - 1) = 2
    assert_eq!(
        gen_all_lagrange_coefficients(2, Fr::from_u64(3)),
        Some(vec![minus(1), Fr::from_u64(2)])
    );
}

#[test]
fn closed_formula_for_three_nodes() {
    // nodes 1, 2, 3 at 0: 3, -3, 1
    assert_eq!(
        gen_all_lagrange_coefficients(3, Fr::zero()),
        Some(vec![Fr::from_u64(3), minus(3), Fr::one()])
    );
    // at 5: (5-2)(5-3)/2 = 3, (5-1)(5-3)/(-1) = -8, (5-1)(5-2)/2 = 6
    assert_eq!(
        gen_all_lagrange_coefficients(3, Fr::from_u64(5)),
        Some(vec![Fr::from_u64(3), minus(8), Fr::from_u64(6)])
    );
}

#[test]
fn closed_formula_fails_at_a_node() {
    for alpha in 1..=4u64 {
        assert_eq!(gen_all_lagrange_coefficients(4, Fr::from_u64(alpha)), None);
    }
    assert!(gen_all_lagrange_coefficients(4, Fr::from_u64(5)).is_some());
    assert!(gen_all_lagrange_coefficients(4, Fr::zero()).is_some());
}

#[test]
fn both_ways_agree_at_small_points() {
    for n in 1..=12usize {
        for alpha in [0u64, 13, 14, 1u64 << 40] {
            let x = (1..=n).map(|i| Fr::from_u64(i as u64)).collect::<Vec<_>>();
            assert_eq!(
                gen_lagrange_coefficients(x, Fr::from_u64(alpha)).ok(),
                gen_all_lagrange_coefficients(n, Fr::from_u64(alpha))
            );
        }
    }
}

fn ark(x: &Fr) -> ark_bn254::Fr {
    ark_bn254::Fr::from_repr(BigInteger256(x.to_limbs())).unwrap()
}

fn value_at(coefficients: &[u64], x: u64) -> ark_bn254::Fr {
    let mut value = ark_bn254::Fr::from(0u64);
    let mut power = ark_bn254::Fr::from(1u64);
    for c in coefficients {
        value += ark_bn254::Fr::from(*c) * power;
        power *= ark_bn254::Fr::from(x);
    }
    value
}

#[test]
fn weighted_values_add_up_to_the_constant_term() {
    // f(x) = 5 + 3 x + 7 x^2, held by the members 4, 0, 2 and 9 at their nodes
    let f = [5u64, 3, 7];
    for members in [vec![4u64, 0, 2], vec![4, 0, 2, 9], vec![1, 2, 3, 4, 5]] {
        let x = members.iter().map(|i| Fr::from_u64(i + 1)).collect::<Vec<_>>();
        let weights = gen_lagrange_coefficients(x, Fr::zero()).unwrap();
        let mut sum = ark_bn254::Fr::from(0u64);
        for (w, i) in weights.iter().zip(members.iter()) {
            sum += ark(w) * value_at(&f, i + 1);
        }
        assert_eq!(sum, ark_bn254::Fr::from(5u64));
    }
}

#[test]
fn too_few_weighted_values_add_up_to_something_else() {
    let f = [5u64, 3, 7];
    let members = [4u64, 0];
    let x = members.iter().map(|i| Fr::from_u64(i + 1)).collect::<Vec<_>>();
    let weights = gen_lagrange_coefficients(x, Fr::zero()).unwrap();
    let mut sum = ark_bn254::Fr::from(0u64);
    for (w, i) in weights.iter().zip(members.iter()) {
        sum += ark(w) * value_at(&f, i + 1);
    }
    assert_ne!(sum, ark_bn254::Fr::from(5u64));
}

#[test]
fn weighted_values_and_negated_powers_add_up_to_zero() {
    // f(x) = 5 + 3 x + 7 x^2 among six members, checked at 77
    let f = [5u64, 3, 7];
    let alpha = 77u64;
    let weights = gen_all_lagrange_coefficients(6, Fr::from_u64(alpha)).unwrap();
    let mut sum = ark_bn254::Fr::from(0u64);
    for (i, w) in weights.iter().enumerate() {
        sum += ark(w) * value_at(&f, i as u64 + 1);
    }
    let mut power = -ark_bn254::Fr::from(1u64);
    for c in f {
        sum += power * ark_bn254::Fr::from(c);
        power *= ark_bn254::Fr::from(alpha);
    }
    assert_eq!(sum, ark_bn254::Fr::from(0u64));
}

#[test]
fn closed_formula_fails_at_the_nodes_only() {
    for n in [1usize, 2, 17, 64, 65] {
        for alpha in 0..=(n as u64 + 3) {
            let at_a_node = 1 <= alpha && alpha <= n as u64;
            let coefficients = gen_all_lagrange_coefficients(n, Fr::from_u64(alpha));
            assert_eq!(coefficients.is_none(), at_a_node);
        }
        assert!(gen_all_lagrange_coefficients(n, minus(1)).is_some());
    }
}
