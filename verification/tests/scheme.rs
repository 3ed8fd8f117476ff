use ark_ec::msm::VariableBaseMSM;
use ark_ec::{AffineCurve, PairingEngine, ProjectiveCurve};
use ark_ff::{BigInteger256, One, PrimeField, UniformRand, Zero};
use cassiopeia::committee::{decrypt_share, gen_keys};
use cassiopeia::curve::{G1Affine, G2Affine};
use cassiopeia::dealer::{distribute_secret, distribute_secret_with_coefficients};
use cassiopeia::errors::PVSSError;
use cassiopeia::field::{Fq, Fq2, Fr};
use cassiopeia::public::{
    combine_shares, gen_all_lagrange_coefficients, gen_lagrange_coefficients, verify_ciphertext,
    verify_ciphertext_with_challenge, verify_share,
};
use cassiopeia::structs::{PVSSCiphertext, PVSSConfig, PVSSSecrets, PairingConfig};
use rand::seq::IteratorRandom;
use rand::thread_rng;

fn ark_fr(x: &Fr) -> ark_bn254::Fr {
    ark_bn254::Fr::from_repr(BigInteger256(x.to_limbs())).unwrap()
}

fn lib_fr(x: ark_bn254::Fr) -> Fr {
    Fr::from_limbs(x.into_repr().0).unwrap()
}

fn ark_fq(x: &Fq) -> ark_bn254::Fq {
    ark_bn254::Fq::from_repr(BigInteger256(x.to_limbs())).unwrap()
}

fn lib_fq(x: ark_bn254::Fq) -> Fq {
    Fq::from_limbs(x.into_repr().0).unwrap()
}

fn ark_g1(p: &G1Affine) -> ark_bn254::G1Affine {
    ark_bn254::G1Affine::new(ark_fq(&p.x), ark_fq(&p.y), p.infinity)
}

fn lib_g1(p: ark_bn254::G1Affine) -> G1Affine {
    G1Affine::new(lib_fq(p.x), lib_fq(p.y), p.infinity)
}

fn ark_g2(p: &G2Affine) -> ark_bn254::G2Affine {
    ark_bn254::G2Affine::new(
        ark_bn254::Fq2::new(ark_fq(&p.x.c0), ark_fq(&p.x.c1)),
        ark_bn254::Fq2::new(ark_fq(&p.y.c0), ark_fq(&p.y.c1)),
        p.infinity,
    )
}

fn lib_g2(p: ark_bn254::G2Affine) -> G2Affine {
    G2Affine::new(
        Fq2::new(lib_fq(p.x.c0), lib_fq(p.x.c1)),
        Fq2::new(lib_fq(p.y.c0), lib_fq(p.y.c1)),
        p.infinity,
    )
}

struct Dealt {
    config: PVSSConfig,
    sks: Vec<Fr>,
    ciphertext: PVSSCiphertext,
    secrets: PVSSSecrets,
}

fn deal(n: usize, t: usize) -> Dealt {
    let pairing_config = PairingConfig::new();
    let (sks, pks) = gen_keys(&pairing_config, n);
    let config = PVSSConfig::new(pairing_config, pks, t);
    let (ciphertext, secrets) = distribute_secret(&config).unwrap();
    Dealt { config, sks, ciphertext, secrets }
}

fn decrypt_all(dealt: &Dealt, indices: &[usize]) -> Vec<G2Affine> {
    indices
        .iter()
        .map(|i| {
            let share = decrypt_share(&dealt.ciphertext, &dealt.sks[*i], *i).unwrap();
            verify_share(&dealt.config, &dealt.ciphertext, share, *i).unwrap();
            share
        })
        .collect()
}

#[test]
fn share_secret() {
    let mut rng = thread_rng();
    let n: usize = 10;
    let t: usize = 5;
    let pairing_config = PairingConfig::new();
    let committee_sks = (1..=n).map(|_| lib_fr(ark_bn254::Fr::rand(&mut rng))).collect::<Vec<_>>();
    let committee_pks = committee_sks
        .iter()
        .map(|sk| lib_g2(ark_g2(&pairing_config.h).mul(ark_fr(sk).into_repr()).into_affine()))
        .collect::<Vec<_>>();
    let pvss_config = PVSSConfig::new(pairing_config, committee_pks, t);
    let (pvss_ciphertext, pvss_secrets) = distribute_secret(&pvss_config).unwrap();

    verify_ciphertext(&pvss_config, &pvss_ciphertext).unwrap();

    // Number of shares actually decrypted > t
    let k = 6;
    let indices_sample = (0..n).choose_multiple(&mut rng, k);
    let decrypted_shares = indices_sample
        .iter()
        .map(|i| {
            let share = decrypt_share(&pvss_ciphertext, &committee_sks[*i], *i).unwrap();
            let share2 = share.clone();
            verify_share(&pvss_config, &pvss_ciphertext, share2, *i).unwrap();
            share
        })
        .collect::<Vec<_>>();

    let decrypted_secret = combine_shares(&decrypted_shares, &indices_sample).unwrap();
    assert_eq!(decrypted_secret, pvss_secrets.h_f_0);

    // Number of shares actually decrypted = t
    let k = 5;
    let indices_sample = (0..n).choose_multiple(&mut rng, k);
    let decrypted_shares = indices_sample
        .iter()
        .map(|i| {
            let share = decrypt_share(&pvss_ciphertext, &committee_sks[*i], *i).unwrap();
            let share2 = share.clone();
            verify_share(&pvss_config, &pvss_ciphertext, share2, *i).unwrap();
            share
        })
        .collect::<Vec<_>>();

    let decrypted_secret = combine_shares(&decrypted_shares, &indices_sample).unwrap();
    assert_eq!(decrypted_secret, pvss_secrets.h_f_0);

    // Number of shares actually decrypted <= t
    let k = 4;
    let indices_sample = (0..n).choose_multiple(&mut rng, k);
    let decrypted_shares = indices_sample
        .iter()
        .map(|i| {
            let share = decrypt_share(&pvss_ciphertext, &committee_sks[*i], *i).unwrap();
            let share2 = share.clone();
            verify_share(&pvss_config, &pvss_ciphertext, share2, *i).unwrap();
            share
        })
        .collect::<Vec<_>>();

    let decrypted_secret = combine_shares(&decrypted_shares, &indices_sample).unwrap();
    assert_ne!(decrypted_secret, pvss_secrets.h_f_0);
}

#[test]
fn test_lagrange_coefficients() {
    let mut rng = thread_rng();
    let n = 7;
    let alpha = lib_fr(ark_bn254::Fr::rand(&mut rng));
    let x = (1..=n).map(|i| Fr::from_u64(i as u64)).collect::<Vec<_>>();
    assert_eq!(
        gen_lagrange_coefficients(x, alpha).unwrap(),
        gen_all_lagrange_coefficients(n, alpha).unwrap()
    );
}

#[test]
fn lagrange_coefficients_agree_for_every_committee_up_to_64() {
    let mut rng = thread_rng();
    for n in 1..=64usize {
        let alpha = lib_fr(ark_bn254::Fr::rand(&mut rng));
        let x = (1..=n).map(|i| Fr::from_u64(i as u64)).collect::<Vec<_>>();
        assert_eq!(
            gen_lagrange_coefficients(x, alpha).unwrap(),
            gen_all_lagrange_coefficients(n, alpha).unwrap()
        );
    }
}

#[test]
fn happy_path_with_six_of_ten() {
    let dealt = deal(10, 5);
    assert_eq!(verify_ciphertext(&dealt.config, &dealt.ciphertext), Ok(()));
    let indices = vec![0, 2, 4, 6, 8, 9];
    let shares = decrypt_all(&dealt, &indices);
    assert_eq!(combine_shares(&shares, &indices), Ok(dealt.secrets.h_f_0));
}

#[test]
fn any_six_shares_reconstruct() {
    let dealt = deal(10, 5);
    let mut rng = thread_rng();
    for _ in 0..4 {
        let indices = (0..10).choose_multiple(&mut rng, 6);
        let shares = decrypt_all(&dealt, &indices);
        assert_eq!(combine_shares(&shares, &indices), Ok(dealt.secrets.h_f_0));
    }
}

#[test]
fn all_shares_reconstruct() {
    let dealt = deal(10, 5);
    let indices: Vec<usize> = (0..10).collect();
    let shares = decrypt_all(&dealt, &indices);
    assert_eq!(combine_shares(&shares, &indices), Ok(dealt.secrets.h_f_0));
}

#[test]
fn four_shares_do_not_reconstruct() {
    let dealt = deal(10, 5);
    let mut rng = thread_rng();
    for _ in 0..4 {
        let indices = (0..10).choose_multiple(&mut rng, 4);
        let shares = decrypt_all(&dealt, &indices);
        assert_ne!(combine_shares(&shares, &indices), Ok(dealt.secrets.h_f_0));
    }
}

#[test]
fn as_many_shares_as_coefficients_reconstruct() {
    let dealt = deal(10, 5);
    let indices = vec![1, 3, 5, 7, 9];
    let shares = decrypt_all(&dealt, &indices);
    assert_eq!(combine_shares(&shares, &indices), Ok(dealt.secrets.h_f_0));
}

#[test]
fn smallest_committee() {
    let dealt = deal(2, 1);
    assert_eq!(verify_ciphertext(&dealt.config, &dealt.ciphertext), Ok(()));
    let indices = vec![1, 0];
    let shares = decrypt_all(&dealt, &indices);
    assert_eq!(combine_shares(&shares, &indices), Ok(dealt.secrets.h_f_0));
}

#[test]
fn tampered_share_is_refused() {
    let mut dealt = deal(10, 5);
    dealt.ciphertext.y_i[3] = dealt.config.pairing_config().h;
    assert_eq!(
        verify_ciphertext(&dealt.config, &dealt.ciphertext),
        Err(PVSSError::RatioIncorrect)
    );
}

#[test]
fn tampered_commitment_is_refused() {
    let mut dealt = deal(10, 5);
    let g = ark_g1(&dealt.config.pairing_config().g);
    dealt.ciphertext.f_i[0] = lib_g1(g.mul(ark_bn254::Fr::from(2u64).into_repr()).into_affine());
    match verify_ciphertext(&dealt.config, &dealt.ciphertext) {
        Err(PVSSError::EvaluationsCheckError(p)) => assert!(!p.infinity),
        other => panic!("{:?}", other),
    }
}

#[test]
fn tampered_evaluation_is_refused() {
    let mut dealt = deal(10, 5);
    dealt.ciphertext.a_i[7] = dealt.config.pairing_config().g;
    assert!(matches!(
        verify_ciphertext(&dealt.config, &dealt.ciphertext),
        Err(PVSSError::EvaluationsCheckError(_))
    ));
}

#[test]
fn evaluation_residue_is_what_the_sum_leaves() {
    let mut dealt = deal(4, 2);
    dealt.ciphertext.f_i[1] = dealt.config.pairing_config().g;
    let alpha = Fr::from_u64(77);
    let a = ark_fr(&alpha);
    let lagrange = gen_all_lagrange_coefficients(4, alpha).unwrap();
    let mut expected = ark_bn254::G1Projective::zero();
    for i in 0..4 {
        expected += ark_g1(&dealt.ciphertext.a_i[i]).mul(ark_fr(&lagrange[i]).into_repr());
    }
    expected += ark_g1(&dealt.ciphertext.f_i[0]).mul((-ark_bn254::Fr::one()).into_repr());
    expected += ark_g1(&dealt.ciphertext.f_i[1]).mul((-a).into_repr());
    assert_eq!(
        verify_ciphertext_with_challenge(&dealt.config, &dealt.ciphertext, &alpha),
        Err(PVSSError::EvaluationsCheckError(lib_g1(expected.into_affine())))
    );
}

#[test]
fn honest_ciphertext_passes_for_fixed_challenges() {
    let dealt = deal(6, 3);
    for alpha in [0u64, 7, 1000, u64::MAX] {
        assert_eq!(
            verify_ciphertext_with_challenge(&dealt.config, &dealt.ciphertext, &Fr::from_u64(alpha)),
            Ok(())
        );
    }
}

#[test]
fn challenge_at_a_node_fails_the_check() {
    let dealt = deal(6, 3);
    for alpha in 1..=6u64 {
        assert_eq!(
            verify_ciphertext_with_challenge(&dealt.config, &dealt.ciphertext, &Fr::from_u64(alpha)),
            Err(PVSSError::RatioIncorrect)
        );
    }
}

#[test]
fn ciphertext_of_the_wrong_shape_is_refused() {
    let dealt = deal(6, 3);
    let alpha = Fr::from_u64(9);

    let mut short = dealt.ciphertext.clone();
    short.a_i.pop();
    assert_eq!(
        verify_ciphertext_with_challenge(&dealt.config, &short, &alpha),
        Err(PVSSError::InvalidParticipantId(5))
    );

    let mut long = dealt.ciphertext.clone();
    long.y_i.push(dealt.config.pairing_config().h);
    assert_eq!(
        verify_ciphertext_with_challenge(&dealt.config, &long, &alpha),
        Err(PVSSError::InvalidParticipantId(6))
    );

    let mut extra = dealt.ciphertext.clone();
    extra.f_i.push(dealt.config.pairing_config().g);
    assert_eq!(
        verify_ciphertext_with_challenge(&dealt.config, &extra, &alpha),
        Err(PVSSError::InvalidParticipantId(3))
    );

    let empty = PVSSCiphertext { f_i: vec![], a_i: vec![], y_i: vec![] };
    assert_eq!(
        verify_ciphertext(&dealt.config, &empty),
        Err(PVSSError::InvalidParticipantId(0))
    );
}

#[test]
fn zero_secret_key_is_refused() {
    let dealt = deal(4, 2);
    assert_eq!(
        decrypt_share(&dealt.ciphertext, &Fr::zero(), 0),
        Err(PVSSError::InvalidSecretKeyError)
    );
    assert_eq!(
        decrypt_share(&dealt.ciphertext, &Fr::zero(), 99),
        Err(PVSSError::InvalidSecretKeyError)
    );
}

#[test]
fn share_index_out_of_range_is_refused() {
    let dealt = deal(4, 2);
    assert_eq!(
        decrypt_share(&dealt.ciphertext, &dealt.sks[0], 4),
        Err(PVSSError::InvalidParticipantId(4))
    );
    let share = decrypt_share(&dealt.ciphertext, &dealt.sks[0], 0).unwrap();
    assert_eq!(
        verify_share(&dealt.config, &dealt.ciphertext, share, 4),
        Err(PVSSError::InvalidParticipantId(4))
    );
}

#[test]
fn decrypted_share_is_the_share_over_the_key() {
    let dealt = deal(4, 2);
    let share = decrypt_share(&dealt.ciphertext, &dealt.sks[2], 2).unwrap();
    let inverse = ark_ff::Field::inverse(&ark_fr(&dealt.sks[2])).unwrap();
    let expected = ark_g2(&dealt.ciphertext.y_i[2]).mul(inverse.into_repr()).into_affine();
    assert_eq!(share, lib_g2(expected));
    assert_ne!(share, dealt.ciphertext.y_i[2]);
}

#[test]
fn wrong_share_is_refused() {
    let dealt = deal(4, 2);
    let share = decrypt_share(&dealt.ciphertext, &dealt.sks[1], 1).unwrap();
    assert_eq!(verify_share(&dealt.config, &dealt.ciphertext, share, 1), Ok(()));
    assert_eq!(
        verify_share(&dealt.config, &dealt.ciphertext, share, 2),
        Err(PVSSError::RatioIncorrect)
    );
    assert_eq!(
        verify_share(&dealt.config, &dealt.ciphertext, dealt.ciphertext.y_i[1], 1),
        Err(PVSSError::RatioIncorrect)
    );
}

#[test]
fn share_check_is_the_pairing_identity() {
    let dealt = deal(3, 1);
    let share = decrypt_share(&dealt.ciphertext, &dealt.sks[0], 0).unwrap();
    let g = ark_g1(&dealt.config.pairing_config().g);
    let h = ark_g2(&dealt.config.pairing_config().h);
    let left = ark_bn254::Bn254::pairing(g, ark_g2(&share));
    let right = ark_bn254::Bn254::pairing(ark_g1(&dealt.ciphertext.a_i[0]), h);
    assert_eq!(left, right);
}

#[test]
fn repeated_index_is_refused() {
    let dealt = deal(6, 3);
    let indices = vec![4, 1, 2, 1];
    let shares = indices
        .iter()
        .map(|i| decrypt_share(&dealt.ciphertext, &dealt.sks[*i], *i).unwrap())
        .collect::<Vec<_>>();
    assert_eq!(combine_shares(&shares, &indices), Err(PVSSError::InvalidParticipantId(1)));
}

#[test]
fn combined_shares_are_the_weighted_sum() {
    let dealt = deal(5, 2);
    let indices = vec![3, 0, 4];
    let shares = decrypt_all(&dealt, &indices);
    let x = indices.iter().map(|i| Fr::from_u64(*i as u64 + 1)).collect::<Vec<_>>();
    let weights = gen_lagrange_coefficients(x, Fr::zero()).unwrap();
    let bases = shares.iter().map(ark_g2).collect::<Vec<_>>();
    let scalars = weights.iter().map(|w| ark_fr(w).into_repr()).collect::<Vec<_>>();
    let expected = VariableBaseMSM::multi_scalar_mul(&bases, &scalars).into_affine();
    assert_eq!(combine_shares(&shares, &indices), Ok(lib_g2(expected)));
}

#[test]
fn nothing_combines_to_the_point_at_infinity() {
    let combined = combine_shares(&vec![], &vec![]).unwrap();
    assert!(combined.infinity);
}

#[test]
fn dealing_commits_to_the_polynomial() {
    let pairing_config = PairingConfig::new();
    let (_, pks) = gen_keys(&pairing_config, 3);
    let config = PVSSConfig::new(pairing_config, pks.clone(), 2);
    // f(x) = 5 + 3 x, so f(1) = 8, f(2) = 11, f(3) = 14.
    let coefficients = vec![Fr::from_u64(5), Fr::from_u64(3)];
    let (ciphertext, secrets) = distribute_secret_with_coefficients(&config, &coefficients);
    let g = ark_g1(&pairing_config.g);
    let h = ark_g2(&pairing_config.h);
    let times = |p: ark_bn254::G1Affine, s: u64| {
        lib_g1(p.mul(ark_bn254::Fr::from(s).into_repr()).into_affine())
    };
    assert_eq!(ciphertext.f_i, vec![times(g, 5), times(g, 3)]);
    assert_eq!(ciphertext.a_i, vec![times(g, 8), times(g, 11), times(g, 14)]);
    for (i, value) in [8u64, 11, 14].iter().enumerate() {
        let expected =
            ark_g2(&pks[i]).mul(ark_bn254::Fr::from(*value).into_repr()).into_affine();
        assert_eq!(ciphertext.y_i[i], lib_g2(expected));
    }
    assert_eq!(secrets.f_0, Fr::from_u64(5));
    assert_eq!(
        secrets.h_f_0,
        lib_g2(h.mul(ark_bn254::Fr::from(5u64).into_repr()).into_affine())
    );
    assert_eq!(
        verify_ciphertext_with_challenge(&config, &ciphertext, &Fr::from_u64(12345)),
        Ok(())
    );
}

#[test]
fn dealt_secret_has_at_most_250_bits() {
    for _ in 0..8 {
        let dealt = deal(3, 2);
        assert!(dealt.secrets.f_0.to_limbs()[3] < (1u64 << 58));
        assert_eq!(dealt.ciphertext.f_i.len(), 2);
        assert_eq!(dealt.ciphertext.a_i.len(), 3);
        assert_eq!(dealt.ciphertext.y_i.len(), 3);
        let g = ark_g1(&dealt.config.pairing_config().g);
        assert_eq!(
            dealt.ciphertext.f_i[0],
            lib_g1(g.mul(ark_fr(&dealt.secrets.f_0).into_repr()).into_affine())
        );
    }
}

#[test]
fn generated_keys_belong_together() {
    let pairing_config = PairingConfig::new();
    let (sks, pks) = gen_keys(&pairing_config, 5);
    assert_eq!(sks.len(), 5);
    assert_eq!(pks.len(), 5);
    let h = ark_g2(&pairing_config.h);
    for i in 0..5 {
        assert_eq!(pks[i], lib_g2(h.mul(ark_fr(&sks[i]).into_repr()).into_affine()));
    }
    assert_ne!(sks[0], sks[1]);
}

#[test]
fn generators_are_the_standard_ones() {
    let pairing_config = PairingConfig::new();
    assert_eq!(pairing_config.g, lib_g1(ark_bn254::G1Affine::prime_subgroup_generator()));
    assert_eq!(pairing_config.h, lib_g2(ark_bn254::G2Affine::prime_subgroup_generator()));
    assert_eq!(pairing_config.g.x, Fq::from_u64(1));
    assert_eq!(pairing_config.g.y, Fq::from_u64(2));
}

#[test]
fn committee_keeps_what_it_was_given() {
    let pairing_config = PairingConfig::new();
    let (_, pks) = gen_keys(&pairing_config, 4);
    let config = PVSSConfig::new(pairing_config, pks.clone(), 3);
    assert_eq!(config.t(), 3);
    assert_eq!(config.committee_pks(), &pks);
    assert_eq!(config.pairing_config(), &pairing_config);
}

#[test]
fn error_messages() {
    assert_eq!(PVSSError::RatioIncorrect.message(), "Ratio incorrect");
    assert_eq!(
        PVSSError::EvaluationsCheckError(PairingConfig::new().g).message(),
        "Evaluations are wrong"
    );
    assert_eq!(
        PVSSError::InvalidParticipantId(3).message(),
        "Could not generate evaluation domain"
    );
    assert_eq!(PVSSError::InvalidSecretKeyError.message(), "Invalid secret key error");
}

fn dealt_with(coefficients: &[u64], n: usize) -> (PVSSConfig, Vec<Fr>, PVSSCiphertext) {
    let pairing_config = PairingConfig::new();
    let (sks, pks) = gen_keys(&pairing_config, n);
    let config = PVSSConfig::new(pairing_config, pks, coefficients.len());
    let f = coefficients.iter().map(|c| Fr::from_u64(*c)).collect::<Vec<_>>();
    let (ciphertext, _) = distribute_secret_with_coefficients(&config, &f);
    (config, sks, ciphertext)
}

fn g_times(config: &PVSSConfig, s: ark_bn254::Fr) -> G1Affine {
    lib_g1(ark_g1(&config.pairing_config().g).mul(s.into_repr()).into_affine())
}

#[test]
fn changed_coefficient_leaves_the_difference() {
    // f(x) = 5 + 3 x + 7 x^2; the commitment to 5 is replaced by one to 2
    let (config, _, mut ciphertext) = dealt_with(&[5, 3, 7], 5);
    ciphertext.f_i[0] = g_times(&config, ark_bn254::Fr::from(2u64));
    for alpha in [0u64, 77, 1 << 50] {
        assert_eq!(
            verify_ciphertext_with_challenge(&config, &ciphertext, &Fr::from_u64(alpha)),
            Err(PVSSError::EvaluationsCheckError(g_times(&config, ark_bn254::Fr::from(3u64))))
        );
    }
    // the commitment to 7 is replaced by one to 10: -alpha^2 (10 - 7)
    let (config, _, mut ciphertext) = dealt_with(&[5, 3, 7], 5);
    ciphertext.f_i[2] = g_times(&config, ark_bn254::Fr::from(10u64));
    let expected = g_times(&config, -ark_bn254::Fr::from(3u64 * 77 * 77));
    assert_eq!(
        verify_ciphertext_with_challenge(&config, &ciphertext, &Fr::from_u64(77)),
        Err(PVSSError::EvaluationsCheckError(expected))
    );
}

#[test]
fn changed_evaluation_leaves_the_weighted_difference() {
    // f(3) = 5 + 9 + 63 = 77; the commitment for member 2 is replaced by one to 80
    let (config, _, mut ciphertext) = dealt_with(&[5, 3, 7], 5);
    ciphertext.a_i[2] = g_times(&config, ark_bn254::Fr::from(80u64));
    let alpha = Fr::from_u64(1234);
    let weight = gen_all_lagrange_coefficients(5, alpha).unwrap()[2];
    let expected = g_times(&config, ark_fr(&weight) * ark_bn254::Fr::from(3u64));
    assert_eq!(
        verify_ciphertext_with_challenge(&config, &ciphertext, &alpha),
        Err(PVSSError::EvaluationsCheckError(expected))
    );
}

#[test]
fn changed_share_fails_the_ratio() {
    let (config, sks, mut ciphertext) = dealt_with(&[5, 3, 7], 5);
    let honest = ciphertext.y_i[3];
    ciphertext.y_i[3] = config.pairing_config().h;
    for alpha in [0u64, 77, 1 << 50] {
        let expected = if alpha == 0 { Ok(()) } else { Err(PVSSError::RatioIncorrect) };
        assert_eq!(
            verify_ciphertext_with_challenge(&config, &ciphertext, &Fr::from_u64(alpha)),
            expected
        );
    }
    // what belongs there is the key times the value f(4) = 129, times h
    let h = ark_g2(&config.pairing_config().h);
    let scalar = ark_fr(&sks[3]) * ark_bn254::Fr::from(129u64);
    assert_eq!(honest, lib_g2(h.mul(scalar.into_repr()).into_affine()));
}
