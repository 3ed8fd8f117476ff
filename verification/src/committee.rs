//! What a member of the committee does: make a key pair, and decrypt the share
//! that a ciphertext holds for it.

use crate::algebra::fr_inv;
use crate::curve::{g2_mul, G2Affine};
use crate::errors::PVSSError;
use crate::field::Fr;
use crate::structs::{PVSSCiphertext, PairingConfig};
use vstd::prelude::*;

verus! {

/// Fresh key pairs for `n` members: secret keys drawn uniformly from the
/// scalar field, and for each the public key `sk * h`.
pub fn gen_keys(pairing_config: &PairingConfig, n: usize) -> (r: (Vec<Fr>, Vec<G2Affine>))
    ensures
        r.0@.len() == n,
        r.1@.len() == n,
        forall|i: int| 0 <= i < n ==> (#[trigger] r.1@[i])@ == g2_mul(pairing_config.h@, r.0@[i]@),
{
    let mut sks: Vec<Fr> = Vec::new();
    let mut pks: Vec<G2Affine> = Vec::new();
    let mut i: usize = 0;
    while i < n
        invariant
            i <= n,
            sks@.len() == i,
            pks@.len() == i,
            forall|j: int| 0 <= j < i ==> (#[trigger] pks@[j])@ == g2_mul(pairing_config.h@, sks@[j]@),
        decreases n - i,
    {
        let sk = Fr::random();
        pks.push(pairing_config.h.mul(&sk));
        sks.push(sk);
        i = i + 1;
    }
    (sks, pks)
}

/// The share of member `i`, decrypted with the member's secret key: the
/// encrypted share times the inverse of the key. The key zero has no inverse
/// and is refused, as is an index for which the ciphertext holds no share.
/// That the share is the right one is for `verify_share` to tell.
pub fn decrypt_share(pvss_ciphertext: &PVSSCiphertext, sk: &Fr, i: usize) -> (r: Result<
    G2Affine,
    PVSSError,
>)
    ensures
        match r {
            Ok(share) => {
                &&& sk@ != 0
                &&& i < pvss_ciphertext.y_i@.len()
                &&& share@ == g2_mul(pvss_ciphertext.y_i@[i as int]@, fr_inv(sk@))
            },
            Err(PVSSError::InvalidSecretKeyError) => sk@ == 0,
            Err(PVSSError::InvalidParticipantId(k)) => {
                &&& sk@ != 0
                &&& k == i
                &&& i >= pvss_ciphertext.y_i@.len()
            },
            Err(_) => false,
        },
{
    let sk_inverse = match sk.inverse() {
        Some(inverse) => inverse,
        None => {
            return Err(PVSSError::InvalidSecretKeyError);
        },
    };
    if i >= pvss_ciphertext.y_i.len() {
        return Err(PVSSError::InvalidParticipantId(i));
    }
    Ok(pvss_ciphertext.y_i[i].mul(&sk_inverse))
}

} // verus!
