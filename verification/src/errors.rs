//! What the operations of the scheme report when they fail.

use crate::curve::G1Affine;
use vstd::prelude::*;
use vstd::string::StringExecFns;

verus! {

/// Why an operation of the scheme failed.
#[derive(Clone, Copy, Debug, PartialEq, Eq, Structural)]
pub enum PVSSError {
    /// A pairing identity does not hold.
    RatioIncorrect,
    /// The evaluations and the coefficient commitments of a ciphertext do not
    /// belong to one polynomial; the point is what the check left over.
    EvaluationsCheckError(G1Affine),
    /// A participant index has no counterpart where one is needed.
    InvalidParticipantId(usize),
    /// A secret key that has no inverse.
    InvalidSecretKeyError,
}

impl PVSSError {
    /// A short description of the failure.
    pub fn message(&self) -> (r: String)
        ensures
            r@ == match *self {
                PVSSError::RatioIncorrect => "Ratio incorrect"@,
                PVSSError::EvaluationsCheckError(_) => "Evaluations are wrong"@,
                PVSSError::InvalidParticipantId(_) => "Could not generate evaluation domain"@,
                PVSSError::InvalidSecretKeyError => "Invalid secret key error"@,
            },
    {
        match self {
            PVSSError::RatioIncorrect => String::from_str("Ratio incorrect"),
            PVSSError::EvaluationsCheckError(_) => String::from_str("Evaluations are wrong"),
            PVSSError::InvalidParticipantId(_) => String::from_str(
                "Could not generate evaluation domain",
            ),
            PVSSError::InvalidSecretKeyError => String::from_str("Invalid secret key error"),
        }
    }
}

} // verus!
