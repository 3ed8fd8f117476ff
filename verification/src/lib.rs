//! Publicly verifiable secret sharing over the BN254 pairing groups.
//!
//! A dealer shares a secret scalar among a committee so that enough members
//! together can recover `secret * h`, and anybody can check the published
//! ciphertext against the committee's public keys.
//!
//! - `structs` and `errors` hold the values that the scheme passes around.
//! - `dealer`, `public` and `committee` hold its operations: sharing a secret,
//!   checking a ciphertext or a share and combining shares, and making keys
//!   and decrypting a share.
//! - `correctness` proves what the scheme promises from the laws of the
//!   groups and the pairing, which it states and does not prove.
//! - `lagrange` and `interpolation` state the mathematics of the Lagrange
//!   coefficients and prove what the operations rest on, over `algebra`, the
//!   arithmetic of the scalar ring, and `units`, which shows that the small
//!   numbers have inverses in it.
//! - `field` and `curve` hold field elements and points by their coordinates
//!   and make the calls into `ark_ff`, `ark_ec` and `ark_bn254` that compute
//!   with them.
//! - `serialize` writes the values as trees of strings, arrays and objects
//!   (`json`) and reads them back; `wire` states the format and proves that
//!   what is written is read back as it was, over `hex`.

pub mod algebra;
pub mod committee;
pub mod correctness;
pub mod curve;
pub mod dealer;
pub mod errors;
pub mod field;
pub mod hex;
pub mod interpolation;
pub mod json;
pub mod lagrange;
pub mod public;
pub mod serialize;
pub mod structs;
pub mod units;
pub mod wire;
