//! The values that pass between the encrypting and the decrypting side.

use crate::point::GE;
use crate::scalar::FE;
use vstd::prelude::*;

verus! {

/// The ElGamal ciphertext of one segment: `E = r * G` and
/// `D = r * Y + x * G` for the segment `x`, the randomizer `r` and the
/// recipient's key `Y`.
#[allow(non_camel_case_types)]
#[allow(non_snake_case)]
#[derive(Clone, Copy, Debug, PartialEq, Eq)]
pub struct hElGamal {
    pub D: GE,
    pub E: GE,
}

/// The ciphertexts of all segments of one secret, least significant segment
/// first.
#[allow(non_camel_case_types)]
#[allow(non_snake_case)]
#[derive(Clone, Debug, PartialEq, Eq)]
pub struct hElGamalSegmented {
    pub DE: Vec<hElGamal>,
}

/// What the encrypting side keeps to itself: the plaintext segments and the
/// randomizer of each.
#[derive(Clone, Debug, PartialEq, Eq)]
pub struct Witness {
    pub x_vec: Vec<FE>,
    pub r_vec: Vec<FE>,
}

} // verus!
