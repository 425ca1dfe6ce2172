//! Segmented verifiable escrow of elliptic-curve secret scalars.
//!
//! A secret scalar is cut into fixed-width bit segments; each segment is
//! encrypted under the recipient's key with ElGamal "in the exponent", and the
//! holder of the private key recovers each segment by a bounded search and
//! reassembles the secret as a positional sum.

pub mod bignat;
pub mod errors;
pub mod juggling;
pub mod numeric;
pub mod point;
pub mod scalar;
