//! The one way in which an operation of this crate can fail.

use vstd::prelude::*;

verus! {

/// Why an operation failed.
#[derive(Clone, Copy, Debug, PartialEq, Eq)]
pub enum Errors {
    /// No value within the searched range opens the ciphertext: the
    /// ciphertext, the key or the segment width does not fit.
    ErrorDecrypting,
}

} // verus!
