//! The ways in which cracking a ciphertext fails.

use vstd::prelude::*;

verus! {

/// Why no plaintext could be recovered.
#[derive(Clone, Copy, Debug, PartialEq, Eq, Structural)]
pub enum CrackError {
    /// The normalised text is empty, or shorter than the shortest sequence
    /// that is searched for.
    EmptyInput,
    /// No sequence stands more than twice in the normalised text, so there
    /// are no gaps to estimate the key length from.
    NoRepeatsFound,
    /// The gaps reduce to 0, or to more than the length of the text.
    DegenerateKeyLength,
}

} // verus!
