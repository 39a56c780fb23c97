use vstd::prelude::*;

verus! {

/// Failures of the encrypted arithmetic.
#[derive(Clone, Copy, Debug, PartialEq, Eq, Structural)]
pub enum ParmError {
    /// The digit capability failed (bootstrap, encryption or decryption).
    Capability,
    /// An operand is longer than the engine supports; holds the length.
    LengthExceeded(usize),
    /// A rounding position at or beyond the bit width; holds the position.
    RoundingPosition(usize),
}

} // verus!
