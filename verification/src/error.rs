//! The failures that key generation and the transforms report.

use vstd::prelude::*;

verus! {

/// Why an operation was refused.
#[derive(Clone, Copy, Debug, PartialEq, Eq, Structural)]
pub enum KeyswitchError {
    /// Scalar parameters are invalid or do not fit together.
    ParameterError,
    /// An input, an output and a key disagree on a dimension or on the modulus.
    DimensionMismatch,
    /// An accelerator device cannot hold what was asked of it.
    ResourceExhaustion,
}

} // verus!
