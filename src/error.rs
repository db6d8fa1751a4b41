//! Errors of the codec.
use vstd::prelude::*;

verus! {

/// What can go wrong when building a model, encoding or decoding.
#[derive(Clone, Copy, Debug, PartialEq, Eq, Structural)]
pub enum AnsError {
    /// An invalid fidelity, radix or frame size, or a symbol that the model
    /// cannot represent.
    ParameterError,
    /// The frame cannot give every observed symbol a frequency of at least one.
    FrameTooSmall,
    /// A stream ended early, or what was read is not a valid symbol.
    CorruptedStream,
}

} // verus!
