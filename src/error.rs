use vstd::prelude::*;

verus! {

/// The ways a codec operation can fail.
#[derive(Debug, Clone, Copy, PartialEq, Eq, Structural)]
pub enum CodecError {
    /// The corpus is empty, or no model can be built from it.
    ModelConstruction,
    /// A token handed to `compress` is absent from the model.
    UnknownToken,
    /// The payload is truncated, or holds a code or entry that cannot be decoded.
    MalformedPayload,
    /// An internal invariant of a model does not hold.
    EncodingInvariant,
}

impl CodecError {
    /// A short description of the error.
    pub fn message(&self) -> String {
        match self {
            CodecError::ModelConstruction => String::from_str("cannot build a model from this corpus"),
            CodecError::UnknownToken => String::from_str("token is not in the model"),
            CodecError::MalformedPayload => String::from_str("payload is truncated or malformed"),
            CodecError::EncodingInvariant => String::from_str("model invariant violated"),
        }
    }
}

} // verus!
