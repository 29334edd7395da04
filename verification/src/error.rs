use vstd::prelude::*;

verus! {

/// How a parse can fail. Every failure is fatal to the whole extraction:
/// no partial result is ever returned, and the kind that the lowest layer
/// detected is surfaced unchanged.
#[derive(Clone, Copy, Debug, PartialEq, Eq, Structural)]
pub enum ParseError {
    /// Fewer bytes remain than a length field or the declared content requires.
    TruncatedInput,
    /// Structurally invalid DER: a non-canonical or indefinite length, or a
    /// bad INTEGER, OBJECT IDENTIFIER, NULL or BIT STRING body.
    MalformedEncoding,
    /// A tag-length-value unit's tag is not the one the grammar requires here.
    UnexpectedTag,
    /// Bytes remain after the expected structure was fully consumed.
    TrailingData,
    /// The SubjectPublicKeyInfo BIT STRING declares padding bits where a
    /// byte-aligned key is required.
    InvalidKeyEncoding,
}

} // verus!
