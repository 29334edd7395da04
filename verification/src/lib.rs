//! A minimal DER (Distinguished Encoding Rules) decoder specialized to three
//! X.509 certificate-extension payloads: the TLS Feature list of small
//! integers, the Precertificate Poison NULL marker, and the
//! SubjectPublicKeyInfo envelope yielding a raw public-key byte string.
//!
//! Parsing is byte-exact: non-canonical length encodings, indefinite lengths,
//! trailing bytes and ill-formed primitive bodies are all rejected with a
//! structured error.

pub mod encode;
pub mod error;
pub mod extract;
pub mod laws;
pub mod prim;
pub mod tlv;
