use vstd::prelude::*;

use crate::error::ParseError;
use crate::prim::{
    read_bit_string, read_null, read_object_identifier, read_sequence, read_uint_seq_of,
    spec_read_bit_string, spec_read_null, spec_read_oid, spec_read_sequence,
    spec_read_uint_seq_of,
};
use crate::tlv::{read_tag_length, spec_read_tlv};

verus! {

/// What parsing a TLS Feature extension yields: the integer feature values,
/// in order, of the one SEQUENCE OF INTEGER that must span the whole buffer.
pub open spec fn spec_parse_tls_feature(s: Seq<u8>) -> Result<Seq<u64>, ParseError> {
    match spec_read_sequence(s, 0, s.len() as int) {
        Err(e) => Err(e),
        Ok((cs, ce)) => match spec_read_uint_seq_of(s, cs, ce) {
            Err(e) => Err(e),
            Ok(vs) => if ce != s.len() {
                Err(ParseError::TrailingData)
            } else {
                Ok(vs)
            },
        },
    }
}

/// What parsing a Precertificate Poison extension yields: success exactly on
/// one empty NULL that spans the whole buffer.
pub open spec fn spec_parse_precert_poison(s: Seq<u8>) -> Result<(), ParseError> {
    match spec_read_null(s, 0, s.len() as int) {
        Err(e) => Err(e),
        Ok(j) => if j != s.len() {
            Err(ParseError::TrailingData)
        } else {
            Ok(())
        },
    }
}

/// What consuming the optional AlgorithmIdentifier parameters yields. When
/// bytes remain after the algorithm OID, exactly one unit of any tag is
/// read and deliberately not interpreted further.
pub open spec fn spec_skip_parameters(s: Seq<u8>, i: int, end: int) -> Result<(), ParseError> {
    if i >= end {
        Ok(())
    } else {
        match spec_read_tlv(s, i, end) {
            Err(e) => Err(e),
            Ok((tag, cs, ce)) => if ce != end {
                Err(ParseError::TrailingData)
            } else {
                Ok(())
            },
        }
    }
}

/// What parsing a SubjectPublicKeyInfo yields: the payload bytes of the
/// BIT STRING in SEQUENCE { SEQUENCE { OID, optional parameters },
/// BIT STRING }, which must be byte-aligned (padding-bit count zero) and
/// span the whole buffer together with its envelope.
pub open spec fn spec_parse_spki_for_data(s: Seq<u8>) -> Result<Seq<u8>, ParseError> {
    let n: int = s.len() as int;
    match spec_read_sequence(s, 0, n) {
        Err(e) => Err(e),
        Ok((os, oe)) => match spec_read_sequence(s, os, oe) {
            Err(e) => Err(e),
            Ok((als, ale)) => match spec_read_oid(s, als, ale) {
                Err(e) => Err(e),
                Ok(j) => match spec_skip_parameters(s, j, ale) {
                    Err(e) => Err(e),
                    Ok(()) => match spec_read_bit_string(s, ale, oe) {
                        Err(e) => Err(e),
                        Ok((count, ds, de)) => if count != 0 {
                            Err(ParseError::InvalidKeyEncoding)
                        } else if de != oe {
                            Err(ParseError::TrailingData)
                        } else if oe != n {
                            Err(ParseError::TrailingData)
                        } else {
                            Ok(s.subrange(ds, de))
                        },
                    },
                },
            },
        },
    }
}

/// Parses a TLS Feature extension: one SEQUENCE OF width-bounded unsigned
/// INTEGER spanning the whole buffer. Returns the feature values in order;
/// mapping each to a named feature is the caller's concern.
pub fn parse_tls_feature(data: &[u8]) -> (r: Result<Vec<u64>, ParseError>)
    ensures
        match r {
            Ok(v) => spec_parse_tls_feature(data@) == Ok::<Seq<u64>, ParseError>(v@),
            Err(e) => spec_parse_tls_feature(data@) == Err::<Seq<u64>, ParseError>(e),
        },
{
    let (cs, ce) = match read_sequence(data, 0, data.len()) {
        Err(e) => { return Err(e); },
        Ok(t) => t,
    };
    let vs = match read_uint_seq_of(data, cs, ce) {
        Err(e) => { return Err(e); },
        Ok(v) => v,
    };
    if ce != data.len() {
        return Err(ParseError::TrailingData);
    }
    Ok(vs)
}

/// Parses a Precertificate Poison extension: exactly one empty NULL
/// spanning the whole buffer.
pub fn parse_precert_poison(data: &[u8]) -> (r: Result<(), ParseError>)
    ensures
        r == spec_parse_precert_poison(data@),
{
    let j = match read_null(data, 0, data.len()) {
        Err(e) => { return Err(e); },
        Ok(j) => j,
    };
    if j != data.len() {
        return Err(ParseError::TrailingData);
    }
    Ok(())
}

/// Parses a SubjectPublicKeyInfo and returns the raw public-key bytes: the
/// payload of its byte-aligned BIT STRING. Performs no key-type-specific
/// interpretation.
pub fn parse_spki_for_data(data: &[u8]) -> (r: Result<Vec<u8>, ParseError>)
    ensures
        match r {
            Ok(v) => spec_parse_spki_for_data(data@) == Ok::<Seq<u8>, ParseError>(v@),
            Err(e) => spec_parse_spki_for_data(data@) == Err::<Seq<u8>, ParseError>(e),
        },
{
    let (os, oe) = match read_sequence(data, 0, data.len()) {
        Err(e) => { return Err(e); },
        Ok(t) => t,
    };
    // AlgorithmIdentifier
    let (als, ale) = match read_sequence(data, os, oe) {
        Err(e) => { return Err(e); },
        Ok(t) => t,
    };
    let j = match read_object_identifier(data, als, ale) {
        Err(e) => { return Err(e); },
        Ok(j) => j,
    };
    if j < ale {
        // Optional parameters: consumed as one opaque unit, not validated.
        match read_tag_length(data, j, ale) {
            Err(e) => { return Err(e); },
            Ok((_tag, _ps, pe)) => {
                if pe != ale {
                    return Err(ParseError::TrailingData);
                }
            },
        }
    }
    let (count, ds, de) = match read_bit_string(data, ale, oe) {
        Err(e) => { return Err(e); },
        Ok(t) => t,
    };
    if count != 0 {
        return Err(ParseError::InvalidKeyEncoding);
    }
    if de != oe {
        return Err(ParseError::TrailingData);
    }
    if oe != data.len() {
        return Err(ParseError::TrailingData);
    }
    let key = vstd::slice::slice_to_vec(vstd::slice::slice_subrange(data, ds, de));
    Ok(key)
}

} // verus!
