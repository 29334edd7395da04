use der_ext::error::ParseError;
use der_ext::prim::{
    read_bit_string, read_null, read_object_identifier, read_sequence, read_uint,
    read_uint_seq_of,
};
use der_ext::tlv::read_tag_length;

// The tag-length reader itself.

#[test]
fn tag_length_short_form() {
    let data = vec![0x04, 0x02, 0xAA, 0xBB];
    assert_eq!(read_tag_length(&data, 0, data.len()), Ok((0x04, 2, 4)));
}

#[test]
fn tag_length_valid_long_form() {
    // Content of 128 bytes needs the long form `81 80`.
    let mut data = vec![0x04, 0x81, 0x80];
    data.extend(std::iter::repeat(0x55).take(128));
    assert_eq!(read_tag_length(&data, 0, data.len()), Ok((0x04, 3, 131)));
}

#[test]
fn tag_length_indefinite_rejected() {
    let data = vec![0x04, 0x80, 0x00, 0x00];
    assert_eq!(
        read_tag_length(&data, 0, data.len()),
        Err(ParseError::MalformedEncoding)
    );
}

#[test]
fn tag_length_nonminimal_long_form_rejected() {
    // Length 5 written as `81 05` instead of `05`.
    let data = vec![0x04, 0x81, 0x05, 0x01, 0x02, 0x03, 0x04, 0x05];
    assert_eq!(
        read_tag_length(&data, 0, data.len()),
        Err(ParseError::MalformedEncoding)
    );
}

#[test]
fn tag_length_leading_zero_length_rejected() {
    let data = vec![0x04, 0x82, 0x00, 0x05, 0x01, 0x02, 0x03, 0x04, 0x05];
    assert_eq!(
        read_tag_length(&data, 0, data.len()),
        Err(ParseError::MalformedEncoding)
    );
}

#[test]
fn tag_length_declared_length_past_end_rejected() {
    let data = vec![0x04, 0x05, 0x01, 0x02];
    assert_eq!(
        read_tag_length(&data, 0, data.len()),
        Err(ParseError::TruncatedInput)
    );
}

#[test]
fn tag_length_missing_length_bytes_rejected() {
    let data = vec![0x04, 0x82, 0x01];
    assert_eq!(
        read_tag_length(&data, 0, data.len()),
        Err(ParseError::TruncatedInput)
    );
}

// Non-minimal lengths are rejected by every typed decoder.

#[test]
fn null_nonminimal_length_rejected() {
    let data = vec![0x05, 0x81, 0x05, 0x00, 0x00, 0x00, 0x00, 0x00];
    assert_eq!(
        read_null(&data, 0, data.len()),
        Err(ParseError::MalformedEncoding)
    );
}

#[test]
fn uint_nonminimal_length_rejected() {
    let data = vec![0x02, 0x81, 0x01, 0x05];
    assert_eq!(
        read_uint(&data, 0, data.len()),
        Err(ParseError::MalformedEncoding)
    );
}

#[test]
fn oid_nonminimal_length_rejected() {
    let data = vec![0x06, 0x81, 0x03, 0x2A, 0x03, 0x04];
    assert_eq!(
        read_object_identifier(&data, 0, data.len()),
        Err(ParseError::MalformedEncoding)
    );
}

#[test]
fn bit_string_nonminimal_length_rejected() {
    let data = vec![0x03, 0x81, 0x02, 0x00, 0xAB];
    assert_eq!(
        read_bit_string(&data, 0, data.len()),
        Err(ParseError::MalformedEncoding)
    );
}

#[test]
fn sequence_nonminimal_length_rejected() {
    let data = vec![0x30, 0x81, 0x05, 0x02, 0x03, 0x01, 0x00, 0x00];
    assert_eq!(
        read_sequence(&data, 0, data.len()),
        Err(ParseError::MalformedEncoding)
    );
}

// Typed decoders on well-formed input.

#[test]
fn null_reads_and_advances() {
    let data = vec![0x05, 0x00, 0xFF];
    assert_eq!(read_null(&data, 0, 2), Ok(2));
}

#[test]
fn uint_reads_value_and_advances() {
    let data = vec![0x02, 0x01, 0x7F];
    assert_eq!(read_uint(&data, 0, data.len()), Ok((127, 3)));
}

#[test]
fn uint_zero_is_one_zero_byte() {
    let data = vec![0x02, 0x01, 0x00];
    assert_eq!(read_uint(&data, 0, data.len()), Ok((0, 3)));
}

#[test]
fn oid_reads_and_advances() {
    // 1.2.840.113549: 2A 86 48 86 F7 0D
    let data = vec![0x06, 0x06, 0x2A, 0x86, 0x48, 0x86, 0xF7, 0x0D];
    assert_eq!(read_object_identifier(&data, 0, data.len()), Ok(8));
}

#[test]
fn bit_string_reports_padding_and_payload() {
    let data = vec![0x03, 0x03, 0x04, 0xAB, 0xC0];
    assert_eq!(read_bit_string(&data, 0, data.len()), Ok((4, 3, 5)));
}

#[test]
fn sequence_reports_content_range() {
    let data = vec![0x30, 0x03, 0x02, 0x01, 0x05];
    assert_eq!(read_sequence(&data, 0, data.len()), Ok((2, 5)));
}

#[test]
fn uint_seq_of_reads_until_exhausted() {
    let data = vec![0x02, 0x01, 0x01, 0x02, 0x01, 0x02, 0x02, 0x01, 0x03];
    assert_eq!(
        read_uint_seq_of(&data, 0, data.len()),
        Ok(vec![1, 2, 3])
    );
}

#[test]
fn uint_seq_of_empty_range_is_empty() {
    let data = vec![0x02, 0x01, 0x01];
    assert_eq!(read_uint_seq_of(&data, 1, 1), Ok(vec![]));
}

#[test]
fn uint_seq_of_partial_element_fails() {
    let data = vec![0x02, 0x01, 0x01, 0x02, 0x01];
    assert_eq!(
        read_uint_seq_of(&data, 0, data.len()),
        Err(ParseError::TruncatedInput)
    );
}
