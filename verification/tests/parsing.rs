use der_ext::error::ParseError;
use der_ext::extract::{parse_precert_poison, parse_spki_for_data, parse_tls_feature};

// TLS Feature: SEQUENCE OF INTEGER spanning the whole buffer.

#[test]
fn tls_feature_empty_sequence() {
    let data = vec![0x30, 0x00];
    assert_eq!(parse_tls_feature(&data), Ok(vec![]));
}

#[test]
fn tls_feature_single_value() {
    let data = vec![0x30, 0x03, 0x02, 0x01, 0x05];
    assert_eq!(parse_tls_feature(&data), Ok(vec![5]));
}

#[test]
fn tls_feature_zero_value() {
    let data = vec![0x30, 0x03, 0x02, 0x01, 0x00];
    assert_eq!(parse_tls_feature(&data), Ok(vec![0]));
}

#[test]
fn tls_feature_values_in_order() {
    let data = vec![0x30, 0x07, 0x02, 0x01, 0x05, 0x02, 0x02, 0x00, 0xFF];
    assert_eq!(parse_tls_feature(&data), Ok(vec![5, 255]));
}

#[test]
fn tls_feature_high_bit_needs_leading_zero() {
    let data = vec![0x30, 0x04, 0x02, 0x02, 0x00, 0x80];
    assert_eq!(parse_tls_feature(&data), Ok(vec![128]));
}

#[test]
fn tls_feature_max_value() {
    let data = vec![
        0x30, 0x0B, 0x02, 0x09, 0x00, 0xFF, 0xFF, 0xFF, 0xFF, 0xFF, 0xFF, 0xFF, 0xFF,
    ];
    assert_eq!(parse_tls_feature(&data), Ok(vec![u64::MAX]));
}

#[test]
fn tls_feature_eight_byte_value() {
    let data = vec![
        0x30, 0x0A, 0x02, 0x08, 0x7F, 0xFF, 0xFF, 0xFF, 0xFF, 0xFF, 0xFF, 0xFF,
    ];
    assert_eq!(parse_tls_feature(&data), Ok(vec![0x7FFF_FFFF_FFFF_FFFF]));
}

#[test]
fn tls_feature_overflow_rejected() {
    let data = vec![
        0x30, 0x0B, 0x02, 0x09, 0x01, 0x00, 0x00, 0x00, 0x00, 0x00, 0x00, 0x00, 0x00,
    ];
    assert_eq!(parse_tls_feature(&data), Err(ParseError::MalformedEncoding));
}

#[test]
fn tls_feature_trailing_byte_rejected() {
    let data = vec![0x30, 0x03, 0x02, 0x01, 0x05, 0x00];
    assert_eq!(parse_tls_feature(&data), Err(ParseError::TrailingData));
}

#[test]
fn tls_feature_nonminimal_integer_rejected() {
    let data = vec![0x30, 0x04, 0x02, 0x02, 0x00, 0x05];
    assert_eq!(parse_tls_feature(&data), Err(ParseError::MalformedEncoding));
}

#[test]
fn tls_feature_negative_integer_rejected() {
    let data = vec![0x30, 0x03, 0x02, 0x01, 0x80];
    assert_eq!(parse_tls_feature(&data), Err(ParseError::MalformedEncoding));
}

#[test]
fn tls_feature_empty_integer_rejected() {
    let data = vec![0x30, 0x02, 0x02, 0x00];
    assert_eq!(parse_tls_feature(&data), Err(ParseError::MalformedEncoding));
}

#[test]
fn tls_feature_wrong_element_tag() {
    let data = vec![0x30, 0x02, 0x05, 0x00];
    assert_eq!(parse_tls_feature(&data), Err(ParseError::UnexpectedTag));
}

#[test]
fn tls_feature_wrong_top_tag() {
    let data = vec![0x31, 0x00];
    assert_eq!(parse_tls_feature(&data), Err(ParseError::UnexpectedTag));
}

#[test]
fn tls_feature_truncated_element() {
    let data = vec![0x30, 0x03, 0x02, 0x01];
    assert_eq!(parse_tls_feature(&data), Err(ParseError::TruncatedInput));
}

#[test]
fn tls_feature_empty_input() {
    let data: Vec<u8> = vec![];
    assert_eq!(parse_tls_feature(&data), Err(ParseError::TruncatedInput));
}

#[test]
fn tls_feature_nonminimal_length_rejected() {
    // Length 5 written as `81 05` instead of `05`.
    let data = vec![0x30, 0x81, 0x05, 0x02, 0x03, 0x01, 0x00, 0x00];
    assert_eq!(parse_tls_feature(&data), Err(ParseError::MalformedEncoding));
}

#[test]
fn tls_feature_indefinite_length_rejected() {
    let data = vec![0x30, 0x80];
    assert_eq!(parse_tls_feature(&data), Err(ParseError::MalformedEncoding));
}

#[test]
fn tls_feature_leading_zero_length_rejected() {
    let data = vec![0x30, 0x82, 0x00, 0x05, 0x02, 0x03, 0x01, 0x00, 0x00];
    assert_eq!(parse_tls_feature(&data), Err(ParseError::MalformedEncoding));
}

#[test]
fn tls_feature_truncating_valid_input_fails() {
    let data = vec![0x30, 0x07, 0x02, 0x01, 0x05, 0x02, 0x02, 0x00, 0xFF];
    assert!(parse_tls_feature(&data).is_ok());
    for cut in 0..data.len() {
        let shorter = &data[..cut];
        let r = parse_tls_feature(shorter);
        assert!(
            r == Err(ParseError::TruncatedInput) || r == Err(ParseError::TrailingData),
            "prefix of length {} must fail",
            cut
        );
    }
}

#[test]
fn tls_feature_reparse_is_identical() {
    let data = vec![0x30, 0x07, 0x02, 0x01, 0x05, 0x02, 0x02, 0x00, 0xFF];
    let first = parse_tls_feature(&data);
    let second = parse_tls_feature(&data);
    let third = parse_tls_feature(&data);
    assert_eq!(first, second);
    assert_eq!(second, third);
}

// Precertificate Poison: exactly one empty NULL.

#[test]
fn precert_poison_accepts_exact_null() {
    let data = vec![0x05, 0x00];
    assert_eq!(parse_precert_poison(&data), Ok(()));
}

#[test]
fn precert_poison_rejects_nonempty_null() {
    let data = vec![0x05, 0x01, 0x00];
    assert_eq!(
        parse_precert_poison(&data),
        Err(ParseError::MalformedEncoding)
    );
}

#[test]
fn precert_poison_rejects_trailing_byte() {
    let data = vec![0x05, 0x00, 0x00];
    assert_eq!(parse_precert_poison(&data), Err(ParseError::TrailingData));
}

#[test]
fn precert_poison_rejects_wrong_tag() {
    let data = vec![0x06, 0x00];
    assert_eq!(parse_precert_poison(&data), Err(ParseError::UnexpectedTag));
}

#[test]
fn precert_poison_rejects_empty_input() {
    let data: Vec<u8> = vec![];
    assert_eq!(parse_precert_poison(&data), Err(ParseError::TruncatedInput));
}

#[test]
fn precert_poison_rejects_nonminimal_length() {
    let data = vec![0x05, 0x81, 0x00];
    assert_eq!(
        parse_precert_poison(&data),
        Err(ParseError::MalformedEncoding)
    );
}

#[test]
fn precert_poison_reparse_is_identical() {
    let data = vec![0x05, 0x00];
    assert_eq!(parse_precert_poison(&data), parse_precert_poison(&data));
}

// SubjectPublicKeyInfo: SEQUENCE { SEQUENCE { OID, optional params },
// BIT STRING with zero padding bits }.

#[test]
fn spki_minimal_returns_key_bytes() {
    let data = vec![
        0x30, 0x0C, 0x30, 0x05, 0x06, 0x03, 0x2A, 0x03, 0x04, 0x03, 0x03, 0x00, 0xAB, 0xCD,
    ];
    assert_eq!(parse_spki_for_data(&data), Ok(vec![0xAB, 0xCD]));
}

#[test]
fn spki_with_parameters_returns_key_bytes() {
    let data = vec![
        0x30, 0x0E, 0x30, 0x07, 0x06, 0x03, 0x2A, 0x03, 0x04, 0x05, 0x00, 0x03, 0x03, 0x00, 0xAB,
        0xCD,
    ];
    assert_eq!(parse_spki_for_data(&data), Ok(vec![0xAB, 0xCD]));
}

#[test]
fn spki_empty_key_ok() {
    let data = vec![0x30, 0x0A, 0x30, 0x05, 0x06, 0x03, 0x2A, 0x03, 0x04, 0x03, 0x01, 0x00];
    assert_eq!(parse_spki_for_data(&data), Ok(vec![]));
}

#[test]
fn spki_nonzero_padding_count_rejected() {
    // Padding count 4 with all four padding bits zero: canonical as DER,
    // still no byte-aligned key.
    let data = vec![
        0x30, 0x0C, 0x30, 0x05, 0x06, 0x03, 0x2A, 0x03, 0x04, 0x03, 0x03, 0x04, 0xAB, 0xC0,
    ];
    assert_eq!(
        parse_spki_for_data(&data),
        Err(ParseError::InvalidKeyEncoding)
    );
}

#[test]
fn spki_nonzero_padding_bits_rejected() {
    // Padding count 4 but a padding bit is set: malformed before the
    // key-alignment rule is even consulted.
    let data = vec![
        0x30, 0x0C, 0x30, 0x05, 0x06, 0x03, 0x2A, 0x03, 0x04, 0x03, 0x03, 0x04, 0xAB, 0xC1,
    ];
    assert_eq!(
        parse_spki_for_data(&data),
        Err(ParseError::MalformedEncoding)
    );
}

#[test]
fn spki_padding_count_over_seven_rejected() {
    let data = vec![
        0x30, 0x0B, 0x30, 0x05, 0x06, 0x03, 0x2A, 0x03, 0x04, 0x03, 0x02, 0x08, 0x00,
    ];
    assert_eq!(
        parse_spki_for_data(&data),
        Err(ParseError::MalformedEncoding)
    );
}

#[test]
fn spki_empty_bit_string_rejected() {
    let data = vec![0x30, 0x09, 0x30, 0x05, 0x06, 0x03, 0x2A, 0x03, 0x04, 0x03, 0x00];
    assert_eq!(
        parse_spki_for_data(&data),
        Err(ParseError::MalformedEncoding)
    );
}

#[test]
fn spki_padding_without_data_byte_rejected() {
    let data = vec![0x30, 0x0A, 0x30, 0x05, 0x06, 0x03, 0x2A, 0x03, 0x04, 0x03, 0x01, 0x04];
    assert_eq!(
        parse_spki_for_data(&data),
        Err(ParseError::MalformedEncoding)
    );
}

#[test]
fn spki_unterminated_oid_rejected() {
    let data = vec![
        0x30, 0x0A, 0x30, 0x04, 0x06, 0x02, 0x2A, 0x83, 0x03, 0x02, 0x00, 0xAB,
    ];
    assert_eq!(
        parse_spki_for_data(&data),
        Err(ParseError::MalformedEncoding)
    );
}

#[test]
fn spki_oid_group_with_leading_zero_rejected() {
    let data = vec![
        0x30, 0x0B, 0x30, 0x05, 0x06, 0x03, 0x2A, 0x80, 0x01, 0x03, 0x02, 0x00, 0xAB,
    ];
    assert_eq!(
        parse_spki_for_data(&data),
        Err(ParseError::MalformedEncoding)
    );
}

#[test]
fn spki_second_parameter_unit_rejected() {
    let data = vec![
        0x30, 0x0F, 0x30, 0x09, 0x06, 0x03, 0x2A, 0x03, 0x04, 0x05, 0x00, 0x05, 0x00, 0x03, 0x02,
        0x00, 0xAB,
    ];
    assert_eq!(parse_spki_for_data(&data), Err(ParseError::TrailingData));
}

#[test]
fn spki_trailing_byte_rejected() {
    let data = vec![
        0x30, 0x0C, 0x30, 0x05, 0x06, 0x03, 0x2A, 0x03, 0x04, 0x03, 0x03, 0x00, 0xAB, 0xCD, 0x00,
    ];
    assert_eq!(parse_spki_for_data(&data), Err(ParseError::TrailingData));
}

#[test]
fn spki_missing_bit_string_rejected() {
    let data = vec![0x30, 0x07, 0x30, 0x05, 0x06, 0x03, 0x2A, 0x03, 0x04];
    assert_eq!(parse_spki_for_data(&data), Err(ParseError::TruncatedInput));
}

#[test]
fn spki_wrong_oid_tag_rejected() {
    let data = vec![
        0x30, 0x0A, 0x30, 0x03, 0x02, 0x01, 0x05, 0x03, 0x03, 0x00, 0xAB, 0xCD,
    ];
    assert_eq!(parse_spki_for_data(&data), Err(ParseError::UnexpectedTag));
}

#[test]
fn spki_truncating_valid_input_fails() {
    let data = vec![
        0x30, 0x0C, 0x30, 0x05, 0x06, 0x03, 0x2A, 0x03, 0x04, 0x03, 0x03, 0x00, 0xAB, 0xCD,
    ];
    assert!(parse_spki_for_data(&data).is_ok());
    let shorter = &data[..data.len() - 1];
    assert_eq!(
        parse_spki_for_data(shorter),
        Err(ParseError::TruncatedInput)
    );
}

#[test]
fn spki_nonminimal_length_rejected() {
    let data = vec![
        0x30, 0x81, 0x0C, 0x30, 0x05, 0x06, 0x03, 0x2A, 0x03, 0x04, 0x03, 0x03, 0x00, 0xAB, 0xCD,
    ];
    assert_eq!(
        parse_spki_for_data(&data),
        Err(ParseError::MalformedEncoding)
    );
}

#[test]
fn spki_reparse_is_identical() {
    let data = vec![
        0x30, 0x0C, 0x30, 0x05, 0x06, 0x03, 0x2A, 0x03, 0x04, 0x03, 0x03, 0x00, 0xAB, 0xCD,
    ];
    assert_eq!(parse_spki_for_data(&data), parse_spki_for_data(&data));
}
