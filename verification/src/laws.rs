use vstd::prelude::*;

use crate::error::ParseError;
use crate::extract::{
    spec_parse_precert_poison, spec_parse_spki_for_data, spec_parse_tls_feature,
};
use crate::prim::{spec_read_uint, spec_read_uint_seq_of};
use crate::tlv::{be_value, lemma_read_tlv_ok_bounds, spec_read_tlv};

verus! {

/// Reading a unit inside `[i, end)` depends on those bytes alone.
pub proof fn lemma_read_tlv_frame(s1: Seq<u8>, s2: Seq<u8>, i: int, end: int)
    requires
        0 <= i <= end,
        end <= s1.len(),
        end <= s2.len(),
        s1.subrange(i, end) == s2.subrange(i, end),
    ensures
        spec_read_tlv(s1, i, end) == spec_read_tlv(s2, i, end),
{
    if i + 2 <= end {
        assert(s1[i] == s1.subrange(i, end)[0]);
        assert(s2[i] == s2.subrange(i, end)[0]);
        assert(s1[i + 1] == s1.subrange(i, end)[1]);
        assert(s2[i + 1] == s2.subrange(i, end)[1]);
        let lb: u8 = s1[i + 1];
        if lb > 0x80 {
            let n: int = lb - 0x80;
            if i + 2 + n <= end {
                assert(s1[i + 2] == s1.subrange(i, end)[2]);
                assert(s2[i + 2] == s2.subrange(i, end)[2]);
                assert forall|k: int| 0 <= k < n implies #[trigger] s1.subrange(i + 2, i + 2 + n)[k]
                    == s2.subrange(i + 2, i + 2 + n)[k] by {
                    assert(s1[i + 2 + k] == s1.subrange(i, end)[2 + k]);
                    assert(s2[i + 2 + k] == s2.subrange(i, end)[2 + k]);
                }
                assert(s1.subrange(i + 2, i + 2 + n) =~= s2.subrange(i + 2, i + 2 + n));
            }
        }
    }
}

/// Reading an unsigned INTEGER inside `[i, end)` depends on those bytes
/// alone.
pub proof fn lemma_read_uint_frame(s1: Seq<u8>, s2: Seq<u8>, i: int, end: int)
    requires
        0 <= i <= end,
        end <= s1.len(),
        end <= s2.len(),
        s1.subrange(i, end) == s2.subrange(i, end),
    ensures
        spec_read_uint(s1, i, end) == spec_read_uint(s2, i, end),
{
    lemma_read_tlv_frame(s1, s2, i, end);
    match spec_read_tlv(s1, i, end) {
        Err(_) => {},
        Ok((tag, cs, ce)) => {
            lemma_read_tlv_ok_bounds(s1, i, end);
            assert forall|k: int| 0 <= k < ce - cs implies #[trigger] s1.subrange(cs, ce)[k]
                == s2.subrange(cs, ce)[k] by {
                assert(s1[cs + k] == s1.subrange(i, end)[cs - i + k]);
                assert(s2[cs + k] == s2.subrange(i, end)[cs - i + k]);
            }
            assert(s1.subrange(cs, ce) =~= s2.subrange(cs, ce));
        },
    }
}

/// Reading a SEQUENCE OF INTEGER body inside `[i, end)` depends on those
/// bytes alone.
pub proof fn lemma_read_uint_seq_of_frame(s1: Seq<u8>, s2: Seq<u8>, i: int, end: int)
    requires
        0 <= i <= end,
        end <= s1.len(),
        end <= s2.len(),
        s1.subrange(i, end) == s2.subrange(i, end),
    ensures
        spec_read_uint_seq_of(s1, i, end) == spec_read_uint_seq_of(s2, i, end),
    decreases end - i,
{
    if i < end {
        lemma_read_uint_frame(s1, s2, i, end);
        match spec_read_uint(s1, i, end) {
            Err(_) => {},
            Ok((v, j)) => {
                if i < j <= end {
                    assert forall|k: int| 0 <= k < end - j implies #[trigger] s1.subrange(j, end)[k]
                        == s2.subrange(j, end)[k] by {
                        assert(s1[j + k] == s1.subrange(i, end)[j - i + k]);
                        assert(s2[j + k] == s2.subrange(i, end)[j - i + k]);
                    }
                    assert(s1.subrange(j, end) =~= s2.subrange(j, end));
                    lemma_read_uint_seq_of_frame(s1, s2, j, end);
                }
            },
        }
    }
}

/// Parsing has no hidden state: the outcome of each extraction routine is a
/// function of the input bytes alone, so parsing the same buffer any number
/// of times yields bit-identical results.
pub proof fn lemma_parse_repeatable(s1: Seq<u8>, s2: Seq<u8>)
    requires
        s1 == s2,
    ensures
        spec_parse_tls_feature(s1) == spec_parse_tls_feature(s2),
        spec_parse_precert_poison(s1) == spec_parse_precert_poison(s2),
        spec_parse_spki_for_data(s1) == spec_parse_spki_for_data(s2),
{
}

/// A length field in non-minimal long form is rejected wherever a unit is
/// read: either its first length byte is zero, or a single long-form length
/// byte holds a value that the short form would have carried.
pub proof fn lemma_nonminimal_length_rejected(s: Seq<u8>, i: int, end: int)
    requires
        0 <= i,
        i + 2 < end <= s.len(),
        s[i + 1] > 0x80,
        i + 2 + (s[i + 1] - 0x80) <= end,
        s[i + 2] == 0 || (s[i + 1] == 0x81 && s[i + 2] < 0x80),
    ensures
        spec_read_tlv(s, i, end) == Err::<(u8, int, int), ParseError>(
            ParseError::MalformedEncoding,
        ),
{
    if s[i + 2] != 0 {
        let sub = s.subrange(i + 2, i + 3);
        assert(sub =~= seq![s[i + 2]]);
        assert(be_value(sub) == s[i + 2]) by {
            assert(sub.drop_last() =~= Seq::<u8>::empty());
            assert(be_value(Seq::<u8>::empty()) == 0);
            assert(sub.last() == s[i + 2]);
        }
    }
}

/// The three extraction routines reject a buffer whose top-level unit
/// declares its length in the non-minimal long form.
pub proof fn lemma_nonminimal_length_rejected_at_top(s: Seq<u8>)
    requires
        2 < s.len(),
        s[1] > 0x80,
        2 + (s[1] - 0x80) <= s.len(),
        s[2] == 0 || (s[1] == 0x81 && s[2] < 0x80),
    ensures
        spec_parse_tls_feature(s) == Err::<Seq<u64>, ParseError>(ParseError::MalformedEncoding),
        spec_parse_precert_poison(s) == Err::<(), ParseError>(ParseError::MalformedEncoding),
        spec_parse_spki_for_data(s) == Err::<Seq<u8>, ParseError>(ParseError::MalformedEncoding),
{
    lemma_nonminimal_length_rejected(s, 0, s.len() as int);
}

/// A unit that spans a whole buffer no longer reads once the buffer loses
/// its last byte: the header then declares more content than remains.
pub proof fn lemma_truncated_tlv_fails(s: Seq<u8>)
    requires
        spec_read_tlv(s, 0, s.len() as int) matches Ok((t, cs, ce)) && ce == s.len(),
    ensures
        s.len() >= 2,
        spec_read_tlv(s.take(s.len() - 1), 0, s.len() - 1) == Err::<(u8, int, int), ParseError>(
            ParseError::TruncatedInput,
        ),
{
    let n0: int = s.len() as int;
    let s2 = s.take(n0 - 1);
    if n0 - 1 >= 2 {
        assert(s2[0] == s[0]);
        assert(s2[1] == s[1]);
        let lb: u8 = s[1];
        if lb > 0x80 {
            let n: int = lb - 0x80;
            if 2 + n <= n0 - 1 {
                assert(s2[2] == s[2]);
                assert(s2.subrange(2, 2 + n) =~= s.subrange(2, 2 + n));
            }
        }
    }
}

/// Truncating a buffer that one of the extraction routines accepts by its
/// single trailing byte never yields a different successful result: the
/// parse always fails, reporting the input as truncated.
pub proof fn lemma_truncation_fails(s: Seq<u8>)
    ensures
        spec_parse_tls_feature(s) is Ok ==> spec_parse_tls_feature(s.take(s.len() - 1)) == Err::<
            Seq<u64>,
            ParseError,
        >(ParseError::TruncatedInput),
        spec_parse_precert_poison(s) is Ok ==> spec_parse_precert_poison(s.take(s.len() - 1))
            == Err::<(), ParseError>(ParseError::TruncatedInput),
        spec_parse_spki_for_data(s) is Ok ==> spec_parse_spki_for_data(s.take(s.len() - 1))
            == Err::<Seq<u8>, ParseError>(ParseError::TruncatedInput),
{
    if spec_parse_tls_feature(s) is Ok {
        lemma_truncated_tlv_fails(s);
    }
    if spec_parse_precert_poison(s) is Ok {
        lemma_truncated_tlv_fails(s);
    }
    if spec_parse_spki_for_data(s) is Ok {
        lemma_truncated_tlv_fails(s);
    }
}

/// Extending a unit's buffer past its end by one byte changes nothing about
/// how the unit itself reads.
pub proof fn lemma_read_tlv_extend(s: Seq<u8>, b: u8)
    requires
        spec_read_tlv(s, 0, s.len() as int) is Ok,
    ensures
        spec_read_tlv(s.push(b), 0, s.len() as int + 1) == spec_read_tlv(s, 0, s.len() as int),
{
    let s2 = s.push(b);
    let n0: int = s.len() as int;
    assert(s2[0] == s[0]);
    assert(s2[1] == s[1]);
    let lb: u8 = s[1];
    if lb > 0x80 {
        let n: int = lb - 0x80;
        if 2 + n <= n0 {
            assert(s2[2] == s[2]);
            assert(s2.subrange(2, 2 + n) =~= s.subrange(2, 2 + n));
        }
    }
}

/// A buffer that parses as a TLS Feature extension, followed by one extra
/// trailing byte, is rejected as trailing data.
pub proof fn lemma_trailing_byte_fails_tls(s: Seq<u8>, b: u8)
    requires
        spec_parse_tls_feature(s) is Ok,
    ensures
        spec_parse_tls_feature(s.push(b)) == Err::<Seq<u64>, ParseError>(ParseError::TrailingData),
{
    let s2 = s.push(b);
    let n0: int = s.len() as int;
    lemma_read_tlv_extend(s, b);
    match spec_read_tlv(s, 0, n0) {
        Err(_) => {},
        Ok((tag, cs, ce)) => {
            lemma_read_tlv_ok_bounds(s, 0, n0);
            assert(s2.subrange(cs, ce) =~= s.subrange(cs, ce));
            lemma_read_uint_seq_of_frame(s, s2, cs, ce);
        },
    }
}

} // verus!

