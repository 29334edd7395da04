use vstd::prelude::*;

use crate::error::ParseError;
use crate::tlv::{
    be_value, lemma_be_value_bounds, lemma_be_value_leading_zero, lemma_pow256_monotone, pow256,
    read_tag_length, spec_read_tlv,
};

verus! {

pub const TAG_INTEGER: u8 = 0x02;

pub const TAG_BIT_STRING: u8 = 0x03;

pub const TAG_NULL: u8 = 0x05;

pub const TAG_OBJECT_IDENTIFIER: u8 = 0x06;

pub const TAG_SEQUENCE: u8 = 0x30;

/// What reading a NULL yields: the offset just past it. The content must be
/// empty.
pub open spec fn spec_read_null(s: Seq<u8>, i: int, end: int) -> Result<int, ParseError> {
    match spec_read_tlv(s, i, end) {
        Err(e) => Err(e),
        Ok((tag, cs, ce)) => if tag != TAG_NULL {
            Err(ParseError::UnexpectedTag)
        } else if ce != cs {
            Err(ParseError::MalformedEncoding)
        } else {
            Ok(ce)
        },
    }
}

/// Whether `c` is the content of a well-formed DER INTEGER that denotes an
/// unsigned value of at most 64 bits: non-empty, non-negative (the high bit
/// of the first byte clear), with a leading zero byte only where the next
/// byte would otherwise set the high bit, and a value that fits in a `u64`.
pub open spec fn uint_content_ok(c: Seq<u8>) -> bool {
    &&& c.len() >= 1
    &&& c[0] < 0x80
    &&& !(c[0] == 0 && c.len() >= 2 && c[1] < 0x80)
    &&& be_value(c) <= u64::MAX
}

/// What reading a width-bounded unsigned INTEGER yields: its value and the
/// offset just past it.
pub open spec fn spec_read_uint(s: Seq<u8>, i: int, end: int) -> Result<(u64, int), ParseError> {
    match spec_read_tlv(s, i, end) {
        Err(e) => Err(e),
        Ok((tag, cs, ce)) => if tag != TAG_INTEGER {
            Err(ParseError::UnexpectedTag)
        } else if !uint_content_ok(s.subrange(cs, ce)) {
            Err(ParseError::MalformedEncoding)
        } else {
            Ok((be_value(s.subrange(cs, ce)) as u64, ce))
        },
    }
}

/// Whether `c` is the content of a well-formed OBJECT IDENTIFIER: at least
/// one base-128 arc group, every group terminated by a byte with the high
/// bit clear, and no group padded with a leading 0x80 byte.
pub open spec fn oid_content_ok(c: Seq<u8>) -> bool {
    &&& c.len() >= 1
    &&& c[c.len() - 1] < 0x80
    &&& c[0] != 0x80
    &&& forall|j: int|
        1 <= j < c.len() && c[j - 1] < 0x80 ==> #[trigger] c[j] != 0x80
}

/// What reading an OBJECT IDENTIFIER yields: the offset just past it. The
/// content only has to be well-formed; rendering the arcs is no concern of
/// this decoder.
pub open spec fn spec_read_oid(s: Seq<u8>, i: int, end: int) -> Result<int, ParseError> {
    match spec_read_tlv(s, i, end) {
        Err(e) => Err(e),
        Ok((tag, cs, ce)) => if tag != TAG_OBJECT_IDENTIFIER {
            Err(ParseError::UnexpectedTag)
        } else if !oid_content_ok(s.subrange(cs, ce)) {
            Err(ParseError::MalformedEncoding)
        } else {
            Ok(ce)
        },
    }
}

/// Whether `c` is the content of a well-formed DER BIT STRING: a padding-bit
/// count of at most 7, a data byte to pad whenever the count is positive,
/// and every declared padding bit zero.
pub open spec fn bit_string_content_ok(c: Seq<u8>) -> bool {
    &&& c.len() >= 1
    &&& c[0] <= 7
    &&& c[0] > 0 ==> c.len() >= 2
    &&& c[0] > 0 ==> c[c.len() - 1] & low_bits_mask(c[0]) == 0
}

/// The mask of the `count` low-order bits of a byte.
pub open spec fn low_bits_mask(count: u8) -> u8
    recommends
        count <= 7,
{
    ((1u8 << count) - 1) as u8
}

/// What reading a BIT STRING yields: the padding-bit count, the range of the
/// payload bytes, and the offset just past the unit (the payload's end).
pub open spec fn spec_read_bit_string(s: Seq<u8>, i: int, end: int) -> Result<
    (u8, int, int),
    ParseError,
> {
    match spec_read_tlv(s, i, end) {
        Err(e) => Err(e),
        Ok((tag, cs, ce)) => if tag != TAG_BIT_STRING {
            Err(ParseError::UnexpectedTag)
        } else if !bit_string_content_ok(s.subrange(cs, ce)) {
            Err(ParseError::MalformedEncoding)
        } else {
            Ok((s[cs], cs + 1, ce))
        },
    }
}

/// What reading a SEQUENCE header yields: the bounded sub-range holding the
/// nested content, not yet interpreted.
pub open spec fn spec_read_sequence(s: Seq<u8>, i: int, end: int) -> Result<
    (int, int),
    ParseError,
> {
    match spec_read_tlv(s, i, end) {
        Err(e) => Err(e),
        Ok((tag, cs, ce)) => if tag != TAG_SEQUENCE {
            Err(ParseError::UnexpectedTag)
        } else {
            Ok((cs, ce))
        },
    }
}

/// What repeatedly reading unsigned INTEGERs until the sub-range `[i, end)`
/// is exhausted yields: the decoded values in order. Reading an element
/// always advances the offset, which the inner guard makes evident.
pub open spec fn spec_read_uint_seq_of(s: Seq<u8>, i: int, end: int) -> Result<Seq<u64>, ParseError>
    decreases end - i,
{
    if i >= end {
        Ok(Seq::empty())
    } else {
        match spec_read_uint(s, i, end) {
            Err(e) => Err(e),
            Ok((v, j)) => if !(i < j <= end) {
                Err(ParseError::MalformedEncoding)
            } else {
                match spec_read_uint_seq_of(s, j, end) {
                    Err(e) => Err(e),
                    Ok(rest) => Ok(seq![v] + rest),
                }
            },
        }
    }
}

/// Reads a NULL at `pos` and returns the offset just past it.
pub fn read_null(data: &[u8], pos: usize, end: usize) -> (r: Result<usize, ParseError>)
    requires
        pos <= end <= data@.len(),
    ensures
        match r {
            Ok(j) => {
                &&& spec_read_null(data@, pos as int, end as int) == Ok::<int, ParseError>(j as int)
                &&& pos < j <= end
            },
            Err(e) => spec_read_null(data@, pos as int, end as int) == Err::<int, ParseError>(e),
        },
{
    match read_tag_length(data, pos, end) {
        Err(e) => Err(e),
        Ok((tag, cs, ce)) => {
            if tag != TAG_NULL {
                Err(ParseError::UnexpectedTag)
            } else if ce != cs {
                Err(ParseError::MalformedEncoding)
            } else {
                Ok(ce)
            }
        },
    }
}

/// Reads a width-bounded unsigned INTEGER at `pos` and returns its value and
/// the offset just past it.
pub fn read_uint(data: &[u8], pos: usize, end: usize) -> (r: Result<(u64, usize), ParseError>)
    requires
        pos <= end <= data@.len(),
    ensures
        match r {
            Ok((v, j)) => {
                &&& spec_read_uint(data@, pos as int, end as int) == Ok::<(u64, int), ParseError>(
                    (v, j as int),
                )
                &&& pos < j <= end
            },
            Err(e) => spec_read_uint(data@, pos as int, end as int) == Err::<
                (u64, int),
                ParseError,
            >(e),
        },
{
    let (tag, cs, ce) = match read_tag_length(data, pos, end) {
        Err(e) => { return Err(e); },
        Ok(t) => t,
    };
    if tag != TAG_INTEGER {
        return Err(ParseError::UnexpectedTag);
    }
    let ghost c = data@.subrange(cs as int, ce as int);
    let len: usize = ce - cs;
    if len == 0 {
        return Err(ParseError::MalformedEncoding);
    }
    if data[cs] >= 0x80 {
        return Err(ParseError::MalformedEncoding);
    }
    if data[cs] == 0 && len >= 2 && data[cs + 1] < 0x80 {
        return Err(ParseError::MalformedEncoding);
    }
    // Width check: past an optional leading zero byte, at most 8 value bytes.
    if data[cs] == 0 {
        if len - 1 > 8 {
            proof {
                lemma_be_value_leading_zero(c);
                lemma_be_value_bounds(c.skip(1));
                lemma_pow256_monotone(8, (c.skip(1).len() - 1) as nat);
                assert(pow256(8) == 0x10000000000000000) by {
                    reveal_with_fuel(pow256, 9);
                }
                assert(c.skip(1)[0] == c[1]);
            }
            return Err(ParseError::MalformedEncoding);
        }
    } else {
        if len > 8 {
            proof {
                lemma_be_value_bounds(c);
                lemma_pow256_monotone(8, (c.len() - 1) as nat);
                assert(pow256(8) == 0x10000000000000000) by {
                    reveal_with_fuel(pow256, 9);
                }
            }
            return Err(ParseError::MalformedEncoding);
        }
    }
    let mut acc: u64 = 0;
    let mut j: usize = 0;
    proof {
        assert(data@.subrange(cs as int, cs as int) =~= Seq::<u8>::empty());
        if c[0] == 0 {
            lemma_be_value_leading_zero(c);
        }
    }
    while j < len
        invariant
            j <= len,
            cs + len == ce,
            pos <= cs <= ce <= end <= data@.len(),
            c == data@.subrange(cs as int, ce as int),
            c.len() == len,
            c[0] == 0 ==> len <= 9,
            c[0] != 0 ==> len <= 8,
            acc == be_value(data@.subrange(cs as int, cs + j)),
            c[0] == 0 && j >= 1 ==> acc < pow256((j - 1) as nat),
            c[0] != 0 || j == 0 ==> acc < pow256(j as nat),
        decreases len - j,
    {
        let b: u8 = data[cs + j];
        proof {
            let pre = data@.subrange(cs as int, cs + j);
            let post = data@.subrange(cs as int, cs + j + 1);
            assert(post.drop_last() =~= pre);
            assert(post.last() == b);
            assert(pow256(8) == 0x10000000000000000) by {
                reveal_with_fuel(pow256, 9);
            }
            if c[0] == 0 {
                if j >= 1 {
                    lemma_pow256_monotone(j as nat, 8);
                    assert(pre.skip(1) =~= post.skip(1).drop_last());
                    if j == 1 {
                        assert(post.skip(1) =~= seq![b]);
                        assert(be_value(seq![b]) == b) by {
                            assert(seq![b].drop_last() =~= Seq::<u8>::empty());
                            assert(be_value(Seq::<u8>::empty()) == 0);
                            assert(seq![b].last() == b);
                        }
                    }
                    lemma_be_value_leading_zero(pre);
                    lemma_be_value_leading_zero(post);
                    lemma_be_value_bounds(post.skip(1));
                    lemma_pow256_monotone(post.skip(1).len() as nat, 8);
                } else {
                    assert(post =~= seq![c[0]]);
                    assert(be_value(post) == c[0]) by {
                        assert(post.drop_last() =~= Seq::<u8>::empty());
                    }
                }
            } else {
                lemma_pow256_monotone((j + 1) as nat, 8);
            }
        }
        acc = acc * 256 + (b as u64);
        j = j + 1;
    }
    proof {
        assert(data@.subrange(cs as int, cs + len) =~= c);
        if c[0] == 0 {
            lemma_be_value_leading_zero(c);
            lemma_be_value_bounds(c.skip(1));
            lemma_pow256_monotone(c.skip(1).len() as nat, 8);
        } else {
            lemma_be_value_bounds(c);
            lemma_pow256_monotone(c.len() as nat, 8);
        }
        assert(pow256(8) == 0x10000000000000000) by {
            reveal_with_fuel(pow256, 9);
        }
    }
    Ok((acc, ce))
}

/// Reads an OBJECT IDENTIFIER at `pos`, validating its packing, and returns
/// the offset just past it.
pub fn read_object_identifier(data: &[u8], pos: usize, end: usize) -> (r: Result<usize, ParseError>)
    requires
        pos <= end <= data@.len(),
    ensures
        match r {
            Ok(j) => {
                &&& spec_read_oid(data@, pos as int, end as int) == Ok::<int, ParseError>(j as int)
                &&& pos < j <= end
            },
            Err(e) => spec_read_oid(data@, pos as int, end as int) == Err::<int, ParseError>(e),
        },
{
    let (tag, cs, ce) = match read_tag_length(data, pos, end) {
        Err(e) => { return Err(e); },
        Ok(t) => t,
    };
    if tag != TAG_OBJECT_IDENTIFIER {
        return Err(ParseError::UnexpectedTag);
    }
    let ghost c = data@.subrange(cs as int, ce as int);
    let len: usize = ce - cs;
    if len == 0 {
        return Err(ParseError::MalformedEncoding);
    }
    if data[ce - 1] >= 0x80 {
        proof {
            assert(c[c.len() - 1] == data@[ce - 1]);
        }
        return Err(ParseError::MalformedEncoding);
    }
    if data[cs] == 0x80 {
        proof {
            assert(c[0] == data@[cs as int]);
        }
        return Err(ParseError::MalformedEncoding);
    }
    let mut j: usize = 1;
    while j < len
        invariant
            1 <= j <= len,
            cs + len == ce,
            pos <= cs <= ce <= end <= data@.len(),
            c == data@.subrange(cs as int, ce as int),
            c.len() == len,
            spec_read_tlv(data@, pos as int, end as int) == Ok::<(u8, int, int), ParseError>(
                (TAG_OBJECT_IDENTIFIER, cs as int, ce as int),
            ),
            forall|k: int| 1 <= k < j && c[k - 1] < 0x80 ==> #[trigger] c[k] != 0x80,
        decreases len - j,
    {
        if data[cs + j - 1] < 0x80 && data[cs + j] == 0x80 {
            proof {
                assert(c[j as int] == data@[cs + j]);
                assert(c[j - 1] == data@[cs + j - 1]);
                assert(c[j as int] == 0x80 && c[j - 1] < 0x80);
                assert(!oid_content_ok(c));
            }
            return Err(ParseError::MalformedEncoding);
        }
        j = j + 1;
    }
    Ok(ce)
}

/// Reads a BIT STRING at `pos` and returns its padding-bit count, the range
/// of its payload bytes, and (equal to the payload's end) the offset just
/// past the unit.
pub fn read_bit_string(data: &[u8], pos: usize, end: usize) -> (r: Result<
    (u8, usize, usize),
    ParseError,
>)
    requires
        pos <= end <= data@.len(),
    ensures
        match r {
            Ok((count, ds, de)) => {
                &&& spec_read_bit_string(data@, pos as int, end as int) == Ok::<
                    (u8, int, int),
                    ParseError,
                >((count, ds as int, de as int))
                &&& pos < ds <= de <= end
            },
            Err(e) => spec_read_bit_string(data@, pos as int, end as int) == Err::<
                (u8, int, int),
                ParseError,
            >(e),
        },
{
    let (tag, cs, ce) = match read_tag_length(data, pos, end) {
        Err(e) => { return Err(e); },
        Ok(t) => t,
    };
    if tag != TAG_BIT_STRING {
        return Err(ParseError::UnexpectedTag);
    }
    let ghost c = data@.subrange(cs as int, ce as int);
    let len: usize = ce - cs;
    if len == 0 {
        return Err(ParseError::MalformedEncoding);
    }
    let count: u8 = data[cs];
    if count > 7 {
        return Err(ParseError::MalformedEncoding);
    }
    if count > 0 {
        if len < 2 {
            return Err(ParseError::MalformedEncoding);
        }
        assert(1u8 << count >= 1) by (bit_vector)
            requires
                count <= 7,
        ;
        let mask: u8 = (1u8 << count) - 1;
        if data[ce - 1] & mask != 0 {
            proof {
                assert(c[c.len() - 1] == data@[ce - 1]);
            }
            return Err(ParseError::MalformedEncoding);
        }
        proof {
            assert(c[c.len() - 1] == data@[ce - 1]);
        }
    }
    Ok((count, cs + 1, ce))
}

/// Reads a SEQUENCE header at `pos` and returns the bounded sub-range that
/// holds the nested content.
pub fn read_sequence(data: &[u8], pos: usize, end: usize) -> (r: Result<
    (usize, usize),
    ParseError,
>)
    requires
        pos <= end <= data@.len(),
    ensures
        match r {
            Ok((cs, ce)) => {
                &&& spec_read_sequence(data@, pos as int, end as int) == Ok::<
                    (int, int),
                    ParseError,
                >((cs as int, ce as int))
                &&& pos + 2 <= cs <= ce <= end
            },
            Err(e) => spec_read_sequence(data@, pos as int, end as int) == Err::<
                (int, int),
                ParseError,
            >(e),
        },
{
    match read_tag_length(data, pos, end) {
        Err(e) => Err(e),
        Ok((tag, cs, ce)) => {
            if tag != TAG_SEQUENCE {
                Err(ParseError::UnexpectedTag)
            } else {
                Ok((cs, ce))
            }
        },
    }
}

/// How a prefix of already decoded values combines with the outcome of
/// decoding the rest of a sub-range.
pub open spec fn with_prefix(p: Seq<u64>, r: Result<Seq<u64>, ParseError>) -> Result<
    Seq<u64>,
    ParseError,
> {
    match r {
        Ok(rest) => Ok(p + rest),
        Err(e) => Err(e),
    }
}

/// Repeatedly reads unsigned INTEGERs until the sub-range `[pos, end)` is
/// exhausted and returns the decoded values in order. An element that fails
/// to decode fails the whole read; a sub-range that is empty to begin with
/// yields the empty sequence.
pub fn read_uint_seq_of(data: &[u8], pos: usize, end: usize) -> (r: Result<Vec<u64>, ParseError>)
    requires
        pos <= end <= data@.len(),
    ensures
        match r {
            Ok(v) => spec_read_uint_seq_of(data@, pos as int, end as int) == Ok::<
                Seq<u64>,
                ParseError,
            >(v@),
            Err(e) => spec_read_uint_seq_of(data@, pos as int, end as int) == Err::<
                Seq<u64>,
                ParseError,
            >(e),
        },
{
    let mut out: Vec<u64> = Vec::new();
    let mut cur: usize = pos;
    while cur < end
        invariant
            pos <= cur <= end <= data@.len(),
            spec_read_uint_seq_of(data@, pos as int, end as int) == with_prefix(
                out@,
                spec_read_uint_seq_of(data@, cur as int, end as int),
            ),
        decreases end - cur,
    {
        match read_uint(data, cur, end) {
            Err(e) => {
                return Err(e);
            },
            Ok((v, next)) => {
                let ghost prior = out@;
                proof {
                    let rest = spec_read_uint_seq_of(data@, next as int, end as int);
                    if rest is Ok {
                        assert(prior + (seq![v] + rest->Ok_0) =~= (prior + seq![v]) + rest->Ok_0);
                    }
                }
                out.push(v);
                proof {
                    assert(out@ =~= prior + seq![v]);
                }
                cur = next;
            },
        }
    }
    proof {
        assert(out@ + Seq::<u64>::empty() =~= out@);
    }
    Ok(out)
}

} // verus!
