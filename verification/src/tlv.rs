//! The tag-length-value reader. A cursor over the input is a pair of
//! offsets `(pos, end)` into the one borrowed buffer: nested structures are
//! parsed against a tightened `end`, so no content is ever copied while it
//! is being delimited.

use vstd::prelude::*;

use crate::error::ParseError;

verus! {

/// The value of a byte string read as a big-endian unsigned integer.
pub open spec fn be_value(s: Seq<u8>) -> nat
    decreases s.len(),
{
    if s.len() == 0 {
        0
    } else {
        (be_value(s.drop_last()) * 256 + s.last()) as nat
    }
}

/// 256 raised to the power `k`: the number of byte strings of length `k`.
pub open spec fn pow256(k: nat) -> nat
    decreases k,
{
    if k == 0 {
        1
    } else {
        256 * pow256((k - 1) as nat)
    }
}

pub proof fn lemma_pow256_monotone(a: nat, b: nat)
    requires
        a <= b,
    ensures
        pow256(a) <= pow256(b),
    decreases b,
{
    if a < b {
        lemma_pow256_monotone(a, (b - 1) as nat);
    }
}

/// A string of `k` bytes holds a value below `pow256(k)`, and at least
/// `pow256(k - 1)` when its first byte is not zero.
pub proof fn lemma_be_value_bounds(s: Seq<u8>)
    ensures
        be_value(s) < pow256(s.len()),
        s.len() > 0 && s[0] != 0 ==> be_value(s) >= pow256((s.len() - 1) as nat),
    decreases s.len(),
{
    if s.len() > 0 {
        let d = s.drop_last();
        lemma_be_value_bounds(d);
        assert(be_value(d) * 256 <= (pow256(d.len()) - 1) * 256);
        if s[0] != 0 {
            if s.len() == 1 {
                assert(s.last() == s[0]);
            } else {
                assert(d[0] == s[0]);
                assert(be_value(d) * 256 >= pow256((d.len() - 1) as nat) * 256);
            }
        }
    }
}

/// A leading zero byte does not change the value.
pub proof fn lemma_be_value_leading_zero(s: Seq<u8>)
    requires
        s.len() > 0,
        s[0] == 0,
    ensures
        be_value(s) == be_value(s.skip(1)),
    decreases s.len(),
{
    if s.len() == 1 {
        assert(s.skip(1) =~= Seq::<u8>::empty());
        assert(s.drop_last() =~= Seq::<u8>::empty());
        assert(be_value(Seq::<u8>::empty()) == 0);
        assert(s.last() == s[0]);
    } else {
        let d = s.drop_last();
        assert(d[0] == s[0]);
        lemma_be_value_leading_zero(d);
        assert(d.skip(1) =~= s.skip(1).drop_last());
        assert(s.skip(1).last() == s.last());
        assert(be_value(s.skip(1)) == be_value(s.skip(1).drop_last()) * 256 + s.skip(1).last());
        assert(be_value(s) == be_value(d) * 256 + s.last());
    }
}

/// What reading one tag-length-value unit yields at offset `i` of `s`, with
/// the readable range bounded by `end`: the tag byte, and the start and end
/// of the content range. The length field must use the minimal DER form:
/// the short form below 0x80, otherwise the long form with no leading zero
/// length byte and a value that could not have used the short form.
pub open spec fn spec_read_tlv(s: Seq<u8>, i: int, end: int) -> Result<(u8, int, int), ParseError> {
    if i + 2 > end {
        Err(ParseError::TruncatedInput)
    } else {
        let tag: u8 = s[i];
        let lb: u8 = s[i + 1];
        if lb < 0x80 {
            if i + 2 + lb > end {
                Err(ParseError::TruncatedInput)
            } else {
                Ok((tag, i + 2, i + 2 + lb))
            }
        } else if lb == 0x80 {
            // DER forbids the indefinite length.
            Err(ParseError::MalformedEncoding)
        } else {
            let n: int = lb - 0x80;
            if i + 2 + n > end {
                Err(ParseError::TruncatedInput)
            } else if s[i + 2] == 0 {
                Err(ParseError::MalformedEncoding)
            } else {
                let v: int = be_value(s.subrange(i + 2, i + 2 + n)) as int;
                if n == 1 && v < 0x80 {
                    Err(ParseError::MalformedEncoding)
                } else if i + 2 + n + v > end {
                    Err(ParseError::TruncatedInput)
                } else {
                    Ok((tag, i + 2 + n, i + 2 + n + v))
                }
            }
        }
    }
}

/// A unit that reads successfully lies between its header and `end`.
pub proof fn lemma_read_tlv_ok_bounds(s: Seq<u8>, i: int, end: int)
    requires
        0 <= i <= end <= s.len(),
    ensures
        spec_read_tlv(s, i, end) matches Ok((tag, cs, ce)) ==> i + 2 <= cs <= ce <= end,
{
}

/// Reads one tag-length-value unit at `pos`, with the readable range bounded
/// by `end`; returns the tag byte and the content range, or the failure that
/// `spec_read_tlv` assigns to these bytes.
pub fn read_tag_length(data: &[u8], pos: usize, end: usize) -> (r: Result<
    (u8, usize, usize),
    ParseError,
>)
    requires
        pos <= end <= data@.len(),
    ensures
        match r {
            Ok((tag, cs, ce)) => {
                &&& spec_read_tlv(data@, pos as int, end as int) == Ok::<(u8, int, int), ParseError>(
                    (tag, cs as int, ce as int),
                )
                &&& pos + 2 <= cs <= ce <= end
            },
            Err(e) => spec_read_tlv(data@, pos as int, end as int) == Err::<
                (u8, int, int),
                ParseError,
            >(e),
        },
{
    if end - pos < 2 {
        return Err(ParseError::TruncatedInput);
    }
    let tag: u8 = data[pos];
    let lb: u8 = data[pos + 1];
    if lb < 0x80 {
        let clen: usize = lb as usize;
        if clen > end - (pos + 2) {
            return Err(ParseError::TruncatedInput);
        }
        Ok((tag, pos + 2, pos + 2 + clen))
    } else if lb == 0x80 {
        Err(ParseError::MalformedEncoding)
    } else {
        let n: usize = (lb - 0x80) as usize;
        if n > end - (pos + 2) {
            return Err(ParseError::TruncatedInput);
        }
        if data[pos + 2] == 0 {
            return Err(ParseError::MalformedEncoding);
        }
        if n > 8 {
            // With no leading zero, 9 or more length bytes declare a content
            // length beyond what any buffer can hold.
            proof {
                let lenb = data@.subrange(pos + 2, pos + 2 + n);
                lemma_be_value_bounds(lenb);
                lemma_pow256_monotone(8, (n - 1) as nat);
                assert(pow256(8) == 0x10000000000000000) by {
                    reveal_with_fuel(pow256, 9);
                }
            }
            return Err(ParseError::TruncatedInput);
        }
        let ghost lenb = data@.subrange(pos + 2, pos + 2 + n);
        let mut acc: u64 = 0;
        let mut j: usize = 0;
        proof {
            assert(data@.subrange(pos + 2, pos + 2) =~= Seq::<u8>::empty());
        }
        while j < n
            invariant
                j <= n <= 8,
                pos + 2 + n <= end <= data@.len(),
                acc == be_value(data@.subrange(pos + 2, pos + 2 + j)),
                acc < pow256(j as nat),
            decreases n - j,
        {
            let b: u8 = data[pos + 2 + j];
            proof {
                let pre = data@.subrange(pos + 2, pos + 2 + j);
                let post = data@.subrange(pos + 2, pos + 2 + j + 1);
                assert(post.drop_last() =~= pre);
                assert(post.last() == b);
                assert(pow256((j + 1) as nat) == 256 * pow256(j as nat));
                lemma_pow256_monotone((j + 1) as nat, 8);
                assert(pow256(8) == 0x10000000000000000) by {
                    reveal_with_fuel(pow256, 9);
                }
            }
            acc = acc * 256 + (b as u64);
            j = j + 1;
        }
        proof {
            assert(data@.subrange(pos + 2, pos + 2 + n) =~= lenb);
        }
        if n == 1 && acc < 0x80 {
            return Err(ParseError::MalformedEncoding);
        }
        let remaining: usize = end - (pos + 2 + n);
        if acc > remaining as u64 {
            return Err(ParseError::TruncatedInput);
        }
        let clen: usize = acc as usize;
        Ok((tag, pos + 2 + n, pos + 2 + n + clen))
    }
}

} // verus!
