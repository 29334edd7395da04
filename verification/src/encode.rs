use vstd::prelude::*;

use crate::error::ParseError;
use crate::extract::{
    spec_parse_precert_poison, spec_parse_spki_for_data, spec_parse_tls_feature,
};
use crate::prim::{
    bit_string_content_ok, oid_content_ok, spec_read_bit_string, spec_read_oid, spec_read_uint,
    spec_read_uint_seq_of, uint_content_ok, TAG_BIT_STRING, TAG_INTEGER, TAG_OBJECT_IDENTIFIER,
    TAG_SEQUENCE,
};
use crate::tlv::{
    be_value, lemma_be_value_bounds, lemma_be_value_leading_zero, lemma_pow256_monotone,
    lemma_read_tlv_ok_bounds, pow256, spec_read_tlv,
};

verus! {

/// The minimal big-endian byte string holding the value `v`: empty for
/// zero, otherwise with no leading zero byte.
pub open spec fn be_bytes(v: nat) -> Seq<u8>
    decreases v,
{
    if v == 0 {
        Seq::empty()
    } else {
        be_bytes(v / 256).push((v % 256) as u8)
    }
}

pub proof fn lemma_be_bytes_value(v: nat)
    ensures
        be_value(be_bytes(v)) == v,
        v > 0 ==> be_bytes(v).len() >= 1 && be_bytes(v)[0] != 0,
    decreases v,
{
    if v > 0 {
        lemma_be_bytes_value(v / 256);
        let b = be_bytes(v);
        assert(b.drop_last() =~= be_bytes(v / 256));
        assert(b.last() == (v % 256) as u8);
        if v / 256 > 0 {
            assert(b[0] == be_bytes(v / 256)[0]);
        }
    }
}

pub proof fn lemma_be_bytes_len(v: nat, k: nat)
    requires
        v < pow256(k),
    ensures
        be_bytes(v).len() <= k,
    decreases k,
{
    if v > 0 {
        assert(k > 0);
        assert(v / 256 < pow256((k - 1) as nat)) by {
            assert(v < 256 * pow256((k - 1) as nat));
        }
        lemma_be_bytes_len(v / 256, (k - 1) as nat);
    }
}

/// The content bytes of the DER INTEGER denoting the unsigned value `v`:
/// minimal, with a leading zero byte only to keep the high bit clear.
pub open spec fn enc_uint_content(v: u64) -> Seq<u8> {
    if v == 0 {
        seq![0u8]
    } else if be_bytes(v as nat)[0] >= 0x80 {
        seq![0u8] + be_bytes(v as nat)
    } else {
        be_bytes(v as nat)
    }
}

/// The DER length field for a content of `n` bytes: the short form below
/// 0x80, otherwise the minimal long form.
pub open spec fn enc_len(n: nat) -> Seq<u8> {
    if n < 0x80 {
        seq![n as u8]
    } else {
        seq![(0x80 + be_bytes(n).len()) as u8] + be_bytes(n)
    }
}

/// One encoded DER unit: tag, length field, content.
pub open spec fn enc_tlv(tag: u8, c: Seq<u8>) -> Seq<u8> {
    seq![tag] + enc_len(c.len()) + c
}

/// The encoding of one width-bounded unsigned INTEGER.
pub open spec fn enc_uint(v: u64) -> Seq<u8> {
    enc_tlv(TAG_INTEGER, enc_uint_content(v))
}

/// The encodings of a sequence of unsigned INTEGERs, concatenated.
pub open spec fn enc_uint_seq(vs: Seq<u64>) -> Seq<u8>
    decreases vs.len(),
{
    if vs.len() == 0 {
        Seq::empty()
    } else {
        enc_uint(vs[0]) + enc_uint_seq(vs.skip(1))
    }
}

/// The valid DER encoding of a TLS Feature extension holding `vs`.
pub open spec fn enc_tls_feature(vs: Seq<u64>) -> Seq<u8> {
    enc_tlv(TAG_SEQUENCE, enc_uint_seq(vs))
}

/// A minimal valid SubjectPublicKeyInfo: an AlgorithmIdentifier holding
/// only the OID content bytes `oid` and no parameters, then a byte-aligned
/// BIT STRING holding `key`.
pub open spec fn enc_spki(oid: Seq<u8>, key: Seq<u8>) -> Seq<u8> {
    enc_tlv(
        TAG_SEQUENCE,
        enc_tlv(TAG_SEQUENCE, enc_tlv(TAG_OBJECT_IDENTIFIER, oid)) + enc_tlv(
            TAG_BIT_STRING,
            seq![0u8] + key,
        ),
    )
}

/// A range of `s` equal to a concatenation splits into ranges equal to the
/// parts.
pub proof fn lemma_subrange_split(s: Seq<u8>, i: int, x: Seq<u8>, y: Seq<u8>)
    requires
        0 <= i,
        i + x.len() + y.len() <= s.len(),
        s.subrange(i, i + x.len() + y.len()) == x + y,
    ensures
        s.subrange(i, i + x.len()) == x,
        s.subrange(i + x.len(), i + x.len() + y.len()) == y,
{
    assert forall|k: int| 0 <= k < x.len() implies #[trigger] s.subrange(i, i + x.len())[k]
        == x[k] by {
        assert(s[i + k] == s.subrange(i, i + x.len() + y.len())[k]);
    }
    assert(s.subrange(i, i + x.len()) =~= x);
    assert forall|k: int| 0 <= k < y.len() implies #[trigger] s.subrange(
        i + x.len(),
        i + x.len() + y.len(),
    )[k] == y[k] by {
        assert(s[i + x.len() + k] == s.subrange(i, i + x.len() + y.len())[x.len() + k]);
        assert((x + y)[x.len() + k] == y[k]);
    }
    assert(s.subrange(i + x.len(), i + x.len() + y.len()) =~= y);
}

/// Reading at the start of an encoded unit recovers its tag and its content
/// range.
pub proof fn lemma_read_tlv_enc(s: Seq<u8>, i: int, end: int, tag: u8, c: Seq<u8>)
    requires
        0 <= i,
        c.len() < pow256(8),
        i + enc_tlv(tag, c).len() <= end <= s.len(),
        s.subrange(i, i + enc_tlv(tag, c).len()) == enc_tlv(tag, c),
    ensures
        enc_tlv(tag, c).len() == 1 + enc_len(c.len()).len() + c.len(),
        spec_read_tlv(s, i, end) == Ok::<(u8, int, int), ParseError>(
            (tag, i + 1 + enc_len(c.len()).len(), i + 1 + enc_len(c.len()).len() + c.len()),
        ),
        s.subrange(i + 1 + enc_len(c.len()).len(), i + 1 + enc_len(c.len()).len() + c.len()) == c,
{
    let el = enc_len(c.len());
    let e = enc_tlv(tag, c);
    let hdr = seq![tag] + el;
    assert(hdr + c =~= e);
    lemma_subrange_split(s, i, hdr, c);
    assert(s[i] == hdr[0]);
    assert(s[i + 1] == hdr[1]);
    if c.len() < 0x80 {
        assert(hdr[1] == el[0]);
    } else {
        let bb = be_bytes(c.len());
        let k = bb.len();
        lemma_be_bytes_value(c.len());
        lemma_be_bytes_len(c.len(), 8);
        assert(hdr[1] == el[0]);
        assert(el[0] == (0x80 + k) as u8);
        assert((0x80 + k) as u8 > 0x80);
        assert(s[i + 2] == hdr[2]);
        assert(hdr[2] == el[1]);
        assert(el[1] == bb[0]);
        assert forall|t: int| 0 <= t < k implies #[trigger] s.subrange(i + 2, i + 2 + k)[t]
            == bb[t] by {
            assert(s[i + 2 + t] == s.subrange(i, i + hdr.len())[2 + t]);
            assert(hdr[2 + t] == el[1 + t]);
            assert(el[1 + t] == bb[t]);
        }
        assert(s.subrange(i + 2, i + 2 + k) =~= bb);
        assert(be_value(s.subrange(i + 2, i + 2 + k)) == c.len());
    }
}

pub proof fn lemma_enc_uint_len(v: u64)
    ensures
        3 <= enc_uint(v).len() <= 11,
        enc_uint_content(v).len() <= 9,
        enc_uint(v).len() == 2 + enc_uint_content(v).len(),
{
    assert(pow256(8) == 0x10000000000000000) by {
        reveal_with_fuel(pow256, 9);
    }
    lemma_be_bytes_len(v as nat, 8);
    lemma_be_bytes_value(v as nat);
}

/// Reading at the start of an encoded unsigned INTEGER recovers its value.
pub proof fn lemma_read_uint_enc(s: Seq<u8>, i: int, end: int, v: u64)
    requires
        0 <= i,
        i + enc_uint(v).len() <= end <= s.len(),
        s.subrange(i, i + enc_uint(v).len()) == enc_uint(v),
    ensures
        spec_read_uint(s, i, end) == Ok::<(u64, int), ParseError>((v, i + enc_uint(v).len())),
{
    let c = enc_uint_content(v);
    lemma_enc_uint_len(v);
    assert(pow256(8) == 0x10000000000000000) by {
        reveal_with_fuel(pow256, 9);
    }
    assert(c.len() < pow256(8));
    lemma_be_bytes_value(v as nat);
    lemma_read_tlv_enc(s, i, end, TAG_INTEGER, c);
    if v == 0 {
        assert(be_value(c) == 0) by {
            assert(c.drop_last() =~= Seq::<u8>::empty());
            assert(be_value(Seq::<u8>::empty()) == 0);
            assert(c.last() == 0u8);
        }
        assert(uint_content_ok(c));
    } else if be_bytes(v as nat)[0] >= 0x80 {
        assert(c[0] == 0 && c[1] == be_bytes(v as nat)[0]);
        assert(c.skip(1) =~= be_bytes(v as nat));
        lemma_be_value_leading_zero(c);
        assert(be_value(c) == v);
        assert(uint_content_ok(c));
    } else {
        assert(c == be_bytes(v as nat));
        assert(be_value(c) == v);
        assert(uint_content_ok(c));
    }
}

/// Reading unsigned INTEGERs until an encoded concatenation is exhausted
/// recovers the encoded values in order.
pub proof fn lemma_read_uint_seq_enc(s: Seq<u8>, i: int, end: int, vs: Seq<u64>)
    requires
        0 <= i,
        end == i + enc_uint_seq(vs).len(),
        end <= s.len(),
        s.subrange(i, end) == enc_uint_seq(vs),
    ensures
        spec_read_uint_seq_of(s, i, end) == Ok::<Seq<u64>, ParseError>(vs),
    decreases vs.len(),
{
    if vs.len() == 0 {
        assert(vs =~= Seq::<u64>::empty());
    } else {
        let e0 = enc_uint(vs[0]);
        let rest = enc_uint_seq(vs.skip(1));
        assert(enc_uint_seq(vs) == e0 + rest);
        lemma_subrange_split(s, i, e0, rest);
        lemma_enc_uint_len(vs[0]);
        lemma_read_uint_enc(s, i, end, vs[0]);
        let j = i + e0.len();
        lemma_read_uint_seq_enc(s, j, end, vs.skip(1));
        assert(seq![vs[0]] + vs.skip(1) =~= vs);
    }
}

pub proof fn lemma_enc_uint_seq_len(vs: Seq<u64>)
    ensures
        enc_uint_seq(vs).len() <= 11 * vs.len(),
    decreases vs.len(),
{
    if vs.len() > 0 {
        lemma_enc_uint_len(vs[0]);
        lemma_enc_uint_seq_len(vs.skip(1));
    }
}

/// Round trip for the TLS Feature extension: every valid DER encoding of a
/// sequence of unsigned integers of at most 64 bits parses back to exactly
/// that sequence, in order; in particular the encoding of the empty
/// sequence parses to the empty result. The length bound only asks that
/// the encoding be addressable; any buffer that fits in memory is far
/// below it.
pub proof fn lemma_tls_feature_round_trip(vs: Seq<u64>)
    requires
        vs.len() < 0x0100000000000000,
    ensures
        spec_parse_tls_feature(enc_tls_feature(vs)) == Ok::<Seq<u64>, ParseError>(vs),
{
    let content = enc_uint_seq(vs);
    let s = enc_tls_feature(vs);
    lemma_enc_uint_seq_len(vs);
    assert(pow256(8) == 0x10000000000000000) by {
        reveal_with_fuel(pow256, 9);
    }
    assert(s.subrange(0, s.len() as int) =~= s);
    lemma_read_tlv_enc(s, 0, s.len() as int, TAG_SEQUENCE, content);
    let cs: int = (1 + enc_len(content.len()).len()) as int;
    let ce: int = cs + content.len();
    lemma_read_uint_seq_enc(s, cs, ce, vs);
}

pub proof fn lemma_enc_tlv_len(tag: u8, c: Seq<u8>)
    requires
        c.len() < pow256(8),
    ensures
        2 + c.len() <= enc_tlv(tag, c).len() <= 10 + c.len(),
{
    lemma_be_bytes_len(c.len(), 8);
    lemma_be_bytes_value(c.len());
}

/// Round trip for a minimal SubjectPublicKeyInfo: the envelope built around
/// one well-formed algorithm OID and a byte-aligned BIT STRING holding the
/// key bytes parses back to exactly those key bytes. The length bound only
/// asks that the encoding be addressable.
#[verifier::rlimit(100)]
pub proof fn lemma_spki_round_trip(oid: Seq<u8>, key: Seq<u8>)
    requires
        oid_content_ok(oid),
        oid.len() + key.len() < 0x0100000000000000,
    ensures
        spec_parse_spki_for_data(enc_spki(oid, key)) == Ok::<Seq<u8>, ParseError>(key),
{
    assert(pow256(8) == 0x10000000000000000) by {
        reveal_with_fuel(pow256, 9);
    }
    let inner = enc_tlv(TAG_OBJECT_IDENTIFIER, oid);
    let alg = enc_tlv(TAG_SEQUENCE, inner);
    let bc = seq![0u8] + key;
    let bs = enc_tlv(TAG_BIT_STRING, bc);
    let cc = alg + bs;
    let s = enc_spki(oid, key);
    let n: int = s.len() as int;
    lemma_enc_tlv_len(TAG_OBJECT_IDENTIFIER, oid);
    lemma_enc_tlv_len(TAG_SEQUENCE, inner);
    lemma_enc_tlv_len(TAG_BIT_STRING, bc);
    lemma_enc_tlv_len(TAG_SEQUENCE, cc);

    // The outer SEQUENCE spans the whole buffer.
    assert(s.subrange(0, n) =~= s);
    lemma_read_tlv_enc(s, 0, n, TAG_SEQUENCE, cc);
    let os: int = (1 + enc_len(cc.len()).len()) as int;
    let oe: int = os + cc.len();
    assert(oe == n);

    // Its content splits into the AlgorithmIdentifier and the BIT STRING.
    lemma_subrange_split(s, os, alg, bs);

    // The AlgorithmIdentifier holds exactly the OID.
    lemma_read_tlv_enc(s, os, oe, TAG_SEQUENCE, inner);
    let als: int = os + 1 + enc_len(inner.len()).len();
    let ale: int = als + inner.len();
    assert(ale == os + alg.len());
    lemma_read_tlv_enc(s, als, ale, TAG_OBJECT_IDENTIFIER, oid);
    let ocs: int = als + 1 + enc_len(oid.len()).len();
    let oce: int = ocs + oid.len();
    assert(oce == ale);
    assert(spec_read_oid(s, als, ale) == Ok::<int, ParseError>(ale));

    // No parameters remain, so skipping them succeeds at once.
    // The BIT STRING follows, byte-aligned, holding the key.
    lemma_read_tlv_enc(s, ale, oe, TAG_BIT_STRING, bc);
    let ds0: int = ale + 1 + enc_len(bc.len()).len();
    let de: int = ds0 + bc.len();
    assert(de == oe);
    assert(s.subrange(ds0, de) == bc);
    assert(bc[0] == 0u8);
    assert(bit_string_content_ok(bc));
    assert(s[ds0] == bc[0]);
    assert(spec_read_bit_string(s, ale, oe) == Ok::<(u8, int, int), ParseError>((0u8, ds0 + 1, de)));
    lemma_subrange_split(s, ds0, seq![0u8], key);
    assert(s.subrange(ds0 + 1, de) == key);
}

/// A byte string of value zero holds only zero bytes.
pub proof fn lemma_be_value_zero(c: Seq<u8>)
    requires
        be_value(c) == 0,
    ensures
        forall|k: int| 0 <= k < c.len() ==> c[k] == 0,
    decreases c.len(),
{
    if c.len() > 0 {
        let d = c.drop_last();
        lemma_be_value_zero(d);
        assert forall|k: int| 0 <= k < c.len() implies c[k] == 0 by {
            if k < c.len() - 1 {
                assert(c[k] == d[k]);
            } else {
                assert(c[k] == c.last());
            }
        }
    }
}

/// Reading back the value of a byte string with no leading zero recovers
/// the byte string: minimal big-endian form is unique.
pub proof fn lemma_be_bytes_of_be_value(b: Seq<u8>)
    requires
        b.len() == 0 || b[0] != 0,
    ensures
        be_bytes(be_value(b)) == b,
    decreases b.len(),
{
    if b.len() == 0 {
        assert(be_bytes(0) =~= Seq::<u8>::empty());
    } else {
        let d = b.drop_last();
        let v = be_value(b);
        if b.len() == 1 {
            assert(d =~= Seq::<u8>::empty());
            assert(be_value(d) == 0);
        } else {
            assert(d[0] == b[0]);
            lemma_be_value_bounds(d);
            lemma_pow256_monotone(1, (d.len() - 1) as nat + 1);
            assert(pow256(1) == 256) by {
                reveal_with_fuel(pow256, 2);
            }
        }
        lemma_be_bytes_of_be_value(d);
        assert(v == be_value(d) * 256 + b.last());
        assert(v > 0);
        assert(v / 256 == be_value(d) && v % 256 == b.last()) by (nonlinear_arith)
            requires
                v == be_value(d) * 256 + b.last(),
                0 <= b.last() < 256,
        ;
        assert(be_bytes(v) == be_bytes(v / 256).push((v % 256) as u8));
        assert(be_bytes(v) =~= b);
    }
}

/// A unit that reads successfully sits in canonical form: the bytes from
/// its tag to the end of its content are exactly the encoding of its tag
/// and content.
pub proof fn lemma_read_tlv_canonical(s: Seq<u8>, i: int, end: int)
    requires
        0 <= i <= end <= s.len(),
        spec_read_tlv(s, i, end) is Ok,
    ensures
        ({
            let (t, cs, ce) = spec_read_tlv(s, i, end)->Ok_0;
            s.subrange(i, ce) == enc_tlv(t, s.subrange(cs, ce))
        }),
{
    let (t, cs, ce) = spec_read_tlv(s, i, end)->Ok_0;
    let c = s.subrange(cs, ce);
    let lb: u8 = s[i + 1];
    lemma_read_tlv_ok_bounds(s, i, end);
    if lb < 0x80 {
        assert(c.len() == lb);
        assert(enc_len(c.len()) =~= seq![lb]);
        assert forall|k: int| 0 <= k < ce - i implies #[trigger] s.subrange(i, ce)[k] == (seq![t]
            + seq![lb] + c)[k] by {
            if k >= 2 {
                assert(c[k - 2] == s[cs + (k - 2)]);
            }
        }
        assert(s.subrange(i, ce) =~= seq![t] + seq![lb] + c);
    } else {
        let n: int = lb - 0x80;
        let b = s.subrange(i + 2, i + 2 + n);
        assert(b[0] == s[i + 2]);
        lemma_be_bytes_of_be_value(b);
        if n >= 2 {
            lemma_be_value_bounds(b);
            lemma_pow256_monotone(1, (n - 1) as nat);
            assert(pow256(1) == 256) by {
                reveal_with_fuel(pow256, 2);
            }
        }
        assert(c.len() == be_value(b));
        assert(c.len() >= 0x80);
        assert(be_bytes(c.len()) == b);
        assert(enc_len(c.len()) =~= seq![lb] + b);
        assert forall|k: int| 0 <= k < ce - i implies #[trigger] s.subrange(i, ce)[k] == (seq![t]
            + (seq![lb] + b) + c)[k] by {
            if 2 <= k < 2 + n {
                assert(b[k - 2] == s[i + k]);
            } else if k >= 2 + n {
                assert(c[k - 2 - n] == s[cs + (k - 2 - n)]);
            }
        }
        assert(s.subrange(i, ce) =~= seq![t] + (seq![lb] + b) + c);
    }
}

/// An unsigned INTEGER that reads successfully sits in canonical form.
pub proof fn lemma_read_uint_canonical(s: Seq<u8>, i: int, end: int)
    requires
        0 <= i <= end <= s.len(),
        spec_read_uint(s, i, end) is Ok,
    ensures
        ({
            let (v, j) = spec_read_uint(s, i, end)->Ok_0;
            s.subrange(i, j) == enc_uint(v)
        }),
{
    lemma_read_tlv_canonical(s, i, end);
    lemma_read_tlv_ok_bounds(s, i, end);
    let (t, cs, ce) = spec_read_tlv(s, i, end)->Ok_0;
    let c = s.subrange(cs, ce);
    let v: u64 = be_value(c) as u64;
    if c[0] == 0 {
        if c.len() == 1 {
            assert(be_value(c) == 0) by {
                assert(c.drop_last() =~= Seq::<u8>::empty());
                assert(be_value(Seq::<u8>::empty()) == 0);
            }
            assert(c =~= seq![0u8]);
        } else {
            // Minimal form forces the next byte to carry the high bit.
            lemma_be_value_leading_zero(c);
            assert(c.skip(1)[0] == c[1]);
            lemma_be_bytes_of_be_value(c.skip(1));
            lemma_be_value_bounds(c.skip(1));
            lemma_pow256_monotone(0, (c.skip(1).len() - 1) as nat);
            assert(v > 0);
            assert(be_bytes(v as nat)[0] >= 0x80);
            assert(seq![0u8] + c.skip(1) =~= c);
        }
    } else {
        lemma_be_bytes_of_be_value(c);
        lemma_be_value_bounds(c);
        lemma_pow256_monotone(0, (c.len() - 1) as nat);
        assert(v > 0);
        assert(be_bytes(v as nat)[0] < 0x80);
    }
    assert(c == enc_uint_content(v));
}

/// A SEQUENCE OF INTEGER body that reads successfully sits in canonical
/// form: its bytes are exactly the concatenated encodings of its values.
pub proof fn lemma_read_uint_seq_canonical(s: Seq<u8>, i: int, end: int)
    requires
        0 <= i <= end <= s.len(),
        spec_read_uint_seq_of(s, i, end) is Ok,
    ensures
        s.subrange(i, end) == enc_uint_seq(spec_read_uint_seq_of(s, i, end)->Ok_0),
    decreases end - i,
{
    let vs = spec_read_uint_seq_of(s, i, end)->Ok_0;
    if i >= end {
        assert(s.subrange(i, end) =~= Seq::<u8>::empty());
        assert(vs =~= Seq::<u64>::empty());
    } else {
        lemma_read_uint_canonical(s, i, end);
        let (v, j) = spec_read_uint(s, i, end)->Ok_0;
        lemma_read_uint_seq_canonical(s, j, end);
        let rest = spec_read_uint_seq_of(s, j, end)->Ok_0;
        assert(vs[0] == v);
        assert(vs.skip(1) =~= rest);
        assert(s.subrange(i, end) =~= s.subrange(i, j) + s.subrange(j, end));
    }
}

/// Strictness of the TLS Feature parser: it accepts exactly one byte string
/// per result. Whenever it succeeds, the input was the canonical DER
/// encoding of the returned sequence, so no non-canonical form is ever
/// accepted.
pub proof fn lemma_tls_feature_canonical(s: Seq<u8>)
    requires
        spec_parse_tls_feature(s) is Ok,
    ensures
        s == enc_tls_feature(spec_parse_tls_feature(s)->Ok_0),
{
    let n: int = s.len() as int;
    lemma_read_tlv_canonical(s, 0, n);
    lemma_read_tlv_ok_bounds(s, 0, n);
    let (t, cs, ce) = spec_read_tlv(s, 0, n)->Ok_0;
    lemma_read_uint_seq_canonical(s, cs, ce);
    assert(s.subrange(0, n) =~= s);
}

/// Strictness of the Precertificate Poison parser: it succeeds only on the
/// two exact bytes of an empty NULL.
pub proof fn lemma_precert_poison_canonical(s: Seq<u8>)
    requires
        spec_parse_precert_poison(s) is Ok,
    ensures
        s == seq![0x05u8, 0x00u8],
{
    let n: int = s.len() as int;
    lemma_read_tlv_canonical(s, 0, n);
    lemma_read_tlv_ok_bounds(s, 0, n);
    let (t, cs, ce) = spec_read_tlv(s, 0, n)->Ok_0;
    assert(s.subrange(cs, ce) =~= Seq::<u8>::empty());
    assert(enc_len(0) =~= seq![0u8]);
    assert(s.subrange(0, n) =~= s);
    assert(seq![0x05u8] + seq![0x00u8] + Seq::<u8>::empty() =~= seq![0x05u8, 0x00u8]);
}

} // verus!
