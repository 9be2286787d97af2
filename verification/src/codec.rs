//! Byte-level framing primitives shared by the log-record codec and the
//! wire codec: 4-byte big-endian length prefixes and length-prefixed
//! UTF-8 string fields.

use vstd::prelude::*;
use vstd::utf8::{decode_utf8, encode_utf8, valid_utf8};

use crate::error::DecodeKind;
use crate::STR_LEN_CAP;

verus! {

/// The four big-endian bytes of `n`.
pub open spec fn be32(n: u32) -> Seq<u8> {
    seq![
        (n >> 24) as u8,
        ((n >> 16) & 0xff) as u8,
        ((n >> 8) & 0xff) as u8,
        (n & 0xff) as u8,
    ]
}

/// The value read back from four big-endian bytes.
pub open spec fn be32_val(b: Seq<u8>) -> u32
    recommends
        b.len() == 4,
{
    (((b[0] as u32) << 24) | ((b[1] as u32) << 16) | ((b[2] as u32) << 8) | (b[3] as u32)) as u32
}

pub proof fn lemma_be32_val_of_be32(n: u32)
    ensures
        be32_val(be32(n)) == n,
        be32(n).len() == 4,
{
    let b0 = (n >> 24) as u8;
    let b1 = ((n >> 16) & 0xff) as u8;
    let b2 = ((n >> 8) & 0xff) as u8;
    let b3 = (n & 0xff) as u8;
    assert((((b0 as u32) << 24) | ((b1 as u32) << 16) | ((b2 as u32) << 8) | (b3 as u32)) as u32
        == n) by (bit_vector)
        requires
            b0 == (n >> 24) as u8,
            b1 == ((n >> 16) & 0xff) as u8,
            b2 == ((n >> 8) & 0xff) as u8,
            b3 == (n & 0xff) as u8,
    ;
}

/// Reading four bytes back from their value restores them.
pub proof fn lemma_be32_of_val(b: Seq<u8>)
    requires
        b.len() == 4,
    ensures
        be32(be32_val(b)) == b,
{
    let n = be32_val(b);
    let b0 = b[0];
    let b1 = b[1];
    let b2 = b[2];
    let b3 = b[3];
    assert((n >> 24) as u8 == b0 && ((n >> 16) & 0xff) as u8 == b1 && ((n >> 8) & 0xff) as u8
        == b2 && (n & 0xff) as u8 == b3) by (bit_vector)
        requires
            n == (((b0 as u32) << 24) | ((b1 as u32) << 16) | ((b2 as u32) << 8) | (
            b3 as u32)) as u32,
    ;
    assert(be32(n) =~= b);
}

/// One length-prefixed string field: the byte length of the UTF-8
/// encoding, big-endian, then the bytes themselves.
pub open spec fn enc_str(s: Seq<char>) -> Seq<u8> {
    be32(encode_utf8(s).len() as u32) + encode_utf8(s)
}

/// Whether a string field is small enough for the defensive length cap.
pub open spec fn str_fits(s: Seq<char>) -> bool {
    encode_utf8(s).len() <= STR_LEN_CAP
}

/// Decoding one string field from the front of `b`: the characters and
/// the count of bytes consumed, or the reason it fails.
pub open spec fn dec_str(b: Seq<u8>) -> Result<(Seq<char>, int), DecodeKind> {
    if b.len() < 4 {
        Err(DecodeKind::ShortRead)
    } else {
        let n = be32_val(b.subrange(0, 4)) as int;
        if n > STR_LEN_CAP {
            Err(DecodeKind::LengthCap)
        } else if b.len() < 4 + n {
            Err(DecodeKind::ShortRead)
        } else if valid_utf8(b.subrange(4, 4 + n)) {
            Ok((decode_utf8(b.subrange(4, 4 + n)), 4 + n))
        } else {
            Err(DecodeKind::BadUtf8)
        }
    }
}

/// Decoding undoes encoding for any in-cap string, whatever follows it.
pub proof fn lemma_dec_enc_str(s: Seq<char>, rest: Seq<u8>)
    requires
        str_fits(s),
    ensures
        enc_str(s).len() == 4 + encode_utf8(s).len(),
        dec_str(enc_str(s) + rest) == Ok::<_, DecodeKind>((s, enc_str(s).len() as int)),
{
    broadcast use vstd::utf8::encode_utf8_valid_utf8, vstd::utf8::encode_utf8_decode_utf8;

    let bytes = encode_utf8(s);
    let n = bytes.len() as u32;
    lemma_be32_val_of_be32(n);
    let whole = enc_str(s) + rest;
    assert(whole.subrange(0, 4) =~= be32(n));
    assert(whole.subrange(4, 4 + n as int) =~= bytes);
}

/// A successful string decode is determined by the bytes it consumed:
/// any extension of those bytes decodes to the same field.
pub proof fn lemma_dec_str_prefix(b: Seq<u8>, c: Seq<u8>)
    requires
        dec_str(b) is Ok,
        c.len() >= dec_str(b)->Ok_0.1,
        c.subrange(0, dec_str(b)->Ok_0.1) == b.subrange(0, dec_str(b)->Ok_0.1),
    ensures
        dec_str(c) == dec_str(b),
{
    let n = dec_str(b)->Ok_0.1;
    assert forall|i: int| 0 <= i < n implies c[i] == b[i] by {
        assert(c.subrange(0, n)[i] == b.subrange(0, n)[i]);
    }
    assert(c.subrange(0, 4) =~= b.subrange(0, 4));
    assert(c.subrange(4, n) =~= b.subrange(4, n));
}

/// A successful string decode determines the bytes it consumed: they are
/// exactly the encoding of the decoded string, which is within the cap.
pub proof fn lemma_dec_str_bytes(b: Seq<u8>)
    requires
        dec_str(b) is Ok,
    ensures
        str_fits(dec_str(b)->Ok_0.0),
        enc_str(dec_str(b)->Ok_0.0) == b.subrange(0, dec_str(b)->Ok_0.1),
        dec_str(b)->Ok_0.1 == 4 + encode_utf8(dec_str(b)->Ok_0.0).len(),
{
    broadcast use vstd::utf8::decode_utf8_encode_utf8;

    let n = be32_val(b.subrange(0, 4)) as int;
    let bytes = b.subrange(4, 4 + n);
    let s = decode_utf8(bytes);
    assert(encode_utf8(s) == bytes);
    lemma_be32_of_val(b.subrange(0, 4));
    assert(be32(bytes.len() as u32) == b.subrange(0, 4));
    assert(enc_str(s) =~= b.subrange(0, 4 + n));
}

/// Whether two strings hold the same characters.
pub(crate) fn str_eq(a: &str, b: &str) -> (r: bool)
    ensures
        r == (a@ == b@),
{
    broadcast use vstd::utf8::encode_utf8_decode_utf8;

    let ab = a.as_bytes();
    let bb = b.as_bytes();
    if ab.len() != bb.len() {
        proof {
            assert(a@ != b@);
        }
        return false;
    }
    let mut i: usize = 0;
    while i < ab.len()
        invariant
            ab@ == encode_utf8(a@),
            bb@ == encode_utf8(b@),
            ab@.len() == bb@.len(),
            i <= ab@.len(),
            forall|j: int| 0 <= j < i ==> ab@[j] == bb@[j],
        decreases ab@.len() - i,
    {
        if ab[i] != bb[i] {
            proof {
                assert(encode_utf8(a@) != encode_utf8(b@));
            }
            return false;
        }
        i += 1;
    }
    proof {
        assert(encode_utf8(a@) =~= encode_utf8(b@));
        assert(decode_utf8(encode_utf8(a@)) == decode_utf8(encode_utf8(b@)));
    }
    true
}

/// A successful string decode consumes at least its length prefix and at
/// most the whole input.
pub proof fn lemma_dec_str_consumed(b: Seq<u8>)
    requires
        dec_str(b) is Ok,
    ensures
        4 <= dec_str(b)->Ok_0.1 <= b.len(),
{
}

/// The byte length of a string's UTF-8 encoding.
pub(crate) fn str_byte_len(s: &str) -> (n: usize)
    ensures
        n == encode_utf8(s@).len(),
{
    s.as_bytes().len()
}

/// Appends the four big-endian bytes of `n`.
pub(crate) fn push_be32(out: &mut Vec<u8>, n: u32)
    ensures
        final(out)@ == old(out)@ + be32(n),
{
    out.push((n >> 24) as u8);
    out.push(((n >> 16) & 0xff) as u8);
    out.push(((n >> 8) & 0xff) as u8);
    out.push((n & 0xff) as u8);
    assert(out@ =~= old(out)@ + be32(n));
}

/// Appends one length-prefixed string field.
pub(crate) fn push_str_field(out: &mut Vec<u8>, s: &str)
    requires
        str_fits(s@),
    ensures
        final(out)@ == old(out)@ + enc_str(s@),
{
    let bs = s.as_bytes();
    let n = bs.len();
    push_be32(out, n as u32);
    let mut i: usize = 0;
    while i < bs.len()
        invariant
            bs@ == encode_utf8(s@),
            n == bs@.len(),
            i <= bs@.len(),
            out@ == old(out)@ + be32(n as u32) + bs@.subrange(0, i as int),
        decreases bs@.len() - i,
    {
        out.push(bs[i]);
        i += 1;
        assert(out@ =~= old(out)@ + be32(n as u32) + bs@.subrange(0, i as int));
    }
    assert(bs@.subrange(0, bs@.len() as int) =~= bs@);
    assert(out@ =~= old(out)@ + enc_str(s@));
}

/// Relies on `String::from_utf8`: it succeeds exactly on valid UTF-8
/// input and returns the string those bytes encode.
#[verifier::external_body]
pub(crate) fn vec_to_string(v: Vec<u8>) -> (r: Option<String>)
    ensures
        r is Some <==> valid_utf8(v@),
        r is Some ==> r->0@ == decode_utf8(v@),
{
    String::from_utf8(v).ok()
}

/// Copies `buf[start..end]` into a fresh vector.
pub(crate) fn slice_range_to_vec(buf: &[u8], start: usize, end: usize) -> (r: Vec<u8>)
    requires
        start <= end <= buf@.len(),
    ensures
        r@ == buf@.subrange(start as int, end as int),
{
    let mut r: Vec<u8> = Vec::new();
    let mut i: usize = start;
    while i < end
        invariant
            start <= i <= end <= buf@.len(),
            r@ == buf@.subrange(start as int, i as int),
        decreases end - i,
    {
        r.push(buf[i]);
        i += 1;
        assert(r@ =~= buf@.subrange(start as int, i as int));
    }
    r
}

/// Reads one length-prefixed string field starting at `pos`, returning
/// the string and the position just past the field.
pub(crate) fn read_str_field(buf: &[u8], pos: usize) -> (r: Result<(String, usize), DecodeKind>)
    requires
        pos <= buf@.len(),
    ensures
        match r {
            Ok((s, np)) => {
                &&& dec_str(buf@.skip(pos as int)) == Ok::<_, DecodeKind>((s@, np - pos as int))
                &&& pos < np <= buf@.len()
            },
            Err(k) => dec_str(buf@.skip(pos as int)) == Err::<(Seq<char>, int), _>(k),
        },
{
    let ghost tail = buf@.skip(pos as int);
    if buf.len() - pos < 4 {
        return Err(DecodeKind::ShortRead);
    }
    let b0 = buf[pos];
    let b1 = buf[pos + 1];
    let b2 = buf[pos + 2];
    let b3 = buf[pos + 3];
    let n32: u32 = ((b0 as u32) << 24) | ((b1 as u32) << 16) | ((b2 as u32) << 8) | (b3 as u32);
    proof {
        assert(tail.subrange(0, 4)[0] == b0);
        assert(tail.subrange(0, 4)[1] == b1);
        assert(tail.subrange(0, 4)[2] == b2);
        assert(tail.subrange(0, 4)[3] == b3);
        assert(n32 == be32_val(tail.subrange(0, 4)));
        assert(n32 <= 0xffff_ffff) by (bit_vector);
    }
    let n = n32 as usize;
    if n > STR_LEN_CAP {
        return Err(DecodeKind::LengthCap);
    }
    if buf.len() - pos - 4 < n {
        return Err(DecodeKind::ShortRead);
    }
    let bytes = slice_range_to_vec(buf, pos + 4, pos + 4 + n);
    proof {
        assert(bytes@ =~= tail.subrange(4, 4 + n as int));
    }
    match vec_to_string(bytes) {
        Some(s) => Ok((s, pos + 4 + n)),
        None => Err(DecodeKind::BadUtf8),
    }
}

} // verus!
