//! Log records: the self-framing on-disk encoding of Set and Remove
//! entries, and the record sequence a whole segment decodes to.

use vstd::prelude::*;

use crate::codec::{dec_str, enc_str, lemma_dec_enc_str, lemma_dec_str_consumed,
    lemma_dec_str_prefix, push_str_field, read_str_field, str_fits};
use crate::error::DecodeKind;

verus! {

/// One log record as executable data.
#[derive(Debug, PartialEq, Eq)]
pub enum Record {
    /// A key was bound to a value.
    Put(String, String),
    /// A key was removed.
    Rm(String),
}

/// The mathematical shape of a record.
pub enum RecV {
    Put(Seq<char>, Seq<char>),
    Rm(Seq<char>),
}

impl View for Record {
    type V = RecV;

    open spec fn view(&self) -> RecV {
        match self {
            Record::Put(k, v) => RecV::Put(k@, v@),
            Record::Rm(k) => RecV::Rm(k@),
        }
    }
}

/// Whether every string field of the record is within the length cap.
pub open spec fn rec_fits(r: RecV) -> bool {
    match r {
        RecV::Put(k, v) => str_fits(k) && str_fits(v),
        RecV::Rm(k) => str_fits(k),
    }
}

/// The encoded bytes of a record: a tag byte, then each string field
/// length-prefixed.
pub open spec fn enc_rec(r: RecV) -> Seq<u8> {
    match r {
        RecV::Put(k, v) => seq![0u8] + enc_str(k) + enc_str(v),
        RecV::Rm(k) => seq![1u8] + enc_str(k),
    }
}

/// Decoding one record from the front of `b`: the record and the count
/// of bytes consumed, or the reason it fails.
pub open spec fn dec_rec(b: Seq<u8>) -> Result<(RecV, int), DecodeKind> {
    if b.len() < 1 {
        Err(DecodeKind::ShortRead)
    } else if b[0] == 0 {
        match dec_str(b.skip(1)) {
            Ok((k, n1)) => match dec_str(b.skip(1 + n1)) {
                Ok((v, n2)) => Ok((RecV::Put(k, v), 1 + n1 + n2)),
                Err(e) => Err(e),
            },
            Err(e) => Err(e),
        }
    } else if b[0] == 1 {
        match dec_str(b.skip(1)) {
            Ok((k, n1)) => Ok((RecV::Rm(k), 1 + n1)),
            Err(e) => Err(e),
        }
    } else {
        Err(DecodeKind::BadTag)
    }
}

/// A decoded record consumed at least a tag and one length prefix, and
/// no more than the input offers.
pub proof fn lemma_dec_rec_consumed(b: Seq<u8>)
    requires
        dec_rec(b) is Ok,
    ensures
        5 <= dec_rec(b)->Ok_0.1 <= b.len(),
{
    if b.len() >= 1 && (b[0] == 0 || b[0] == 1) {
        if dec_str(b.skip(1)) is Ok {
            lemma_dec_str_consumed(b.skip(1));
            let n1 = dec_str(b.skip(1))->Ok_0.1;
            if b[0] == 0 && dec_str(b.skip(1 + n1)) is Ok {
                lemma_dec_str_consumed(b.skip(1 + n1));
            }
        }
    }
}

/// Decoding undoes encoding for any in-cap record, whatever follows it.
pub proof fn lemma_dec_enc_rec(r: RecV, rest: Seq<u8>)
    requires
        rec_fits(r),
    ensures
        dec_rec(enc_rec(r) + rest) == Ok::<_, DecodeKind>((r, enc_rec(r).len() as int)),
{
    let whole = enc_rec(r) + rest;
    match r {
        RecV::Put(k, v) => {
            assert(whole.skip(1) =~= enc_str(k) + (enc_str(v) + rest));
            lemma_dec_enc_str(k, enc_str(v) + rest);
            let n1 = enc_str(k).len() as int;
            assert(whole.skip(1 + n1) =~= enc_str(v) + rest);
            lemma_dec_enc_str(v, rest);
        },
        RecV::Rm(k) => {
            assert(whole.skip(1) =~= enc_str(k) + rest);
            lemma_dec_enc_str(k, rest);
        },
    }
}

/// A successful record decode determines the bytes it consumed: they are
/// exactly the encoding of the decoded record, which is within the caps.
pub proof fn lemma_dec_rec_bytes(b: Seq<u8>)
    requires
        dec_rec(b) is Ok,
    ensures
        rec_fits(dec_rec(b)->Ok_0.0),
        enc_rec(dec_rec(b)->Ok_0.0) == b.subrange(0, dec_rec(b)->Ok_0.1),
        enc_rec(dec_rec(b)->Ok_0.0).len() == dec_rec(b)->Ok_0.1,
{
    let bt = b.skip(1);
    crate::codec::lemma_dec_str_bytes(bt);
    lemma_dec_str_consumed(bt);
    let n1 = dec_str(bt)->Ok_0.1;
    let k = dec_str(bt)->Ok_0.0;
    if b[0] == 0 {
        let bt2 = b.skip(1 + n1);
        crate::codec::lemma_dec_str_bytes(bt2);
        lemma_dec_str_consumed(bt2);
        let n2 = dec_str(bt2)->Ok_0.1;
        let v = dec_str(bt2)->Ok_0.0;
        assert(enc_rec(RecV::Put(k, v)) =~= b.subrange(0, 1 + n1 + n2)) by {
            assert(enc_str(k) == bt.subrange(0, n1));
            assert(enc_str(v) == bt2.subrange(0, n2));
            assert forall|i: int| 0 <= i < 1 + n1 + n2 implies (seq![b[0]] + enc_str(k)
                + enc_str(v))[i] == b[i] by {
                if 1 <= i < 1 + n1 {
                    assert(bt.subrange(0, n1)[i - 1] == bt[i - 1]);
                } else if 1 + n1 <= i {
                    assert(bt2.subrange(0, n2)[i - 1 - n1] == bt2[i - 1 - n1]);
                }
            }
        }
    } else {
        assert(enc_rec(RecV::Rm(k)) =~= b.subrange(0, 1 + n1)) by {
            assert(enc_str(k) == bt.subrange(0, n1));
            assert forall|i: int| 0 <= i < 1 + n1 implies (seq![b[0]] + enc_str(k))[i]
                == b[i] by {
                if 1 <= i {
                    assert(bt.subrange(0, n1)[i - 1] == bt[i - 1]);
                }
            }
        }
    }
}

/// A successful record decode is determined by the bytes it consumed:
/// any extension of those bytes decodes to the same record.
pub proof fn lemma_dec_rec_prefix(b: Seq<u8>, c: Seq<u8>)
    requires
        dec_rec(b) is Ok,
        c.len() >= dec_rec(b)->Ok_0.1,
        c.subrange(0, dec_rec(b)->Ok_0.1) == b.subrange(0, dec_rec(b)->Ok_0.1),
    ensures
        dec_rec(c) == dec_rec(b),
{
    let n = dec_rec(b)->Ok_0.1;
    lemma_dec_rec_consumed(b);
    assert forall|i: int| 0 <= i < n implies c[i] == b[i] by {
        assert(c.subrange(0, n)[i] == b.subrange(0, n)[i]);
    }
    assert(c[0] == b[0]);
    let bt = b.skip(1);
    let ct = c.skip(1);
    lemma_dec_str_consumed(bt);
    let n1 = dec_str(bt)->Ok_0.1;
    assert(ct.subrange(0, n1) =~= bt.subrange(0, n1));
    lemma_dec_str_prefix(bt, ct);
    if b[0] == 0 {
        let bt2 = b.skip(1 + n1);
        let ct2 = c.skip(1 + n1);
        lemma_dec_str_consumed(bt2);
        let n2 = dec_str(bt2)->Ok_0.1;
        assert(ct2.subrange(0, n2) =~= bt2.subrange(0, n2));
        lemma_dec_str_prefix(bt2, ct2);
    }
}

/// The records a whole segment decodes to, starting at `off`: each item
/// is a record, its byte offset, and its encoded length. `None` when the
/// bytes from `off` on do not parse as a run of records.
pub open spec fn rec_seq_from(b: Seq<u8>, off: int) -> Option<Seq<(RecV, int, int)>>
    decreases b.len() - off,
    when 0 <= off <= b.len()
{
    if off == b.len() {
        Some(Seq::empty())
    } else {
        match dec_rec(b.skip(off)) {
            Ok((r, n)) => if n < 1 || off + n > b.len() {
                None
            } else {
                match rec_seq_from(b, off + n) {
                    Some(rest) => Some(seq![(r, off, n)] + rest),
                    None => None,
                }
            },
            Err(_) => None,
        }
    }
}

/// The records of a whole segment.
pub open spec fn rec_seq(b: Seq<u8>) -> Option<Seq<(RecV, int, int)>> {
    rec_seq_from(b, 0)
}

/// Appending one well-formed record encoding to a segment that parses
/// extends its record sequence by exactly that record.
pub proof fn lemma_rec_seq_append_from(b: Seq<u8>, e: Seq<u8>, r: RecV, off: int)
    requires
        0 <= off <= b.len(),
        rec_seq_from(b, off) is Some,
        dec_rec(e) == Ok::<_, DecodeKind>((r, e.len() as int)),
    ensures
        rec_seq_from(b + e, off) == Some(
            rec_seq_from(b, off)->0.push((r, b.len() as int, e.len() as int)),
        ),
    decreases b.len() - off,
{
    let whole = b + e;
    lemma_dec_rec_consumed(e);
    if off == b.len() {
        assert(whole.skip(off) =~= e);
        assert(rec_seq_from(whole, off + e.len()) == Some(Seq::<(RecV, int, int)>::empty()));
        assert(rec_seq_from(whole, off) == Some(seq![(r, off, e.len() as int)]));
        assert(rec_seq_from(b, off)->0.push((r, b.len() as int, e.len() as int)) =~= seq![
            (r, off, e.len() as int),
        ]);
    } else {
        let bo = b.skip(off);
        let wo = whole.skip(off);
        let n0 = dec_rec(bo)->Ok_0.1;
        lemma_dec_rec_consumed(bo);
        assert(wo.len() >= n0);
        assert(wo.subrange(0, n0) =~= bo.subrange(0, n0));
        lemma_dec_rec_prefix(bo, wo);
        lemma_rec_seq_append_from(b, e, r, off + n0);
        let r0 = dec_rec(bo)->Ok_0.0;
        assert(rec_seq_from(whole, off) == Some(
            seq![(r0, off, n0)] + rec_seq_from(whole, off + n0)->0,
        ));
        assert(seq![(r0, off, n0)] + rec_seq_from(b, off + n0)->0.push(
            (r, b.len() as int, e.len() as int),
        ) =~= (seq![(r0, off, n0)] + rec_seq_from(b, off + n0)->0).push(
            (r, b.len() as int, e.len() as int),
        ));
    }
}

/// As `lemma_rec_seq_append_from`, for the whole segment.
pub proof fn lemma_rec_seq_append(b: Seq<u8>, e: Seq<u8>, r: RecV)
    requires
        rec_seq(b) is Some,
        dec_rec(e) == Ok::<_, DecodeKind>((r, e.len() as int)),
    ensures
        rec_seq(b + e) == Some(rec_seq(b)->0.push((r, b.len() as int, e.len() as int))),
{
    lemma_rec_seq_append_from(b, e, r, 0);
}

/// Encodes a Set record for `key` and `value`.
pub fn encode_put(key: &str, value: &str) -> (r: Vec<u8>)
    requires
        str_fits(key@),
        str_fits(value@),
    ensures
        r@ == enc_rec(RecV::Put(key@, value@)),
{
    let mut out: Vec<u8> = Vec::new();
    out.push(0);
    push_str_field(&mut out, key);
    push_str_field(&mut out, value);
    assert(out@ =~= enc_rec(RecV::Put(key@, value@)));
    out
}

/// Encodes a Remove record for `key`.
pub fn encode_rm(key: &str) -> (r: Vec<u8>)
    requires
        str_fits(key@),
    ensures
        r@ == enc_rec(RecV::Rm(key@)),
{
    let mut out: Vec<u8> = Vec::new();
    out.push(1);
    push_str_field(&mut out, key);
    assert(out@ =~= enc_rec(RecV::Rm(key@)));
    out
}

/// Decodes one record starting at `pos`, returning it and the position
/// just past it.
pub fn decode_record(buf: &[u8], pos: usize) -> (r: Result<(Record, usize), DecodeKind>)
    requires
        pos <= buf@.len(),
    ensures
        match r {
            Ok((rec, np)) => {
                &&& dec_rec(buf@.skip(pos as int)) == Ok::<_, DecodeKind>((rec@, np - pos as int))
                &&& pos < np <= buf@.len()
            },
            Err(k) => dec_rec(buf@.skip(pos as int)) == Err::<(RecV, int), _>(k),
        },
{
    let ghost tail = buf@.skip(pos as int);
    if buf.len() == pos {
        return Err(DecodeKind::ShortRead);
    }
    let tag = buf[pos];
    assert(tag == tail[0]);
    if tag == 0 {
        proof {
            assert(buf@.skip(pos as int + 1) =~= tail.skip(1));
        }
        match read_str_field(buf, pos + 1) {
            Ok((k, np1)) => {
                proof {
                    assert(buf@.skip(np1 as int) =~= tail.skip(1 + (np1 - (pos + 1))));
                }
                match read_str_field(buf, np1) {
                    Ok((v, np2)) => Ok((Record::Put(k, v), np2)),
                    Err(e) => Err(e),
                }
            },
            Err(e) => Err(e),
        }
    } else if tag == 1 {
        proof {
            assert(buf@.skip(pos as int + 1) =~= tail.skip(1));
        }
        match read_str_field(buf, pos + 1) {
            Ok((k, np1)) => Ok((Record::Rm(k), np1)),
            Err(e) => Err(e),
        }
    } else {
        Err(DecodeKind::BadTag)
    }
}

} // verus!
