//! Wire protocol: requests and responses framed as one tag byte followed
//! by length-prefixed UTF-8 string fields, all integers big-endian.

use vstd::prelude::*;

use crate::codec::{dec_str, enc_str, lemma_dec_enc_str, push_str_field, read_str_field,
    str_fits};
use crate::error::{DecodeKind, Error};

verus! {

/// One client request.
#[derive(Debug, PartialEq, Eq)]
pub enum Request {
    /// Bind a key to a value.
    Put(String, String),
    /// Ask for the value of a key.
    Get(String),
    /// Remove a key.
    Rm(String),
}

/// The mathematical shape of a request: its fields as character sequences.
pub enum ReqV {
    Put(Seq<char>, Seq<char>),
    Get(Seq<char>),
    Rm(Seq<char>),
}

impl View for Request {
    type V = ReqV;

    open spec fn view(&self) -> ReqV {
        match self {
            Request::Put(k, v) => ReqV::Put(k@, v@),
            Request::Get(k) => ReqV::Get(k@),
            Request::Rm(k) => ReqV::Rm(k@),
        }
    }
}

/// One server response.
#[derive(Debug, PartialEq, Eq)]
pub enum Response {
    /// The value a Get found.
    Value(String),
    /// The operation succeeded with nothing to return.
    Done,
    /// The key was not present.
    NoKey,
    /// The server failed internally.
    Fail,
}

/// The mathematical shape of a response.
pub enum RespV {
    Value(Seq<char>),
    Done,
    NoKey,
    Fail,
}

impl View for Response {
    type V = RespV;

    open spec fn view(&self) -> RespV {
        match self {
            Response::Value(v) => RespV::Value(v@),
            Response::Done => RespV::Done,
            Response::NoKey => RespV::NoKey,
            Response::Fail => RespV::Fail,
        }
    }
}

/// Whether every string field of the request is within the length cap.
pub open spec fn req_fits(r: ReqV) -> bool {
    match r {
        ReqV::Put(k, v) => str_fits(k) && str_fits(v),
        ReqV::Get(k) => str_fits(k),
        ReqV::Rm(k) => str_fits(k),
    }
}

/// Whether every string field of the response is within the length cap.
pub open spec fn resp_fits(r: RespV) -> bool {
    match r {
        RespV::Value(v) => str_fits(v),
        _ => true,
    }
}

/// The encoded bytes of a request.
pub open spec fn enc_req(r: ReqV) -> Seq<u8> {
    match r {
        ReqV::Put(k, v) => seq![0u8] + enc_str(k) + enc_str(v),
        ReqV::Get(k) => seq![1u8] + enc_str(k),
        ReqV::Rm(k) => seq![2u8] + enc_str(k),
    }
}

/// The encoded bytes of a response.
pub open spec fn enc_resp(r: RespV) -> Seq<u8> {
    match r {
        RespV::Value(v) => seq![0u8] + enc_str(v),
        RespV::Done => seq![1u8],
        RespV::NoKey => seq![2u8],
        RespV::Fail => seq![0xffu8],
    }
}

/// Decoding one request from the front of `b`: the request and the count
/// of bytes consumed, or the reason it fails.
pub open spec fn dec_req(b: Seq<u8>) -> Result<(ReqV, int), DecodeKind> {
    if b.len() < 1 {
        Err(DecodeKind::ShortRead)
    } else if b[0] == 0 {
        match dec_str(b.skip(1)) {
            Ok((k, n1)) => match dec_str(b.skip(1 + n1)) {
                Ok((v, n2)) => Ok((ReqV::Put(k, v), 1 + n1 + n2)),
                Err(e) => Err(e),
            },
            Err(e) => Err(e),
        }
    } else if b[0] == 1 {
        match dec_str(b.skip(1)) {
            Ok((k, n1)) => Ok((ReqV::Get(k), 1 + n1)),
            Err(e) => Err(e),
        }
    } else if b[0] == 2 {
        match dec_str(b.skip(1)) {
            Ok((k, n1)) => Ok((ReqV::Rm(k), 1 + n1)),
            Err(e) => Err(e),
        }
    } else {
        Err(DecodeKind::BadTag)
    }
}

/// Decoding one response from the front of `b`.
pub open spec fn dec_resp(b: Seq<u8>) -> Result<(RespV, int), DecodeKind> {
    if b.len() < 1 {
        Err(DecodeKind::ShortRead)
    } else if b[0] == 0 {
        match dec_str(b.skip(1)) {
            Ok((v, n1)) => Ok((RespV::Value(v), 1 + n1)),
            Err(e) => Err(e),
        }
    } else if b[0] == 1 {
        Ok((RespV::Done, 1))
    } else if b[0] == 2 {
        Ok((RespV::NoKey, 1))
    } else if b[0] == 0xff {
        Ok((RespV::Fail, 1))
    } else {
        Err(DecodeKind::BadTag)
    }
}

/// Round trip on the wire: decoding an encoded request yields the same
/// request and consumes exactly its encoding, whatever bytes follow.
pub proof fn lemma_req_roundtrip(r: ReqV, rest: Seq<u8>)
    requires
        req_fits(r),
    ensures
        dec_req(enc_req(r) + rest) == Ok::<_, DecodeKind>((r, enc_req(r).len() as int)),
{
    let whole = enc_req(r) + rest;
    match r {
        ReqV::Put(k, v) => {
            assert(whole.skip(1) =~= enc_str(k) + (enc_str(v) + rest));
            lemma_dec_enc_str(k, enc_str(v) + rest);
            let n1 = enc_str(k).len() as int;
            assert(whole.skip(1 + n1) =~= enc_str(v) + rest);
            lemma_dec_enc_str(v, rest);
        },
        ReqV::Get(k) => {
            assert(whole.skip(1) =~= enc_str(k) + rest);
            lemma_dec_enc_str(k, rest);
        },
        ReqV::Rm(k) => {
            assert(whole.skip(1) =~= enc_str(k) + rest);
            lemma_dec_enc_str(k, rest);
        },
    }
}

/// Round trip on the wire for responses.
pub proof fn lemma_resp_roundtrip(r: RespV, rest: Seq<u8>)
    requires
        resp_fits(r),
    ensures
        dec_resp(enc_resp(r) + rest) == Ok::<_, DecodeKind>((r, enc_resp(r).len() as int)),
{
    let whole = enc_resp(r) + rest;
    match r {
        RespV::Value(v) => {
            assert(whole.skip(1) =~= enc_str(v) + rest);
            lemma_dec_enc_str(v, rest);
        },
        _ => {},
    }
}

/// Serializes requests and responses into an internal byte buffer.
pub struct Encoder {
    bytes: Vec<u8>,
}

impl View for Encoder {
    type V = Seq<u8>;

    closed spec fn view(&self) -> Seq<u8> {
        self.bytes@
    }
}

impl Encoder {
    /// An encoder with an empty buffer.
    pub fn new() -> (r: Encoder)
        ensures
            r@ == Seq::<u8>::empty(),
    {
        Encoder { bytes: Vec::new() }
    }

    /// The encoded bytes of the last message.
    pub fn bytes(&self) -> (r: &Vec<u8>)
        ensures
            r@ == self@,
    {
        &self.bytes
    }

    /// Fills the buffer with the encoding of `request`. Fails, leaving
    /// the buffer empty, exactly when a field exceeds the length cap.
    pub fn encode_request(&mut self, request: Request) -> (r: Result<(), Error>)
        ensures
            r is Ok <==> req_fits(request@),
            r is Ok ==> final(self)@ == enc_req(request@),
            r is Err ==> final(self)@.len() == 0 && r == Err::<(), Error>(
                Error::DecodeError(DecodeKind::LengthCap),
            ),
    {
        let ghost rv = request@;
        self.bytes.clear();
        match request {
            Request::Put(k, v) => {
                if crate::codec::str_byte_len(k.as_str()) > crate::STR_LEN_CAP
                    || crate::codec::str_byte_len(v.as_str()) > crate::STR_LEN_CAP {
                    return Err(Error::DecodeError(DecodeKind::LengthCap));
                }
                self.bytes.push(0);
                push_str_field(&mut self.bytes, k.as_str());
                push_str_field(&mut self.bytes, v.as_str());
                assert(self.bytes@ =~= enc_req(rv));
            },
            Request::Get(k) => {
                if crate::codec::str_byte_len(k.as_str()) > crate::STR_LEN_CAP {
                    return Err(Error::DecodeError(DecodeKind::LengthCap));
                }
                self.bytes.push(1);
                push_str_field(&mut self.bytes, k.as_str());
                assert(self.bytes@ =~= enc_req(rv));
            },
            Request::Rm(k) => {
                if crate::codec::str_byte_len(k.as_str()) > crate::STR_LEN_CAP {
                    return Err(Error::DecodeError(DecodeKind::LengthCap));
                }
                self.bytes.push(2);
                push_str_field(&mut self.bytes, k.as_str());
                assert(self.bytes@ =~= enc_req(rv));
            },
        }
        Ok(())
    }

    /// Fills the buffer with the encoding of `response`. Fails, leaving
    /// the buffer empty, exactly when the value exceeds the length cap.
    pub fn encode_response(&mut self, response: Response) -> (r: Result<(), Error>)
        ensures
            r is Ok <==> resp_fits(response@),
            r is Ok ==> final(self)@ == enc_resp(response@),
            r is Err ==> final(self)@.len() == 0 && r == Err::<(), Error>(
                Error::DecodeError(DecodeKind::LengthCap),
            ),
    {
        let ghost rv = response@;
        self.bytes.clear();
        match response {
            Response::Value(v) => {
                if crate::codec::str_byte_len(v.as_str()) > crate::STR_LEN_CAP {
                    return Err(Error::DecodeError(DecodeKind::LengthCap));
                }
                self.bytes.push(0);
                push_str_field(&mut self.bytes, v.as_str());
                assert(self.bytes@ =~= enc_resp(rv));
            },
            Response::Done => {
                self.bytes.push(1);
                assert(self.bytes@ =~= enc_resp(rv));
            },
            Response::NoKey => {
                self.bytes.push(2);
                assert(self.bytes@ =~= enc_resp(rv));
            },
            Response::Fail => {
                self.bytes.push(0xff);
                assert(self.bytes@ =~= enc_resp(rv));
            },
        }
        Ok(())
    }
}

/// Reads framed messages from a byte buffer, tracking how far it has
/// consumed it. Its view is the unread tail of the buffer.
pub struct Decoder {
    buf: Vec<u8>,
    pos: usize,
}

impl View for Decoder {
    type V = Seq<u8>;

    closed spec fn view(&self) -> Seq<u8> {
        self.buf@.skip(self.pos as int)
    }
}

impl Decoder {
    #[verifier::type_invariant]
    spec fn inv(self) -> bool {
        self.pos <= self.buf@.len()
    }

    /// A decoder over the given bytes.
    pub fn new(buf: Vec<u8>) -> (r: Decoder)
        ensures
            r@ == buf@,
    {
        let r = Decoder { buf, pos: 0 };
        assert(r.buf@.skip(0) =~= r.buf@);
        r
    }

    /// Decodes one request from the front of the unread bytes and
    /// consumes it. On failure nothing is consumed and the error tells
    /// exactly why the bytes do not frame a request.
    pub fn decode_request(&mut self) -> (r: Result<Request, Error>)
        ensures
            match r {
                Ok(req) => {
                    &&& dec_req(old(self)@) is Ok
                    &&& req@ == dec_req(old(self)@)->Ok_0.0
                    &&& final(self)@ == old(self)@.skip(dec_req(old(self)@)->Ok_0.1)
                },
                Err(e) => {
                    &&& dec_req(old(self)@) is Err
                    &&& e == Error::DecodeError(dec_req(old(self)@)->Err_0)
                    &&& final(self)@ == old(self)@
                },
            },
    {
        proof {
            use_type_invariant(&*self);
        }
        let ghost tail = self@;
        if self.buf.len() == self.pos {
            return Err(Error::DecodeError(DecodeKind::ShortRead));
        }
        let tag = self.buf[self.pos];
        assert(tag == tail[0]);
        if tag == 0 {
            proof {
                assert(self.buf@.skip(self.pos as int + 1) =~= tail.skip(1));
            }
            match read_str_field(self.buf.as_slice(), self.pos + 1) {
                Ok((k, np1)) => {
                    proof {
                        assert(self.buf@.skip(np1 as int) =~= tail.skip(
                            1 + (np1 - (self.pos + 1))));
                    }
                    match read_str_field(self.buf.as_slice(), np1) {
                        Ok((v, np2)) => {
                            let ghost n = np2 - self.pos;
                            self.pos = np2;
                            proof {
                                assert(self.buf@.skip(np2 as int) =~= tail.skip(n));
                            }
                            Ok(Request::Put(k, v))
                        },
                        Err(e) => Err(Error::DecodeError(e)),
                    }
                },
                Err(e) => Err(Error::DecodeError(e)),
            }
        } else if tag == 1 || tag == 2 {
            proof {
                assert(self.buf@.skip(self.pos as int + 1) =~= tail.skip(1));
            }
            match read_str_field(self.buf.as_slice(), self.pos + 1) {
                Ok((k, np1)) => {
                    let ghost n = np1 - self.pos;
                    self.pos = np1;
                    proof {
                        assert(self.buf@.skip(np1 as int) =~= tail.skip(n));
                    }
                    if tag == 1 {
                        Ok(Request::Get(k))
                    } else {
                        Ok(Request::Rm(k))
                    }
                },
                Err(e) => Err(Error::DecodeError(e)),
            }
        } else {
            Err(Error::DecodeError(DecodeKind::BadTag))
        }
    }

    /// Decodes one response from the front of the unread bytes and
    /// consumes it; the error cases mirror `decode_request`.
    pub fn decode_response(&mut self) -> (r: Result<Response, Error>)
        ensures
            match r {
                Ok(resp) => {
                    &&& dec_resp(old(self)@) is Ok
                    &&& resp@ == dec_resp(old(self)@)->Ok_0.0
                    &&& final(self)@ == old(self)@.skip(dec_resp(old(self)@)->Ok_0.1)
                },
                Err(e) => {
                    &&& dec_resp(old(self)@) is Err
                    &&& e == Error::DecodeError(dec_resp(old(self)@)->Err_0)
                    &&& final(self)@ == old(self)@
                },
            },
    {
        proof {
            use_type_invariant(&*self);
        }
        let ghost tail = self@;
        if self.buf.len() == self.pos {
            return Err(Error::DecodeError(DecodeKind::ShortRead));
        }
        let tag = self.buf[self.pos];
        assert(tag == tail[0]);
        if tag == 0 {
            proof {
                assert(self.buf@.skip(self.pos as int + 1) =~= tail.skip(1));
            }
            match read_str_field(self.buf.as_slice(), self.pos + 1) {
                Ok((v, np1)) => {
                    let ghost n = np1 - self.pos;
                    self.pos = np1;
                    proof {
                        assert(self.buf@.skip(np1 as int) =~= tail.skip(n));
                    }
                    Ok(Response::Value(v))
                },
                Err(e) => Err(Error::DecodeError(e)),
            }
        } else if tag == 1 || tag == 2 || tag == 0xff {
            self.pos = self.pos + 1;
            proof {
                assert(self.buf@.skip(self.pos as int) =~= tail.skip(1));
            }
            if tag == 1 {
                Ok(Response::Done)
            } else if tag == 2 {
                Ok(Response::NoKey)
            } else {
                Ok(Response::Fail)
            }
        } else {
            Err(Error::DecodeError(DecodeKind::BadTag))
        }
    }
}

} // verus!
