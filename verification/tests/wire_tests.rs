//! Wire codec behavior: round trips, exact framing bytes, and each
//! decode failure.

use kvs::error::{DecodeKind, Error};
use kvs::wire::{Decoder, Encoder, Request, Response};

fn encode_request(req: Request) -> Vec<u8> {
    let mut enc = Encoder::new();
    enc.encode_request(req).expect("fields fit");
    enc.bytes().clone()
}

fn encode_response(resp: Response) -> Vec<u8> {
    let mut enc = Encoder::new();
    enc.encode_response(resp).expect("fields fit");
    enc.bytes().clone()
}

#[test]
fn request_set_round_trip() {
    let bytes = encode_request(Request::Put(String::from("k"), String::from("v")));
    let mut dec = Decoder::new(bytes);
    let back = dec.decode_request().expect("decodes");
    assert_eq!(back, Request::Put(String::from("k"), String::from("v")));
}

#[test]
fn request_get_round_trip() {
    let bytes = encode_request(Request::Get(String::from("k")));
    let mut dec = Decoder::new(bytes);
    assert_eq!(dec.decode_request().expect("decodes"), Request::Get(String::from("k")));
}

#[test]
fn request_rm_round_trip() {
    let bytes = encode_request(Request::Rm(String::from("some key")));
    let mut dec = Decoder::new(bytes);
    assert_eq!(dec.decode_request().expect("decodes"), Request::Rm(String::from("some key")));
}

#[test]
fn response_value_round_trip() {
    let bytes = encode_response(Response::Value(String::from("x")));
    let mut dec = Decoder::new(bytes);
    assert_eq!(dec.decode_response().expect("decodes"), Response::Value(String::from("x")));
}

#[test]
fn response_plain_round_trips() {
    let mut dec = Decoder::new(encode_response(Response::Done));
    assert_eq!(dec.decode_response().expect("decodes"), Response::Done);
    let mut dec = Decoder::new(encode_response(Response::NoKey));
    assert_eq!(dec.decode_response().expect("decodes"), Response::NoKey);
    let mut dec = Decoder::new(encode_response(Response::Fail));
    assert_eq!(dec.decode_response().expect("decodes"), Response::Fail);
    assert_eq!(encode_response(Response::Done), vec![1]);
    assert_eq!(encode_response(Response::NoKey), vec![2]);
    assert_eq!(encode_response(Response::Fail), vec![0xff]);
}

#[test]
fn request_framing_bytes_are_exact() {
    let bytes = encode_request(Request::Get(String::from("k")));
    assert_eq!(bytes, vec![1, 0, 0, 0, 1, b'k']);
    let bytes = encode_request(Request::Put(String::from("ab"), String::from("c")));
    assert_eq!(bytes, vec![0, 0, 0, 0, 2, b'a', b'b', 0, 0, 0, 1, b'c']);
}

#[test]
fn multibyte_field_uses_utf8_byte_length() {
    // One two-byte character: the length prefix counts bytes, not chars.
    let bytes = encode_response(Response::Value(String::from("\u{e9}")));
    assert_eq!(bytes, vec![0, 0, 0, 0, 2, 0xc3, 0xa9]);
    let mut dec = Decoder::new(bytes);
    assert_eq!(dec.decode_response().expect("decodes"), Response::Value(String::from("\u{e9}")));
}

#[test]
fn decode_empty_is_short_read() {
    let mut dec = Decoder::new(Vec::new());
    assert_eq!(dec.decode_request(), Err(Error::DecodeError(DecodeKind::ShortRead)));
    assert_eq!(dec.decode_response(), Err(Error::DecodeError(DecodeKind::ShortRead)));
}

#[test]
fn decode_bad_tag() {
    let mut dec = Decoder::new(vec![9, 0, 0, 0, 0]);
    assert_eq!(dec.decode_request(), Err(Error::DecodeError(DecodeKind::BadTag)));
    let mut dec = Decoder::new(vec![7]);
    assert_eq!(dec.decode_response(), Err(Error::DecodeError(DecodeKind::BadTag)));
}

#[test]
fn decode_truncated_field_is_short_read() {
    // Tag and length promise one byte more than is present.
    let mut dec = Decoder::new(vec![1, 0, 0, 0, 2, b'k']);
    assert_eq!(dec.decode_request(), Err(Error::DecodeError(DecodeKind::ShortRead)));
}

#[test]
fn decode_invalid_utf8_field() {
    let mut dec = Decoder::new(vec![1, 0, 0, 0, 1, 0xff]);
    assert_eq!(dec.decode_request(), Err(Error::DecodeError(DecodeKind::BadUtf8)));
}

#[test]
fn decode_oversized_length_is_capped() {
    // A length prefix beyond 2^31 is refused defensively; 2^31 itself
    // is within the cap and merely short here.
    let mut dec = Decoder::new(vec![1, 0x80, 0, 0, 1]);
    assert_eq!(dec.decode_request(), Err(Error::DecodeError(DecodeKind::LengthCap)));
    let mut dec = Decoder::new(vec![1, 0x80, 0, 0, 0]);
    assert_eq!(dec.decode_request(), Err(Error::DecodeError(DecodeKind::ShortRead)));
}

#[test]
fn decoder_consumes_messages_in_sequence() {
    let mut bytes = encode_request(Request::Get(String::from("a")));
    bytes.extend_from_slice(&encode_request(Request::Rm(String::from("b"))));
    let mut dec = Decoder::new(bytes);
    assert_eq!(dec.decode_request().expect("first"), Request::Get(String::from("a")));
    assert_eq!(dec.decode_request().expect("second"), Request::Rm(String::from("b")));
    assert_eq!(dec.decode_request(), Err(Error::DecodeError(DecodeKind::ShortRead)));
}
