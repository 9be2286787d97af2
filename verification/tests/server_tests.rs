//! Request dispatch: the mapping from engine outcomes to wire responses.

use kvs::kvstore::{KvStore, TEST_COMPACT_THRESHOLD, TEST_MAX_SEGMENT_BYTES};
use kvs::{KvsServer, Request, Response};

fn server() -> KvsServer<KvStore> {
    let store = KvStore::open(Vec::new(), TEST_MAX_SEGMENT_BYTES, TEST_COMPACT_THRESHOLD)
        .expect("opens");
    KvsServer::new(store)
}

#[test]
fn set_then_get_through_dispatch() {
    let mut srv = server();
    let resp = srv.handle_request(Request::Put(String::from("k"), String::from("v")));
    assert_eq!(resp, Response::Done);
    let resp = srv.handle_request(Request::Get(String::from("k")));
    assert_eq!(resp, Response::Value(String::from("v")));
}

#[test]
fn get_absent_answers_no_key() {
    let mut srv = server();
    assert_eq!(srv.handle_request(Request::Get(String::from("nope"))), Response::NoKey);
}

#[test]
fn remove_present_and_absent() {
    let mut srv = server();
    srv.handle_request(Request::Put(String::from("k"), String::from("v")));
    assert_eq!(srv.handle_request(Request::Rm(String::from("k"))), Response::Done);
    assert_eq!(srv.handle_request(Request::Get(String::from("k"))), Response::NoKey);
    assert_eq!(srv.handle_request(Request::Rm(String::from("k"))), Response::NoKey);
}
