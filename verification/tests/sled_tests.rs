//! The sled-backed engine, exercised against a real database.

use kvs::{Error, KvsEngine, SledKvsEngine};

#[test]
fn sled_set_get_remove() {
    let mut engine = SledKvsEngine::open("/tmp/kvs_sled_engine_test_db").expect("opens");
    engine.set(String::from("k"), String::from("v")).expect("set");
    assert_eq!(engine.get("k").expect("get"), Some(String::from("v")));
    engine.set(String::from("k"), String::from("w")).expect("overwrite");
    assert_eq!(engine.get("k").expect("get"), Some(String::from("w")));
    assert!(engine.remove(String::from("k")).is_ok());
    assert_eq!(engine.get("k").expect("get"), None);
    assert_eq!(engine.remove(String::from("k")), Err(Error::RemoveNonexistKey));
}

#[test]
fn sled_persists_across_reopen() {
    {
        let mut engine =
            SledKvsEngine::open("/tmp/kvs_sled_reopen_test_db").expect("opens");
        engine.set(String::from("stable"), String::from("value")).expect("set");
        engine.flush().expect("flush");
    }
    let engine = SledKvsEngine::open("/tmp/kvs_sled_reopen_test_db").expect("reopens");
    assert_eq!(engine.get("stable").expect("get"), Some(String::from("value")));
}
