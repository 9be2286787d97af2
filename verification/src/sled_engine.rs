//! An alternative backend: the same engine capability served by the
//! embedded `sled` database. The tree's contents are modeled as a map
//! from key bytes to value bytes; correctness of storage is delegated
//! to `sled` through the trusted contracts below.

use vstd::prelude::*;
use vstd::utf8::{decode_utf8, encode_utf8, valid_utf8};

use crate::engine::KvsEngine;
use crate::error::Error;

verus! {

#[verifier::external_type_specification]
#[verifier::external_body]
pub struct ExDb(sled::Db);

/// What the tree holds: a map from key bytes to value bytes.
pub uninterp spec fn sled_contents(db: sled::Db) -> Map<Seq<u8>, Seq<u8>>;

/// The string mapping a byte-keyed tree represents: the keys that are
/// UTF-8 encodings, with their values decoded.
pub open spec fn sled_kv(c: Map<Seq<u8>, Seq<u8>>) -> Map<Seq<char>, Seq<char>> {
    Map::new(
        |k: Seq<char>| c.contains_key(encode_utf8(k)),
        |k: Seq<char>| decode_utf8(c[encode_utf8(k)]),
    )
}

/// Inserting a string pair into the byte map inserts it into the string
/// mapping; removing removes it.
pub proof fn lemma_sled_kv_update(c: Map<Seq<u8>, Seq<u8>>, k: Seq<char>, v: Seq<char>)
    ensures
        sled_kv(c.insert(encode_utf8(k), encode_utf8(v))) == sled_kv(c).insert(k, v),
        sled_kv(c.remove(encode_utf8(k))) == sled_kv(c).remove(k),
{
    broadcast use vstd::utf8::encode_utf8_decode_utf8;

    assert forall|k2: Seq<char>| encode_utf8(k2) == encode_utf8(k) implies k2 == k by {
        assert(decode_utf8(encode_utf8(k2)) == k2);
    }
    assert(sled_kv(c.insert(encode_utf8(k), encode_utf8(v))) =~= sled_kv(c).insert(k, v));
    assert(sled_kv(c.remove(encode_utf8(k))) =~= sled_kv(c).remove(k));
}

/// Relies on `sled::open`: opens or creates the database rooted at
/// `path`. What it holds depends on the disk, so nothing is assumed of
/// the contents; a failure is rendered as text.
#[verifier::external_body]
fn sled_open(path: &str) -> (r: Result<sled::Db, String>) {
    sled::open(path).map_err(|e| format!("{e}"))
}

/// Relies on `sled::Tree::get`: returns the value bound to the key's
/// bytes, or `None` when absent.
#[verifier::external_body]
fn sled_get(db: &sled::Db, key: &str) -> (r: Result<Option<Vec<u8>>, String>)
    ensures
        match r {
            Ok(Some(v)) => sled_contents(*db).contains_key(encode_utf8(key@)) && v@
                == sled_contents(*db)[encode_utf8(key@)],
            Ok(None) => !sled_contents(*db).contains_key(encode_utf8(key@)),
            Err(_) => true,
        },
{
    db.get(key).map(|o| o.map(|iv| iv.to_vec())).map_err(|e| format!("{e}"))
}

/// Relies on `sled::Tree::insert`: binds the key's bytes to the value's
/// bytes and returns the value that was bound before. On failure
/// nothing is assumed of the contents.
#[verifier::external_body]
fn sled_insert(db: &mut sled::Db, key: &str, value: &str) -> (r: Result<
    Option<Vec<u8>>,
    String,
>)
    ensures
        match r {
            Ok(prev) => {
                &&& sled_contents(*final(db)) == sled_contents(*old(db)).insert(
                    encode_utf8(key@),
                    encode_utf8(value@),
                )
                &&& match prev {
                    Some(v) => sled_contents(*old(db)).contains_key(encode_utf8(key@)) && v@
                        == sled_contents(*old(db))[encode_utf8(key@)],
                    None => !sled_contents(*old(db)).contains_key(encode_utf8(key@)),
                }
            },
            Err(_) => true,
        },
{
    db.insert(key, value.as_bytes().to_vec()).map(|o| o.map(|iv| iv.to_vec())).map_err(
        |e| format!("{e}"),
    )
}

/// Relies on `sled::Tree::remove`: unbinds the key's bytes and returns
/// the value that was bound; removing an absent key changes nothing. On
/// failure nothing is assumed of the contents.
#[verifier::external_body]
fn sled_remove(db: &mut sled::Db, key: &str) -> (r: Result<Option<Vec<u8>>, String>)
    ensures
        match r {
            Ok(Some(v)) => sled_contents(*old(db)).contains_key(encode_utf8(key@)) && v@
                == sled_contents(*old(db))[encode_utf8(key@)] && sled_contents(*final(db))
                == sled_contents(*old(db)).remove(encode_utf8(key@)),
            Ok(None) => !sled_contents(*old(db)).contains_key(encode_utf8(key@))
                && sled_contents(*final(db)) == sled_contents(*old(db)),
            Err(_) => true,
        },
{
    db.remove(key).map(|o| o.map(|iv| iv.to_vec())).map_err(|e| format!("{e}"))
}

/// Relies on `sled::Tree::flush`: forces dirty state to disk without
/// changing what the tree holds.
#[verifier::external_body]
fn sled_flush(db: &mut sled::Db) -> (r: Result<usize, String>)
    ensures
        sled_contents(*final(db)) == sled_contents(*old(db)),
{
    db.flush().map_err(|e| format!("{e}"))
}

/// The engine served by an embedded `sled` database.
pub struct SledKvsEngine {
    db: sled::Db,
}

impl SledKvsEngine {
    /// Opens (or creates) the database rooted at `path`. An opened
    /// engine is ready for use; what it holds depends on the disk.
    pub fn open(path: &str) -> (r: Result<SledKvsEngine, Error>)
        ensures
            r matches Ok(e) ==> e.inv(),
    {
        match sled_open(path) {
            Ok(db) => Ok(SledKvsEngine { db }),
            Err(e) => Err(Error::BackendError(e)),
        }
    }

    /// Forces dirty state to disk; the mapping is unchanged.
    pub fn flush(&mut self) -> (r: Result<(), Error>)
        ensures
            final(self).kv() == old(self).kv(),
    {
        match sled_flush(&mut self.db) {
            Ok(_) => Ok(()),
            Err(e) => Err(Error::BackendError(e)),
        }
    }
}

impl KvsEngine for SledKvsEngine {
    /// The wrapped tree needs no extra health condition.
    closed spec fn inv(&self) -> bool {
        true
    }

    /// The string mapping the tree holds.
    closed spec fn kv(&self) -> Map<Seq<char>, Seq<char>> {
        sled_kv(sled_contents(self.db))
    }

    fn set(&mut self, key: String, value: String) -> (r: Result<(), Error>) {
        let ghost c0 = sled_contents(self.db);
        match sled_insert(&mut self.db, key.as_str(), value.as_str()) {
            Ok(_prev) => {
                proof {
                    lemma_sled_kv_update(c0, key@, value@);
                }
                match sled_flush(&mut self.db) {
                    Ok(_) => Ok(()),
                    Err(e) => Err(Error::BackendError(e)),
                }
            },
            Err(e) => Err(Error::BackendError(e)),
        }
    }

    fn get(&self, key: &str) -> (r: Result<Option<String>, Error>) {
        match sled_get(&self.db, key) {
            Ok(Some(bytes)) => {
                let ghost bv = bytes@;
                match crate::codec::vec_to_string(bytes) {
                    Some(s) => {
                        proof {
                            assert(self.kv().contains_key(key@));
                            assert(self.kv()[key@] == decode_utf8(bv));
                        }
                        Ok(Some(s))
                    },
                    None => Err(Error::NonUtf8),
                }
            },
            Ok(None) => Ok(None),
            Err(e) => Err(Error::BackendError(e)),
        }
    }

    fn remove(&mut self, key: String) -> (r: Result<(), Error>) {
        let ghost c0 = sled_contents(self.db);
        match sled_remove(&mut self.db, key.as_str()) {
            Ok(Some(_prev)) => {
                proof {
                    lemma_sled_kv_update(c0, key@, Seq::empty());
                }
                match sled_flush(&mut self.db) {
                    Ok(_) => Ok(()),
                    Err(e) => Err(Error::BackendError(e)),
                }
            },
            Ok(None) => Err(Error::RemoveNonexistKey),
            Err(e) => Err(Error::BackendError(e)),
        }
    }
}

} // verus!
