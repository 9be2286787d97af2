//! The storage engine capability: what any backend must provide to
//! serve Set, Get and Remove.

use vstd::prelude::*;

use crate::error::Error;

verus! {

/// A key-value engine: a mutable mapping from string keys to string
/// values with explicit failure reporting.
pub trait KvsEngine: Sized {
    /// The backend's health invariant. Verified backends give this a
    /// real definition; it defaults to `true`.
    open spec fn inv(&self) -> bool {
        true
    }

    /// The mapping the backend currently holds. Verified backends give
    /// this a real definition.
    open spec fn kv(&self) -> Map<Seq<char>, Seq<char>> {
        Map::empty()
    }

    /// Binds `key` to `value`.
    fn set(&mut self, key: String, value: String) -> (r: Result<(), Error>)
        requires
            old(self).inv(),
        ensures
            final(self).inv(),
            r is Ok ==> final(self).kv() == old(self).kv().insert(key@, value@),
    ;

    /// Looks `key` up.
    fn get(&self, key: &str) -> (r: Result<Option<String>, Error>)
        requires
            self.inv(),
        ensures
            match r {
                Ok(Some(v)) => self.kv().contains_key(key@) && v@ == self.kv()[key@],
                Ok(None) => !self.kv().contains_key(key@),
                Err(_) => true,
            },
    ;

    /// Removes `key`; `RemoveNonexistKey` reports an absent key and is
    /// distinguished from backend failures.
    fn remove(&mut self, key: String) -> (r: Result<(), Error>)
        requires
            old(self).inv(),
        ensures
            final(self).inv(),
            r is Ok ==> old(self).kv().contains_key(key@) && final(self).kv() == old(
                self,
            ).kv().remove(key@),
            r == Err::<(), Error>(Error::RemoveNonexistKey) ==> !old(self).kv().contains_key(
                key@,
            ) && final(self).kv() == old(self).kv(),
    ;
}


/// Which backend serves a data directory.
#[derive(Clone, Copy, Debug, PartialEq, Eq, Structural)]
pub enum EngineKind {
    /// The log-structured store of this crate.
    Kvs,
    /// The embedded `sled` backend.
    Sled,
}

/// Which backend to open for a directory, given the backend named on
/// the command line (if any) and which backend's sentinel file the
/// directory holds. `None` means the request conflicts with the
/// directory's owner and must be refused.
pub fn choose_engine(
    specified: Option<EngineKind>,
    sled_marker: bool,
    kvs_marker: bool,
) -> (r: Option<EngineKind>)
    ensures
        r == if sled_marker {
            if specified == Some(EngineKind::Kvs) {
                None::<EngineKind>
            } else {
                Some(EngineKind::Sled)
            }
        } else if kvs_marker {
            if specified == Some(EngineKind::Sled) {
                None::<EngineKind>
            } else {
                Some(EngineKind::Kvs)
            }
        } else {
            match specified {
                Some(k) => Some(k),
                None => Some(EngineKind::Kvs),
            }
        },
{
    if sled_marker {
        if specified == Some(EngineKind::Kvs) {
            None
        } else {
            Some(EngineKind::Sled)
        }
    } else if kvs_marker {
        if specified == Some(EngineKind::Sled) {
            None
        } else {
            Some(EngineKind::Kvs)
        }
    } else {
        match specified {
            Some(k) => Some(k),
            None => Some(EngineKind::Kvs),
        }
    }
}

} // verus!
