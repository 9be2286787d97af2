//! Request dispatch: how one decoded request is executed against an
//! engine and answered, as the connection handler does over TCP.

use vstd::prelude::*;

use crate::engine::KvsEngine;
use crate::error::Error;
use crate::wire::{ReqV, Request, RespV, Response};

verus! {

/// The response owed to a Set outcome: Done on success, Fail on any
/// engine failure.
pub fn set_response(r: Result<(), Error>) -> (resp: Response)
    ensures
        resp@ == match r {
            Ok(_) => RespV::Done,
            Err(_) => RespV::Fail,
        },
{
    match r {
        Ok(()) => Response::Done,
        Err(_) => Response::Fail,
    }
}

/// The response owed to a Get outcome: the value when one was found,
/// NoKey when none was, Fail on any engine failure.
pub fn get_response(r: Result<Option<String>, Error>) -> (resp: Response)
    ensures
        resp@ == match r {
            Ok(Some(v)) => RespV::Value(v@),
            Ok(None) => RespV::NoKey,
            Err(_) => RespV::Fail,
        },
{
    match r {
        Ok(Some(value)) => Response::Value(value),
        Ok(None) => Response::NoKey,
        Err(_) => Response::Fail,
    }
}

/// The response owed to a Remove outcome: Done on success, NoKey when
/// the key was absent, Fail on any other engine failure.
pub fn rm_response(r: Result<(), Error>) -> (resp: Response)
    ensures
        resp@ == match r {
            Ok(_) => RespV::Done,
            Err(Error::RemoveNonexistKey) => RespV::NoKey,
            Err(_) => RespV::Fail,
        },
{
    match r {
        Ok(()) => Response::Done,
        Err(Error::RemoveNonexistKey) => Response::NoKey,
        Err(_) => Response::Fail,
    }
}

/// A server core: an engine handle and the rule mapping each request to
/// its response. The listener, the socket handling and the worker pool
/// live with the I/O outside the verified library.
pub struct KvsServer<E> {
    engine: E,
}

impl<E: KvsEngine> KvsServer<E> {
    /// The health of the held engine.
    pub closed spec fn engine_inv(&self) -> bool {
        self.engine.inv()
    }

    /// The mapping the held engine currently holds.
    pub closed spec fn kv(&self) -> Map<Seq<char>, Seq<char>> {
        self.engine.kv()
    }

    /// A server over the given engine.
    pub fn new(engine: E) -> (r: Self)
        ensures
            r.engine_inv() == engine.inv(),
            r.kv() == engine.kv(),
    {
        KvsServer { engine }
    }

    /// Executes one request and forms its response: a Set answers Done
    /// or Fail; a Get answers the value, NoKey, or Fail; a Remove
    /// answers Done, NoKey for an absent key, or Fail.
    pub fn handle_request(&mut self, request: Request) -> (resp: Response)
        requires
            old(self).engine_inv(),
        ensures
            final(self).engine_inv(),
            match request@ {
                ReqV::Put(k, v) => {
                    &&& (resp@ is Done || resp@ is Fail)
                    &&& resp@ is Done ==> final(self).kv() == old(self).kv().insert(k, v)
                },
                ReqV::Get(k) => {
                    &&& final(self).kv() == old(self).kv()
                    &&& match resp@ {
                        RespV::Value(v) => old(self).kv().contains_key(k) && v == old(
                            self,
                        ).kv()[k],
                        RespV::NoKey => !old(self).kv().contains_key(k),
                        RespV::Fail => true,
                        RespV::Done => false,
                    }
                },
                ReqV::Rm(k) => match resp@ {
                    RespV::Done => old(self).kv().contains_key(k) && final(self).kv() == old(
                        self,
                    ).kv().remove(k),
                    RespV::NoKey => !old(self).kv().contains_key(k) && final(self).kv() == old(
                        self,
                    ).kv(),
                    RespV::Fail => true,
                    RespV::Value(_) => false,
                },
            },
    {
        match request {
            Request::Put(key, value) => set_response(self.engine.set(key, value)),
            Request::Get(key) => get_response(self.engine.get(key.as_str())),
            Request::Rm(key) => rm_response(self.engine.remove(key)),
        }
    }
}

} // verus!
