//! A persistent, log-structured key-value store with a verified core.
//!
//! Keys and values are UTF-8 strings. The storage engine appends
//! self-framing records to bounded segments, keeps an in-memory key
//! directory, and compacts superseded records online. A byte-oriented
//! wire codec frames requests and responses for the client/server pair.

pub mod codec;
pub mod engine;
pub mod error;
pub mod kvstore;
pub mod laws;
pub mod record;
pub mod server;
pub mod sled_engine;
pub mod thread_pool;
pub mod wire;

pub use engine::{choose_engine, EngineKind, KvsEngine};
pub use error::{DecodeKind, Error, Result};
pub use kvstore::{DiskAction, KvStore, SegmentFile};
pub use server::KvsServer;
pub use sled_engine::SledKvsEngine;
pub use thread_pool::ThreadPool;
pub use wire::{Decoder, Encoder, Request, Response};

use vstd::prelude::*;

verus! {

/// Largest byte length accepted for one string field on the wire or in a
/// log record: two to the thirty-first power. Length prefixes are 4-byte
/// big-endian integers, capped defensively below `u32::MAX`.
pub const STR_LEN_CAP: usize = 0x8000_0000;

} // verus!
