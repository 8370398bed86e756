//! AresaDB: the verified core of a multi-model database engine.
//!
//! The library holds the data structures, codecs, state machines and rules of the
//! engine. Reading and writing files, sockets and buckets is left to the program
//! around it.

pub mod cli;
pub mod client;
pub mod codec;
pub mod distributed;
pub mod facts;
pub mod float;
pub mod order;
pub mod output;
pub mod rag;
pub mod server;
pub mod storage;
pub mod tally;
pub mod text;

use vstd::prelude::*;

verus! {

/// Version of the on-disk format.
pub const FORMAT_VERSION: u32 = 1;

/// Number of rows that a query returns when no limit is given.
pub const DEFAULT_QUERY_LIMIT: usize = 1000;

/// Size of the payload cache in bytes.
pub const DEFAULT_CACHE_SIZE: usize = 104857600;

/// Number of shards of a distributed database.
pub const DEFAULT_SHARD_COUNT: usize = 16;

} // verus!
