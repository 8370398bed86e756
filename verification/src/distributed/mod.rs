//! Data structures of the distributed mode.

pub mod bloom;
pub mod compression;
pub mod replication;
pub mod shard;
pub mod streaming;
pub mod wal;

pub use bloom::{BloomFilter, CountingBloomFilter};
pub use compression::{CompressionError, CompressionStats, Compressor, StreamingCompressor};
pub use replication::{
    ConsensusMessage, ReplicaConfig, ReplicaSet, ReplicaState, ReplicationCommand,
};
pub use shard::{ConsistentHashRing, ShardConfig, ShardManager, ShardStats};
pub use streaming::{BatchStep, BatchedStream, Cursor, ResultStream};
pub use wal::{WalEntry, WalEntryType, WalError, WriteAheadLog};
