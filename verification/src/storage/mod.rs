//! The storage engine's data model and rules.

pub mod bucket;
pub mod database;
pub mod fulltext;
pub mod graph;
pub mod json;
pub mod local;
pub mod node;
pub mod property_index;
pub mod tables;
pub mod tiered;
pub mod transaction;
pub mod value;
pub mod vector;
pub mod vector_index;

pub use bucket::BucketStorage;
pub use database::{Database, DatabaseConfig, DatabaseStatus, GraphView, KvView, SyncStats};
pub use graph::{Edge, Node};
pub use local::{LocalStorage, StorageStats};
pub use node::{EdgeId, InvalidId, NodeId, Timestamp};
pub use tables::TableOp;
pub use tiered::{NodeIndex, PayloadLocation, TieredConfig, TieredStats, TieredStorage};
pub use transaction::Transaction;
pub use value::{PropertyMap, Value};
pub use vector::{DistanceMetric, VectorNodeBuilder, VectorSearch};
pub use vector_index::{IndexStats, VectorIndex};
