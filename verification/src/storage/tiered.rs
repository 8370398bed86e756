//! Tiered storage: index records stay local, payloads may move to a bucket.

use vstd::prelude::*;

use super::fulltext::{fields_indexed, texts_countable};
use super::graph::{Edge, Node, NodeView};
use super::local::{tiered_inserted, tiered_updated, LocalStorage};
use super::node::{uuid_text, NodeId, Timestamp};
use super::property_index::{law_keys_are_distinct, property_entries, scoped_key, value_text};
use super::tables::{lemma_run_concat, lemma_run_push, run, TableOp, Tables};
use super::value::{PropertyMap, ValueView};
use crate::text::{copy_str, push_str};

verus! {

/// Where the payload of a node is kept.
#[derive(Debug, Clone, Copy, PartialEq, Eq, Structural)]
pub enum PayloadLocation {
    /// In the local payload table.
    Local,
    /// In the bucket.
    Cloud,
}

impl Default for PayloadLocation {
    fn default() -> (r: Self)
        ensures
            r == PayloadLocation::Local,
    {
        PayloadLocation::Local
    }
}

/// The record that is kept locally for every node.
#[derive(Debug)]
pub struct NodeIndex {
    /// Type of the node.
    pub node_type: String,
    /// When the node was created.
    pub created_at: Timestamp,
    /// When the node was last changed.
    pub updated_at: Timestamp,
    /// Where the payload is kept.
    pub payload_location: PayloadLocation,
    /// Size of the payload in bytes, up to the largest value that fits.
    pub payload_size: u32,
    /// Number of properties, up to the largest value that fits.
    pub property_count: u16,
}

/// An index record with its type as a sequence.
#[verifier::ext_equal]
pub struct IndexView {
    /// Type of the node.
    pub node_type: Seq<char>,
    /// When the node was created.
    pub created_at: Timestamp,
    /// When the node was last changed.
    pub updated_at: Timestamp,
    /// Where the payload is kept.
    pub payload_location: PayloadLocation,
    /// Size of the payload in bytes.
    pub payload_size: u32,
    /// Number of properties.
    pub property_count: u16,
}

impl View for NodeIndex {
    type V = IndexView;

    open spec fn view(&self) -> IndexView {
        IndexView {
            node_type: self.node_type@,
            created_at: self.created_at,
            updated_at: self.updated_at,
            payload_location: self.payload_location,
            payload_size: self.payload_size,
            property_count: self.property_count,
        }
    }
}

/// A size cut to what a record holds.
pub open spec fn recorded_size(n: nat) -> u32 {
    if n <= u32::MAX {
        n as u32
    } else {
        u32::MAX
    }
}

/// A count cut to what a record holds.
pub open spec fn recorded_count(n: nat) -> u16 {
    if n <= u16::MAX {
        n as u16
    } else {
        u16::MAX
    }
}

/// The index record of a node.
pub open spec fn index_of(
    node: NodeView,
    location: PayloadLocation,
    payload_size: nat,
    property_count: nat,
) -> IndexView {
    IndexView {
        node_type: node.node_type,
        created_at: node.created_at,
        updated_at: node.updated_at,
        payload_location: location,
        payload_size: recorded_size(payload_size),
        property_count: recorded_count(property_count),
    }
}

/// The node that an index record and properties make.
pub open spec fn node_of(
    index: IndexView,
    id: Seq<u8>,
    properties: Map<Seq<char>, ValueView>,
) -> NodeView {
    NodeView {
        id,
        node_type: index.node_type,
        properties,
        created_at: index.created_at,
        updated_at: index.updated_at,
    }
}

fn cut_size(n: usize) -> (r: u32)
    ensures
        r == recorded_size(n as nat),
{
    if (n as u64) <= 4294967295u64 {
        n as u32
    } else {
        u32::MAX
    }
}

fn cut_count(n: usize) -> (r: u16)
    ensures
        r == recorded_count(n as nat),
{
    if n <= 65535 {
        n as u16
    } else {
        u16::MAX
    }
}

impl NodeIndex {
    /// The index record of a node whose payload has a given size.
    pub fn from_node(node: &Node, location: PayloadLocation, payload_size: usize) -> (r: Self)
        ensures
            r@ == index_of(node@, location, payload_size as nat, node.properties@.len()),
    {
        NodeIndex {
            node_type: copy_str(node.node_type.as_str()),
            created_at: node.created_at,
            updated_at: node.updated_at,
            payload_location: location,
            payload_size: cut_size(payload_size),
            property_count: cut_count(node.properties.len()),
        }
    }

    /// The node that this record and properties make.
    pub fn to_node(&self, id: NodeId, properties: PropertyMap) -> (r: Node)
        ensures
            r@ == node_of(self@, id@, properties.map()),
    {
        Node {
            id,
            node_type: copy_str(self.node_type.as_str()),
            properties,
            created_at: self.created_at,
            updated_at: self.updated_at,
        }
    }

    /// A copy of the record.
    pub fn copy(&self) -> (r: Self)
        ensures
            r@ == self@,
    {
        NodeIndex {
            node_type: copy_str(self.node_type.as_str()),
            created_at: self.created_at,
            updated_at: self.updated_at,
            payload_location: self.payload_location,
            payload_size: self.payload_size,
            property_count: self.property_count,
        }
    }
}

/// A node reads back from its index record and its properties, wherever the payload is.
pub proof fn law_index_and_payload_make_the_node(
    node: NodeView,
    location: PayloadLocation,
    payload_size: nat,
    property_count: nat,
)
    ensures
        node_of(
            index_of(node, location, payload_size, property_count),
            node.id,
            node.properties,
        ) == node,
{
}

/// Configuration of tiered storage.
#[derive(Debug, Clone, Copy, PartialEq, Eq, Structural)]
pub struct TieredConfig {
    /// Size of the local payloads in bytes beyond which payloads move to the bucket.
    pub local_payload_max_bytes: u64,
    /// Payloads smaller than this stay local.
    pub min_cloud_payload_bytes: u32,
    /// Whether new payloads go to the bucket at once.
    pub write_through: bool,
    /// Whether the payloads of neighbours are read ahead.
    pub prefetch_on_traversal: bool,
    /// Size of the payload cache in bytes.
    pub cache_max_bytes: u64,
}

impl Default for TieredConfig {
    fn default() -> (r: Self)
        ensures
            r == (TieredConfig {
                local_payload_max_bytes: 1073741824,
                min_cloud_payload_bytes: 256,
                write_through: false,
                prefetch_on_traversal: true,
                cache_max_bytes: 104857600,
            }),
    {
        TieredConfig {
            local_payload_max_bytes: 1073741824,
            min_cloud_payload_bytes: 256,
            write_through: false,
            prefetch_on_traversal: true,
            cache_max_bytes: 104857600,
        }
    }
}

impl TieredConfig {
    /// The configuration of a database whose data is in a bucket: a larger cache.
    pub fn for_bucket() -> (r: Self)
        ensures
            r.cache_max_bytes == 524288000,
            r == (TieredConfig {
                local_payload_max_bytes: 1073741824,
                min_cloud_payload_bytes: 256,
                write_through: false,
                prefetch_on_traversal: true,
                cache_max_bytes: 524288000,
            }),
    {
        TieredConfig { cache_max_bytes: 524288000, ..TieredConfig::default() }
    }
}

/// Statistics of tiered storage.
#[derive(Debug, Clone, Copy, PartialEq, Eq, Structural)]
pub struct TieredStats {
    /// Number of local payloads.
    pub local_payload_count: u64,
    /// Number of payloads in the bucket.
    pub cloud_payload_count: u64,
    /// Size of the local payloads in bytes.
    pub local_payload_bytes: u64,
    /// Reads that the cache answered.
    pub cache_hits: u64,
    /// Reads that the cache did not answer.
    pub cache_misses: u64,
    /// Payloads read from the bucket.
    pub cloud_fetches: u64,
    /// Payloads written to the bucket.
    pub cloud_pushes: u64,
}

impl Default for TieredStats {
    fn default() -> (r: Self)
        ensures
            r == (TieredStats {
                local_payload_count: 0,
                cloud_payload_count: 0,
                local_payload_bytes: 0,
                cache_hits: 0,
                cache_misses: 0,
                cloud_fetches: 0,
                cloud_pushes: 0,
            }),
    {
        TieredStats {
            local_payload_count: 0,
            cloud_payload_count: 0,
            local_payload_bytes: 0,
            cache_hits: 0,
            cache_misses: 0,
            cloud_fetches: 0,
            cloud_pushes: 0,
        }
    }
}

/// Counters of tiered storage. Each starts over behind its largest value.
#[derive(Debug, Clone, Copy, PartialEq, Eq, Structural)]
pub struct TieredStorageStats {
    /// Reads that the cache answered.
    pub cache_hits: u64,
    /// Reads that the cache did not answer.
    pub cache_misses: u64,
    /// Payloads read from the bucket.
    pub cloud_fetches: u64,
    /// Payloads written to the bucket.
    pub cloud_pushes: u64,
}

impl TieredStorageStats {
    /// Counters at zero.
    pub fn new() -> (r: Self)
        ensures
            r == (TieredStorageStats {
                cache_hits: 0,
                cache_misses: 0,
                cloud_fetches: 0,
                cloud_pushes: 0,
            }),
    {
        TieredStorageStats { cache_hits: 0, cache_misses: 0, cloud_fetches: 0, cloud_pushes: 0 }
    }
}

/// A counter after one more event.
pub open spec fn counted_up(n: u64) -> u64 {
    if n == u64::MAX {
        0
    } else {
        (n + 1) as u64
    }
}

fn count_up(n: u64) -> (r: u64)
    ensures
        r == counted_up(n),
{
    if n == u64::MAX {
        0
    } else {
        n + 1
    }
}

/// A failure of tiered storage.
#[derive(Debug)]
pub enum TieredError {
    /// There is no node with this identifier.
    NodeNotFound(NodeId),
    /// There is no bucket.
    NoBucket,
    /// The payload of this node is not stored locally.
    PayloadNotLocal(NodeId),
    /// The payload of this node should be local and is missing.
    PayloadMissing(NodeId),
    /// The payload of this node is in a bucket, and there is none.
    NoBucketForPayload(NodeId),
}

impl TieredError {
    /// The message of the error.
    pub open spec fn text(&self) -> Seq<char> {
        match *self {
            TieredError::NodeNotFound(id) => "Node not found: "@ + uuid_text(id@),
            TieredError::NoBucket => "No cloud bucket configured"@,
            TieredError::PayloadNotLocal(id) => "Node payload not found locally: "@ + uuid_text(
                id@,
            ),
            TieredError::PayloadMissing(id) => "Local payload missing for node "@ + uuid_text(id@),
            TieredError::NoBucketForPayload(id) => "No cloud bucket for cloud-located payload of node "@
                + uuid_text(id@),
        }
    }

    /// The message of the error.
    pub fn message(&self) -> (r: String)
        ensures
            r@ == self.text(),
    {
        match self {
            TieredError::NodeNotFound(id) => {
                let mut m = copy_str("Node not found: ");
                push_str(&mut m, id.to_string().as_str());
                m
            },
            TieredError::NoBucket => copy_str("No cloud bucket configured"),
            TieredError::PayloadNotLocal(id) => {
                let mut m = copy_str("Node payload not found locally: ");
                push_str(&mut m, id.to_string().as_str());
                m
            },
            TieredError::PayloadMissing(id) => {
                let mut m = copy_str("Local payload missing for node ");
                push_str(&mut m, id.to_string().as_str());
                m
            },
            TieredError::NoBucketForPayload(id) => {
                let mut m = copy_str("No cloud bucket for cloud-located payload of node ");
                push_str(&mut m, id.to_string().as_str());
                m
            },
        }
    }
}

/// Where a payload is read.
#[derive(Debug, Clone, Copy, PartialEq, Eq, Structural)]
pub enum PayloadSource {
    /// From the cache.
    Cache,
    /// From the local payload table.
    Local,
    /// From the bucket.
    Bucket,
}

/// Name of a node's payload in the bucket.
pub open spec fn cloud_key(id: Seq<u8>) -> Seq<char> {
    "payloads/"@ + uuid_text(id)
}

/// Name of a node's payload in the cache.
pub open spec fn cache_key(id: Seq<u8>) -> Seq<char> {
    "p:"@ + uuid_text(id)
}

/// Name of a node's payload in the bucket.
pub fn payload_cloud_key(id: &NodeId) -> (r: String)
    ensures
        r@ == cloud_key(id@),
{
    let mut key = copy_str("payloads/");
    push_str(&mut key, id.to_string().as_str());
    key
}

/// Name of a node's payload in the cache.
pub fn payload_cache_key(id: &NodeId) -> (r: String)
    ensures
        r@ == cache_key(id@),
{
    let mut key = copy_str("p:");
    push_str(&mut key, id.to_string().as_str());
    key
}

/// The indexed fields of a type, as registered.
#[derive(Debug)]
pub struct IndexedFields {
    /// Fields with a property index.
    pub properties: Vec<String>,
    /// The texts that the values of those fields need.
    pub rendered: Vec<String>,
    /// Fields with a full-text index.
    pub fulltext: Vec<String>,
}

/// The tables with a node stored in two parts and entered into its indexes.
pub open spec fn node_stored(
    t: Tables,
    node: NodeView,
    property_count: nat,
    payload: Seq<u8>,
    indexed: IndexedFields,
) -> Tables {
    let x = index_of(node, PayloadLocation::Local, payload.len(), property_count);
    let u = tiered_inserted(t, node.id, x, payload);
    let w = Tables {
        properties: u.properties.union(
            property_entries(
                indexed.properties@,
                indexed.rendered@,
                node.node_type,
                node.properties,
                node.id,
            ),
        ),
        ..u
    };
    fields_indexed(w, node.id, node.node_type, indexed.fulltext@, node.properties)
}

/// The tables with some nodes stored in two parts and entered into their indexes, in order.
pub open spec fn nodes_stored(
    t: Tables,
    nodes: Seq<(Node, Vec<u8>)>,
    indexed: Seq<IndexedFields>,
) -> Tables
    decreases nodes.len(),
{
    if nodes.len() == 0 {
        t
    } else {
        let (n, payload) = nodes.last();
        node_stored(
            nodes_stored(t, nodes.drop_last(), indexed),
            n@,
            n.properties@.len(),
            payload@,
            indexed[nodes.len() - 1],
        )
    }
}

/// The fields of an updated node that have a property index, as registered.
#[derive(Debug)]
pub struct ReindexedFields {
    /// The fields.
    pub properties: Vec<String>,
    /// The texts that the values before the update need.
    pub before: Vec<String>,
    /// The texts that the values after the update need.
    pub after: Vec<String>,
}

/// The tables with an updated node stored in two parts and moved, in its property indexes, from
/// under its earlier values to under its new ones.
pub open spec fn node_updated(
    t: Tables,
    id: Seq<u8>,
    x: IndexView,
    payload: Seq<u8>,
    before: Map<Seq<char>, ValueView>,
    after: Map<Seq<char>, ValueView>,
    fields: ReindexedFields,
) -> Tables {
    let u = tiered_updated(t, id, x, payload, after);
    Tables {
        properties: u.properties.difference(
            property_entries(fields.properties@, fields.before@, x.node_type, before, id),
        ).union(property_entries(fields.properties@, fields.after@, x.node_type, after, id)),
        ..u
    }
}

/// An index record after an update of the properties.
pub open spec fn index_updated(
    x: IndexView,
    payload_size: nat,
    property_count: nat,
    now: Timestamp,
) -> IndexView {
    IndexView {
        updated_at: now,
        payload_location: PayloadLocation::Local,
        payload_size: recorded_size(payload_size),
        property_count: recorded_count(property_count),
        ..x
    }
}

/// The tables with an index record that points to a place, where there is one.
pub open spec fn relocated(
    t: Tables,
    id: Seq<u8>,
    index: Option<IndexView>,
    location: PayloadLocation,
) -> Tables {
    match index {
        Some(x) => Tables {
            indexes: t.indexes.insert(id, IndexView { payload_location: location, ..x }),
            ..t
        },
        None => t,
    }
}

/// The view of a record that may be there.
pub open spec fn index_view(x: Option<NodeIndex>) -> Option<IndexView> {
    match x {
        Some(i) => Some(i@),
        None => None,
    }
}

/// Tiered storage: the configuration, whether there is a bucket, and the counters.
#[derive(Debug)]
pub struct TieredStorage {
    /// The configuration.
    pub config: TieredConfig,
    /// Whether there is a bucket.
    pub bucket: bool,
    /// The counters.
    pub counters: TieredStorageStats,
}

impl TieredStorage {
    /// Tiered storage without a bucket.
    pub fn new(config: TieredConfig) -> (r: Self)
        ensures
            r.config == config,
            !r.bucket,
            r.counters == (TieredStorageStats {
                cache_hits: 0,
                cache_misses: 0,
                cloud_fetches: 0,
                cloud_pushes: 0,
            }),
    {
        TieredStorage { config, bucket: false, counters: TieredStorageStats::new() }
    }

    /// Tiered storage with a bucket.
    pub fn with_bucket(config: TieredConfig) -> (r: Self)
        ensures
            r.config == config,
            r.bucket,
            r.counters == (TieredStorageStats {
                cache_hits: 0,
                cache_misses: 0,
                cloud_fetches: 0,
                cloud_pushes: 0,
            }),
    {
        TieredStorage { config, bucket: true, counters: TieredStorageStats::new() }
    }

    /// Attaches a bucket.
    pub fn set_bucket(&mut self)
        ensures
            *final(self) == (TieredStorage { bucket: true, ..*old(self) }),
    {
        self.bucket = true;
    }

    /// Whether there is a bucket.
    pub fn has_bucket(&self) -> (r: bool)
        ensures
            r == self.bucket,
    {
        self.bucket
    }

    /// Statistics, with the number and size of the local payloads.
    pub fn stats(&self, payload_count: u64, payload_bytes: u64) -> (r: TieredStats)
        ensures
            r == (TieredStats {
                local_payload_count: payload_count,
                cloud_payload_count: 0,
                local_payload_bytes: payload_bytes,
                cache_hits: self.counters.cache_hits,
                cache_misses: self.counters.cache_misses,
                cloud_fetches: self.counters.cloud_fetches,
                cloud_pushes: self.counters.cloud_pushes,
            }),
    {
        TieredStats {
            local_payload_count: payload_count,
            cloud_payload_count: 0,
            local_payload_bytes: payload_bytes,
            cache_hits: self.counters.cache_hits,
            cache_misses: self.counters.cache_misses,
            cloud_fetches: self.counters.cloud_fetches,
            cloud_pushes: self.counters.cloud_pushes,
        }
    }

    /// Where a payload goes besides the local table: the bucket, if it is written through.
    pub open spec fn written_through(&self, id: Seq<u8>) -> Option<Seq<char>> {
        if self.config.write_through && self.bucket {
            Some(cloud_key(id))
        } else {
            None
        }
    }

    fn write_through(&self, id: &NodeId) -> (r: Option<String>)
        ensures
            text_view(r) == self.written_through(id@),
    {
        if self.config.write_through && self.bucket {
            Some(payload_cloud_key(id))
        } else {
            None
        }
    }

    /// Stores a node in two parts and enters it into its indexes; also the name under which
    /// its payload goes to the bucket, if it does.
    pub fn insert_node(
        &self,
        node: &Node,
        payload: &[u8],
        indexed: &IndexedFields,
    ) -> (r: (Vec<TableOp>, Option<String>))
        requires
            indexed.rendered@.len() == indexed.properties@.len(),
            texts_countable(indexed.fulltext@, node@.properties),
        ensures
            text_view(r.1) == self.written_through(node.id@),
            forall|t: Tables| #[trigger]
                run(t, r.0@) == node_stored(
                    t,
                    node@,
                    node.properties@.len(),
                    payload@,
                    *indexed,
                ),
    {
        let ops = TieredStorage::stored_with_indexes(node, payload, indexed);
        (ops, self.write_through(&node.id))
    }

    /// Stores a node in two parts and enters it into its indexes.
    fn stored_with_indexes(node: &Node, payload: &[u8], indexed: &IndexedFields) -> (r: Vec<
        TableOp,
    >)
        requires
            indexed.rendered@.len() == indexed.properties@.len(),
            texts_countable(indexed.fulltext@, node@.properties),
        ensures
            forall|t: Tables| #[trigger]
                run(t, r@) == node_stored(
                    t,
                    node@,
                    node.properties@.len(),
                    payload@,
                    *indexed,
                ),
    {
        let index = NodeIndex::from_node(node, PayloadLocation::Local, payload.len());
        let mut ops = LocalStorage::insert_node_tiered(node.id, &index, payload);
        let ghost a = ops@;
        let mut more = LocalStorage::update_property_indexes(
            node.id,
            node.node_type.as_str(),
            indexed.properties.as_slice(),
            indexed.rendered.as_slice(),
            &node.properties,
        );
        let ghost b = more@;
        let mut last = LocalStorage::update_fulltext_index(
            node.id,
            node.node_type.as_str(),
            indexed.fulltext.as_slice(),
            &node.properties,
        );
        let ghost c = last@;
        ops.append(&mut more);
        ops.append(&mut last);
        proof {
            assert forall|t: Tables| #[trigger] run(t, ops@) == node_stored(
                t,
                node@,
                node.properties@.len(),
                payload@,
                *indexed,
            ) by {
                lemma_run_concat(t, a + b, c);
                lemma_run_concat(t, a, b);
                assert(ops@ == a + b + c);
                assert(run(t, a) == tiered_inserted(t, node.id@, index@, payload@));
            }
        }
        ops
    }

    /// Stores some nodes in two parts and enters them into their indexes, in order.
    pub fn insert_nodes_batch(
        nodes: &[(Node, Vec<u8>)],
        indexed: &[IndexedFields],
    ) -> (r: Vec<TableOp>)
        requires
            indexed@.len() == nodes@.len(),
            forall|i: int|
                0 <= i < nodes@.len() ==> (#[trigger] indexed@[i]).rendered@.len()
                    == indexed@[i].properties@.len() && texts_countable(
                    indexed@[i].fulltext@,
                    nodes@[i].0@.properties,
                ),
        ensures
            forall|t: Tables| #[trigger] run(t, r@) == nodes_stored(t, nodes@, indexed@),
    {
        let mut ops: Vec<TableOp> = Vec::new();
        let mut i: usize = 0;
        while i < nodes.len()
            invariant
                i <= nodes@.len(),
                indexed@.len() == nodes@.len(),
                forall|k: int|
                    0 <= k < nodes@.len() ==> (#[trigger] indexed@[k]).rendered@.len()
                        == indexed@[k].properties@.len() && texts_countable(
                        indexed@[k].fulltext@,
                        nodes@[k].0@.properties,
                    ),
                forall|t: Tables| #[trigger]
                    run(t, ops@) == nodes_stored(t, nodes@.take(i as int), indexed@),
            decreases nodes@.len() - i,
        {
            let ghost before = ops@;
            let n = &nodes[i];
            let mut one = TieredStorage::stored_with_indexes(&n.0, n.1.as_slice(), &indexed[i]);
            let ghost added = one@;
            ops.append(&mut one);
            proof {
                let more = nodes@.take(i + 1);
                assert(more.drop_last() =~= nodes@.take(i as int));
                assert(more.last() == nodes@[i as int]);
                assert forall|t: Tables| #[trigger]
                    run(t, ops@) == nodes_stored(t, more, indexed@) by {
                    assert(run(t, before) == nodes_stored(t, nodes@.take(i as int), indexed@));
                    lemma_run_concat(t, before, added);
                    assert(run(run(t, before), added) == node_stored(
                        run(t, before),
                        n.0@,
                        n.0.properties@.len(),
                        n.1@,
                        indexed@[i as int],
                    ));
                }
            }
            i = i + 1;
        }
        assert(nodes@.take(i as int) =~= nodes@);
        ops
    }

    /// Where the payload of a node is read: in the cache if it is there, else where the index
    /// record says. Counts the hit or the miss.
    pub fn resolve_payload(&mut self, cached: bool, location: PayloadLocation) -> (r: PayloadSource)
        ensures
            r == (if cached {
                PayloadSource::Cache
            } else if location == PayloadLocation::Local {
                PayloadSource::Local
            } else {
                PayloadSource::Bucket
            }),
            final(self).config == old(self).config,
            final(self).bucket == old(self).bucket,
            final(self).counters == (if cached {
                TieredStorageStats {
                    cache_hits: counted_up(old(self).counters.cache_hits),
                    ..old(self).counters
                }
            } else {
                TieredStorageStats {
                    cache_misses: counted_up(old(self).counters.cache_misses),
                    ..old(self).counters
                }
            }),
    {
        if cached {
            self.counters.cache_hits = count_up(self.counters.cache_hits);
            PayloadSource::Cache
        } else {
            self.counters.cache_misses = count_up(self.counters.cache_misses);
            match location {
                PayloadLocation::Local => PayloadSource::Local,
                PayloadLocation::Cloud => PayloadSource::Bucket,
            }
        }
    }

    /// A local payload, which must be there.
    pub fn local_payload(id: NodeId, payload: Option<Vec<u8>>) -> (r: Result<Vec<u8>, TieredError>)
        ensures
            r == (match payload {
                Some(p) => Ok(p),
                None => Err::<Vec<u8>, TieredError>(TieredError::PayloadMissing(id)),
            }),
    {
        match payload {
            Some(p) => Ok(p),
            None => Err(TieredError::PayloadMissing(id)),
        }
    }

    /// Under which name a payload is read from the bucket.
    pub fn fetch_cloud_payload(&self, id: NodeId) -> (r: Result<String, TieredError>)
        ensures
            match r {
                Ok(key) => self.bucket && key@ == cloud_key(id@),
                Err(e) => !self.bucket && e == TieredError::NoBucketForPayload(id),
            },
    {
        if self.bucket {
            Ok(payload_cloud_key(&id))
        } else {
            Err(TieredError::NoBucketForPayload(id))
        }
    }

    /// Counts a payload that was read from the bucket.
    pub fn count_fetch(&mut self)
        ensures
            *final(self) == (TieredStorage {
                counters: TieredStorageStats {
                    cloud_fetches: counted_up(old(self).counters.cloud_fetches),
                    ..old(self).counters
                },
                ..*old(self)
            }),
    {
        self.counters.cloud_fetches = count_up(self.counters.cloud_fetches);
    }

    /// Counts a payload that was written to the bucket.
    pub fn count_push(&mut self)
        ensures
            *final(self) == (TieredStorage {
                counters: TieredStorageStats {
                    cloud_pushes: counted_up(old(self).counters.cloud_pushes),
                    ..old(self).counters
                },
                ..*old(self)
            }),
    {
        self.counters.cloud_pushes = count_up(self.counters.cloud_pushes);
    }

    /// A node from its index record and properties, or nothing where there is no record.
    pub fn get_node(
        id: NodeId,
        index: Option<&NodeIndex>,
        properties: PropertyMap,
    ) -> (r: Option<Node>)
        ensures
            match index {
                Some(x) => r is Some && r->0@ == node_of(x@, id@, properties.map()),
                None => r is None,
            },
    {
        match index {
            Some(x) => Some(x.to_node(id, properties)),
            None => None,
        }
    }

    /// The index record of a node that is to be updated, which must be there.
    pub fn find_for_update(id: NodeId, index: Option<NodeIndex>) -> (r: Result<
        NodeIndex,
        TieredError,
    >)
        ensures
            r == (match index {
                Some(x) => Ok(x),
                None => Err::<NodeIndex, TieredError>(TieredError::NodeNotFound(id)),
            }),
    {
        match index {
            Some(x) => Ok(x),
            None => Err(TieredError::NodeNotFound(id)),
        }
    }

    /// Stores a node whose properties were updated, and moves it in its property indexes from
    /// under its earlier values to under its new ones; also the node itself and the name under
    /// which its payload goes to the bucket, if it does.
    pub fn update_node(
        &self,
        id: NodeId,
        index: &NodeIndex,
        before: &PropertyMap,
        properties: PropertyMap,
        payload: &[u8],
        fields: &ReindexedFields,
        now: Timestamp,
    ) -> (r: (Node, Vec<TableOp>, Option<String>))
        requires
            fields.before@.len() == fields.properties@.len(),
            fields.after@.len() == fields.properties@.len(),
        ensures
            ({
                let x = index_updated(index@, payload@.len(), properties@.len(), now);
                &&& r.0@ == node_of(x, id@, properties.map())
                &&& text_view(r.2) == self.written_through(id@)
                &&& forall|t: Tables| #[trigger]
                    run(t, r.1@) == node_updated(
                        t,
                        id@,
                        x,
                        payload@,
                        before.map(),
                        properties.map(),
                        *fields,
                    )
            }),
    {
        let updated = NodeIndex {
            node_type: copy_str(index.node_type.as_str()),
            created_at: index.created_at,
            updated_at: now,
            payload_location: PayloadLocation::Local,
            payload_size: cut_size(payload.len()),
            property_count: cut_count(properties.len()),
        };
        let node = updated.to_node(id, properties.copy());
        let mut old_entries = LocalStorage::clear_property_indexes(
            id,
            index.node_type.as_str(),
            fields.properties.as_slice(),
            fields.before.as_slice(),
            before,
        );
        let mut new_entries = LocalStorage::update_property_indexes(
            id,
            index.node_type.as_str(),
            fields.properties.as_slice(),
            fields.after.as_slice(),
            &properties,
        );
        let ghost after = properties.map();
        let mut ops = LocalStorage::update_node_tiered(id, &updated, payload, properties);
        let ghost a = ops@;
        let ghost b = old_entries@;
        let ghost c = new_entries@;
        ops.append(&mut old_entries);
        ops.append(&mut new_entries);
        proof {
            assert forall|t: Tables| #[trigger] run(t, ops@) == node_updated(
                t,
                id@,
                updated@,
                payload@,
                before.map(),
                after,
                *fields,
            ) by {
                lemma_run_concat(t, a + b, c);
                lemma_run_concat(t, a, b);
                assert(ops@ == a + b + c);
                assert(run(t, a) == tiered_updated(t, id@, updated@, payload@, after));
            }
        }
        (node, ops, self.write_through(&id))
    }

    /// The name under which the bucket holds a removed node's payload, if there is a bucket.
    pub fn delete_node(&self, id: &NodeId) -> (r: Option<String>)
        ensures
            text_view(r) == (if self.bucket {
                Some(cloud_key(id@))
            } else {
                None
            }),
    {
        if self.bucket {
            Some(payload_cloud_key(id))
        } else {
            None
        }
    }

    /// Begins to move a payload to the bucket: the name to write it under. Fails without a
    /// bucket, and where the payload is not local.
    pub fn evict_to_cloud(&self, id: NodeId, stored: bool) -> (r: Result<String, TieredError>)
        ensures
            match r {
                Ok(key) => self.bucket && stored && key@ == cloud_key(id@),
                Err(e) => if !self.bucket {
                    e == TieredError::NoBucket
                } else {
                    !stored && e == TieredError::PayloadNotLocal(id)
                },
            },
    {
        if !self.bucket {
            return Err(TieredError::NoBucket);
        }
        if !stored {
            return Err(TieredError::PayloadNotLocal(id));
        }
        Ok(payload_cloud_key(&id))
    }

    /// Ends the move of a payload to the bucket, once it is written there.
    pub fn finish_eviction(id: NodeId, index: Option<NodeIndex>) -> (r: Vec<TableOp>)
        ensures
            forall|t: Tables| #[trigger]
                run(t, r@) == evicted(t, id@, index_view(index)),
    {
        broadcast use lemma_run_push;

        let mut ops: Vec<TableOp> = Vec::new();
        if let Some(x) = index {
            let mut x = x;
            x.payload_location = PayloadLocation::Cloud;
            ops.push(TableOp::PutIndex(id, x));
        }
        ops.push(TableOp::RemovePayload(id));
        ops
    }

    /// Brings a payload that was read from the bucket back to the local table.
    pub fn promote_to_local(id: NodeId, payload: &[u8], index: Option<NodeIndex>) -> (r: Vec<
        TableOp,
    >)
        ensures
            forall|t: Tables| #[trigger]
                run(t, r@) == promoted(t, id@, payload@, index_view(index)),
    {
        broadcast use lemma_run_push;

        let mut ops = LocalStorage::put_payload(id, payload);
        if let Some(x) = index {
            let mut x = x;
            x.payload_location = PayloadLocation::Local;
            ops.push(TableOp::PutIndex(id, x));
        }
        ops
    }

    /// The neighbours whose payloads are read ahead: where the edges that leave a node lead,
    /// unless reading ahead is off.
    pub fn prefetch_neighbors(&self, edges: &[Edge]) -> (r: Vec<NodeId>)
        ensures
            r@ == (if self.config.prefetch_on_traversal {
                edges@.map_values(|e: Edge| e.to)
            } else {
                Seq::empty()
            }),
    {
        let mut out: Vec<NodeId> = Vec::new();
        if !self.config.prefetch_on_traversal {
            return out;
        }
        let mut i: usize = 0;
        while i < edges.len()
            invariant
                i <= edges@.len(),
                out@ == edges@.take(i as int).map_values(|e: Edge| e.to),
            decreases edges@.len() - i,
        {
            out.push(edges[i].to);
            assert(out@ =~= edges@.take(i + 1).map_values(|e: Edge| e.to));
            i = i + 1;
        }
        assert(edges@.take(i as int) =~= edges@);
        out
    }

    /// Begins an eviction, or not: only with a bucket, and only where the local payloads are
    /// larger than allowed.
    pub fn run_eviction(&self, total_bytes: u64) -> (r: Option<EvictionRun>)
        ensures
            match r {
                Some(run) => self.bucket && total_bytes > self.config.local_payload_max_bytes
                    && run@ == (EvictionView {
                    target: self.config.local_payload_max_bytes * 80 / 100,
                    current: total_bytes as int,
                    position: 0,
                    evicted: 0,
                }),
                None => !self.bucket || total_bytes <= self.config.local_payload_max_bytes,
            },
    {
        if !self.bucket || total_bytes <= self.config.local_payload_max_bytes {
            return None;
        }
        let target: u128 = (self.config.local_payload_max_bytes as u128) * 80 / 100;
        assert(target == self.config.local_payload_max_bytes * 80 / 100);
        Some(
            EvictionRun { target: target as u64, current: total_bytes, position: 0, evicted: 0 },
        )
    }
}

/// The text of a string that may be there.
pub open spec fn text_view(s: Option<String>) -> Option<Seq<char>> {
    match s {
        Some(t) => Some(t@),
        None => None,
    }
}

/// The tables once a payload has moved to the bucket.
pub open spec fn evicted(t: Tables, id: Seq<u8>, index: Option<IndexView>) -> Tables {
    let u = relocated(t, id, index, PayloadLocation::Cloud);
    Tables { payloads: u.payloads.remove(id), ..u }
}

/// The tables once a payload has come back from the bucket.
pub open spec fn promoted(
    t: Tables,
    id: Seq<u8>,
    payload: Seq<u8>,
    index: Option<IndexView>,
) -> Tables {
    relocated(
        Tables { payloads: t.payloads.insert(id, payload), ..t },
        id,
        index,
        PayloadLocation::Local,
    )
}

/// The state of an eviction.
pub struct EvictionView {
    /// Size to come down to.
    pub target: int,
    /// Size of the payloads that are still local, as far as it is known.
    pub current: int,
    /// Number of candidates that were tried.
    pub position: int,
    /// Number of payloads that moved.
    pub evicted: int,
}

/// An eviction after one candidate was tried.
pub open spec fn eviction_step(v: EvictionView, size: u32, moved: bool) -> EvictionView {
    if moved {
        EvictionView {
            current: if v.current >= size {
                v.current - size
            } else {
                0
            },
            position: v.position + 1,
            evicted: v.evicted + 1,
            ..v
        }
    } else {
        EvictionView { position: v.position + 1, ..v }
    }
}

/// An eviction after some candidates were tried one after the other, up to the point where the
/// size is down.
pub open spec fn eviction_after(v: EvictionView, sizes: Seq<u32>, moved: Seq<bool>) -> EvictionView
    decreases sizes.len(),
{
    if sizes.len() == 0 || v.current <= v.target {
        v
    } else {
        eviction_after(eviction_step(v, sizes[0], moved[0]), sizes.skip(1), moved.skip(1))
    }
}

/// An eviction in progress: candidates are tried in order until the size is down.
#[derive(Debug)]
pub struct EvictionRun {
    target: u64,
    current: u64,
    position: usize,
    evicted: u64,
}

impl View for EvictionRun {
    type V = EvictionView;

    closed spec fn view(&self) -> EvictionView {
        EvictionView {
            target: self.target as int,
            current: self.current as int,
            position: self.position as int,
            evicted: self.evicted as int,
        }
    }
}

impl EvictionRun {
    /// The candidate to try next, if the size is not down and there is one left.
    pub fn next(&self, candidates: usize) -> (r: Option<usize>)
        ensures
            r == (if self@.current > self@.target && self@.position < candidates {
                Some(self@.position as usize)
            } else {
                None
            }),
    {
        if self.current > self.target && self.position < candidates {
            Some(self.position)
        } else {
            None
        }
    }

    /// Takes note of whether the payload of a candidate moved.
    pub fn report(&mut self, size: u32, moved: bool)
        requires
            old(self)@.position < usize::MAX,
            old(self)@.evicted <= old(self)@.position,
        ensures
            final(self)@ == eviction_step(old(self)@, size, moved),
            final(self)@.evicted <= final(self)@.position,
    {
        self.position = self.position + 1;
        if moved {
            self.evicted = self.evicted + 1;
            self.current = if self.current >= size as u64 {
                self.current - size as u64
            } else {
                0
            };
        }
    }

    /// Number of payloads that moved.
    pub fn evicted(&self) -> (r: u64)
        ensures
            r == self@.evicted,
    {
        self.evicted
    }
}

/// An eviction that stops has come down to its target or tried every candidate; it moved no
/// payload while the size was down already, and counts each payload that moved once.
pub proof fn law_eviction_reaches_its_target(
    v: EvictionView,
    sizes: Seq<u32>,
    moved: Seq<bool>,
)
    requires
        sizes.len() == moved.len(),
        0 <= v.target,
        0 <= v.current,
    ensures
        ({
            let w = eviction_after(v, sizes, moved);
            &&& w.current <= v.target || w.position == v.position + sizes.len()
            &&& w.target == v.target
            &&& 0 <= w.current <= v.current
            &&& v.position <= w.position <= v.position + sizes.len()
            &&& v.evicted <= w.evicted <= v.evicted + (w.position - v.position)
            &&& v.current <= v.target ==> w == v
        }),
    decreases sizes.len(),
{
    if sizes.len() > 0 && v.current > v.target {
        law_eviction_reaches_its_target(
            eviction_step(v, sizes[0], moved[0]),
            sizes.skip(1),
            moved.skip(1),
        );
    }
}

/// A payload that moves to the bucket and back leaves the tables as they were, where it was
/// local and its record said so.
pub proof fn law_promotion_undoes_eviction(t: Tables, id: Seq<u8>)
    requires
        t.indexes.dom().contains(id),
        t.indexes[id].payload_location == PayloadLocation::Local,
        t.payloads.dom().contains(id),
    ensures
        ({
            let u = evicted(t, id, Some(t.indexes[id]));
            promoted(u, id, t.payloads[id], Some(u.indexes[id])) == t
        }),
{
    let u = evicted(t, id, Some(t.indexes[id]));
    let w = promoted(u, id, t.payloads[id], Some(u.indexes[id]));
    assert(w.indexes =~= t.indexes);
    assert(w.payloads =~= t.payloads);
}

/// Moving a payload to the bucket changes nothing else: the node keeps its type, times and
/// counts, and no other node is touched.
pub proof fn law_eviction_moves_the_payload_only(t: Tables, id: Seq<u8>, other: Seq<u8>)
    requires
        t.indexes.dom().contains(id),
        other != id,
    ensures
        ({
            let u = evicted(t, id, Some(t.indexes[id]));
            &&& u.indexes[id] == (IndexView {
                payload_location: PayloadLocation::Cloud,
                ..t.indexes[id]
            })
            &&& !u.payloads.dom().contains(id)
            &&& u.indexes.dom().contains(other) == t.indexes.dom().contains(other)
            &&& t.indexes.dom().contains(other) ==> u.indexes[other] == t.indexes[other]
            &&& u.payloads.dom().contains(other) == t.payloads.dom().contains(other)
            &&& t.payloads.dom().contains(other) ==> u.payloads[other] == t.payloads[other]
            &&& u.nodes == t.nodes && u.edges == t.edges && u.node_types == t.node_types
        }),
{
}

/// A stored node reads back: its index record and payload are there, and together they make
/// the node.
pub proof fn law_stored_node_reads_back(
    t: Tables,
    node: NodeView,
    property_count: nat,
    payload: Seq<u8>,
    indexed: IndexedFields,
)
    ensures
        ({
            let u = node_stored(t, node, property_count, payload, indexed);
            &&& u.indexes.dom().contains(node.id)
            &&& u.indexes[node.id].payload_location == PayloadLocation::Local
            &&& u.payloads.dom().contains(node.id) && u.payloads[node.id] == payload
            &&& u.node_types.contains((node.node_type, node.id))
            &&& node_of(u.indexes[node.id], node.id, node.properties) == node
        }),
{
    let x = index_of(node, PayloadLocation::Local, payload.len(), property_count);
    let u = tiered_inserted(t, node.id, x, payload);
    let w = Tables {
        properties: u.properties.union(
            property_entries(
                indexed.properties@,
                indexed.rendered@,
                node.node_type,
                node.properties,
                node.id,
            ),
        ),
        ..u
    };
    lemma_indexing_keeps_the_rest(w, node.id, node.node_type, indexed.fulltext@, node.properties);
}

/// After an update a lookup by the new value of an indexed field finds the node.
pub proof fn law_updated_node_is_found_by_its_new_values(
    t: Tables,
    id: Seq<u8>,
    x: IndexView,
    payload: Seq<u8>,
    before: Map<Seq<char>, ValueView>,
    after: Map<Seq<char>, ValueView>,
    fields: ReindexedFields,
    i: int,
)
    requires
        0 <= i < fields.properties@.len(),
        after.dom().contains(fields.properties@[i]@),
    ensures
        ({
            let field = fields.properties@[i]@;
            let text = value_text(after[field], fields.after@[i]@);
            node_updated(t, id, x, payload, before, after, fields).properties.contains(
                (scoped_key(x.node_type, field, text), id),
            )
        }),
{
}

/// After an update a lookup by the earlier value of an indexed field does not find the node,
/// unless the field still has that value. The field is registered once, and type and fields
/// hold no NUL.
pub proof fn law_updated_node_leaves_its_earlier_values(
    t: Tables,
    id: Seq<u8>,
    x: IndexView,
    payload: Seq<u8>,
    before: Map<Seq<char>, ValueView>,
    after: Map<Seq<char>, ValueView>,
    fields: ReindexedFields,
    i: int,
)
    requires
        0 <= i < fields.properties@.len(),
        before.dom().contains(fields.properties@[i]@),
        !x.node_type.contains('\0'),
        forall|j: int|
            0 <= j < fields.properties@.len() ==> !(#[trigger] fields.properties@[j])@.contains(
                '\0',
            ),
        forall|j: int|
            0 <= j < fields.properties@.len() && j != i ==> (#[trigger] fields.properties@[j])@
                != fields.properties@[i]@,
        ({
            let field = fields.properties@[i]@;
            after.dom().contains(field) ==> value_text(after[field], fields.after@[i]@)
                != value_text(before[field], fields.before@[i]@)
        }),
    ensures
        ({
            let field = fields.properties@[i]@;
            let text = value_text(before[field], fields.before@[i]@);
            !node_updated(t, id, x, payload, before, after, fields).properties.contains(
                (scoped_key(x.node_type, field, text), id),
            )
        }),
{
    let field = fields.properties@[i]@;
    let text = value_text(before[field], fields.before@[i]@);
    let old_entry = (scoped_key(x.node_type, field, text), id);
    let new_entries = property_entries(
        fields.properties@,
        fields.after@,
        x.node_type,
        after,
        id,
    );
    if new_entries.contains(old_entry) {
        let j = choose|j: int|
            0 <= j < fields.properties@.len() && after.dom().contains(
                (#[trigger] fields.properties@[j])@,
            ) && old_entry.0 == scoped_key(
                x.node_type,
                fields.properties@[j]@,
                value_text(after[fields.properties@[j]@], fields.after@[j]@),
            );
        law_keys_are_distinct(
            x.node_type,
            field,
            text,
            x.node_type,
            fields.properties@[j]@,
            value_text(after[fields.properties@[j]@], fields.after@[j]@),
        );
        assert(j == i);
    }
}

/// An update leaves the entries of other nodes alone.
pub proof fn law_update_keeps_other_entries(
    t: Tables,
    id: Seq<u8>,
    x: IndexView,
    payload: Seq<u8>,
    before: Map<Seq<char>, ValueView>,
    after: Map<Seq<char>, ValueView>,
    fields: ReindexedFields,
    key: Seq<u8>,
    other: Seq<u8>,
)
    requires
        other != id,
    ensures
        node_updated(t, id, x, payload, before, after, fields).properties.contains((key, other))
            == t.properties.contains((key, other)),
{
}

proof fn lemma_indexing_keeps_properties(
    t: Tables,
    id: Seq<u8>,
    node_type: Seq<char>,
    fields: Seq<String>,
    properties: Map<Seq<char>, ValueView>,
)
    ensures
        fields_indexed(t, id, node_type, fields, properties).properties == t.properties,
    decreases fields.len(),
{
    if fields.len() > 0 {
        lemma_indexing_keeps_properties(t, id, node_type, fields.drop_last(), properties);
    }
}

/// A node that is stored in a batch is found by the values of its indexed fields.
pub proof fn law_batch_nodes_are_found(
    t: Tables,
    nodes: Seq<(Node, Vec<u8>)>,
    indexed: Seq<IndexedFields>,
    k: int,
    i: int,
)
    requires
        0 <= k < nodes.len(),
        0 <= i < indexed[k].properties@.len(),
        nodes[k].0@.properties.dom().contains(indexed[k].properties@[i]@),
    ensures
        ({
            let n = nodes[k].0@;
            let field = indexed[k].properties@[i]@;
            let text = value_text(n.properties[field], indexed[k].rendered@[i]@);
            nodes_stored(t, nodes, indexed).properties.contains(
                (scoped_key(n.node_type, field, text), n.id),
            )
        }),
    decreases nodes.len(),
{
    let head = nodes.drop_last();
    let (n, payload) = nodes.last();
    let last = indexed[nodes.len() - 1];
    let u = nodes_stored(t, head, indexed);
    let x = index_of(n@, PayloadLocation::Local, payload@.len(), n.properties@.len());
    let v = tiered_inserted(u, n.id@, x, payload@);
    let entries = property_entries(
        last.properties@,
        last.rendered@,
        n@.node_type,
        n@.properties,
        n.id@,
    );
    let w = Tables { properties: v.properties.union(entries), ..v };
    lemma_indexing_keeps_properties(w, n.id@, n@.node_type, last.fulltext@, n@.properties);
    if k < nodes.len() - 1 {
        assert(head[k] == nodes[k]);
        law_batch_nodes_are_found(t, head, indexed, k, i);
    }
}

proof fn lemma_indexing_keeps_the_rest(
    t: Tables,
    id: Seq<u8>,
    node_type: Seq<char>,
    fields: Seq<String>,
    properties: Map<Seq<char>, ValueView>,
)
    ensures
        ({
            let u = fields_indexed(t, id, node_type, fields, properties);
            u.indexes == t.indexes && u.payloads == t.payloads && u.node_types == t.node_types
        }),
    decreases fields.len(),
{
    if fields.len() > 0 {
        lemma_indexing_keeps_the_rest(t, id, node_type, fields.drop_last(), properties);
    }
}

/// A record keeps the sizes that it can hold, and the largest it can hold for larger ones; after
/// an update it has the new sizes and the time of the update, points to the local payload, and
/// keeps the rest.
pub proof fn law_records_keep_sizes(
    node: NodeView,
    location: PayloadLocation,
    size: nat,
    count: nat,
    x: IndexView,
    now: Timestamp,
)
    ensures
        ({
            let r = index_of(node, location, size, count);
            &&& size <= u32::MAX ==> r.payload_size == size
            &&& size > u32::MAX ==> r.payload_size == u32::MAX
            &&& count <= u16::MAX ==> r.property_count == count
            &&& count > u16::MAX ==> r.property_count == u16::MAX
            &&& r.payload_location == location
            &&& r.node_type == node.node_type
            &&& r.created_at == node.created_at && r.updated_at == node.updated_at
        }),
        ({
            let r = index_updated(x, size, count, now);
            &&& size <= u32::MAX ==> r.payload_size == size
            &&& size > u32::MAX ==> r.payload_size == u32::MAX
            &&& count <= u16::MAX ==> r.property_count == count
            &&& count > u16::MAX ==> r.property_count == u16::MAX
            &&& r.payload_location == PayloadLocation::Local
            &&& r.node_type == x.node_type
            &&& r.created_at == x.created_at && r.updated_at == now
        }),
{
}

/// Every candidate of an eviction is tried in turn while the size is above the target: one that
/// moved lowers the size by its own, and is counted; one that did not changes neither.
pub proof fn law_eviction_goes_on(v: EvictionView, size: u32, moved: bool, sizes: Seq<u32>, more: Seq<bool>)
    requires
        v.current > v.target,
    ensures
        ({
            let one = eviction_step(v, size, moved);
            &&& one.position == v.position + 1
            &&& one.target == v.target
            &&& moved ==> one.evicted == v.evicted + 1
            &&& moved && v.current >= size ==> one.current == v.current - size
            &&& moved && v.current < size ==> one.current == 0
            &&& !moved ==> one.evicted == v.evicted && one.current == v.current
            &&& eviction_after(v, seq![size] + sizes, seq![moved] + more) == eviction_after(
                one,
                sizes,
                more,
            )
        }),
{
    assert((seq![size] + sizes).skip(1) =~= sizes);
    assert((seq![moved] + more).skip(1) =~= more);
}

/// A stored node is found by the values of its indexed properties and by the tokens of its
/// indexed texts.
pub proof fn law_stored_node_is_found(
    t: Tables,
    node: NodeView,
    property_count: nat,
    payload: Seq<u8>,
    indexed: IndexedFields,
    i: int,
    k: int,
)
    ensures
        ({
            let u = node_stored(t, node, property_count, payload, indexed);
            let p = indexed.properties@;
            let f = indexed.fulltext@;
            &&& 0 <= i < p.len() && node.properties.dom().contains(p[i]@) ==> u.properties.contains(
                (
                    scoped_key(
                        node.node_type,
                        p[i]@,
                        value_text(node.properties[p[i]@], indexed.rendered@[i]@),
                    ),
                    node.id,
                ),
            )
            &&& 0 <= i < f.len() && node.properties.dom().contains(f[i]@) && (
            node.properties[f[i]@] matches ValueView::Text(s) && 0 <= k
                < super::fulltext::tokens(s).len()) ==> u.tokens.contains(
                (
                    scoped_key(
                        node.node_type,
                        f[i]@,
                        super::fulltext::tokens(node.properties[f[i]@]->Text_0)[k],
                    ),
                    node.id,
                ),
            )
        }),
{
    let x = index_of(node, PayloadLocation::Local, payload.len(), property_count);
    let u = tiered_inserted(t, node.id, x, payload);
    let entries = property_entries(
        indexed.properties@,
        indexed.rendered@,
        node.node_type,
        node.properties,
        node.id,
    );
    let w = Tables { properties: u.properties.union(entries), ..u };
    super::fulltext::law_indexed_fields_are_found(
        w,
        node.id,
        node.node_type,
        indexed.fulltext@,
        node.properties,
    );
    let p = indexed.properties@;
    if 0 <= i < p.len() && node.properties.dom().contains(p[i]@) {
        super::property_index::law_indexed_value_is_found(
            u,
            p,
            indexed.rendered@,
            node.node_type,
            node.properties,
            node.id,
            i,
        );
    }
    let f = indexed.fulltext@;
    if 0 <= i < f.len() && node.properties.dom().contains(f[i]@)
        && node.properties[f[i]@] is Text {
        let words = super::fulltext::tokens(node.properties[f[i]@]->Text_0);
        assert(words[k] == words[k]);
    }
}

/// Nodes that are stored together all read back, where their identifiers differ.
pub proof fn law_batch_nodes_read_back(
    t: Tables,
    nodes: Seq<(Node, Vec<u8>)>,
    indexed: Seq<IndexedFields>,
    k: int,
)
    requires
        0 <= k < nodes.len(),
        forall|a: int, b: int|
            0 <= a < b < nodes.len() ==> (#[trigger] nodes[a]).0@.id != (#[trigger] nodes[b]).0@.id,
    ensures
        ({
            let u = nodes_stored(t, nodes, indexed);
            let n = nodes[k].0@;
            &&& u.indexes.dom().contains(n.id)
            &&& node_of(u.indexes[n.id], n.id, n.properties) == n
            &&& u.indexes[n.id].payload_location == PayloadLocation::Local
            &&& u.payloads.dom().contains(n.id) && u.payloads[n.id] == nodes[k].1@
            &&& u.node_types.contains((n.node_type, n.id))
        }),
    decreases nodes.len(),
{
    let head = nodes.drop_last();
    let last = nodes.len() - 1;
    let h = nodes_stored(t, head, indexed);
    let m = nodes[last].0@;
    law_stored_node_reads_back(
        h,
        m,
        nodes[last].0.properties@.len(),
        nodes[last].1@,
        indexed[last],
    );
    if k < last {
        assert(head[k] == nodes[k]);
        assert forall|a: int, b: int| 0 <= a < b < head.len() implies (#[trigger] head[a]).0@.id != (
        #[trigger] head[b]).0@.id by {
            assert(nodes[a].0@.id != nodes[b].0@.id);
        }
        law_batch_nodes_read_back(t, head, indexed, k);
        assert(nodes[k].0@.id != nodes[last].0@.id);
        let x = index_of(
            m,
            PayloadLocation::Local,
            nodes[last].1@.len(),
            nodes[last].0.properties@.len(),
        );
        let u = tiered_inserted(h, m.id, x, nodes[last].1@);
        let w = Tables {
            properties: u.properties.union(
                property_entries(
                    indexed[last].properties@,
                    indexed[last].rendered@,
                    m.node_type,
                    m.properties,
                    m.id,
                ),
            ),
            ..u
        };
        super::fulltext::law_indexed_fields_are_found(
            w,
            m.id,
            m.node_type,
            indexed[last].fulltext@,
            m.properties,
        );
    }
}

/// Counters count every event, and start again at 0 behind the greatest number. A payload has
/// one name in the bucket and another in the cache; it goes to the bucket at once where there is
/// one and the configuration says so.
pub proof fn law_payload_names(store: TieredStorage, id: Seq<u8>, n: u64)
    ensures
        counted_up(n) == (n + 1) % 0x1_0000_0000_0000_0000,
        cloud_key(id) == seq!['p', 'a', 'y', 'l', 'o', 'a', 'd', 's', '/'] + uuid_text(id),
        cache_key(id) == seq!['p', ':'] + uuid_text(id),
        store.written_through(id) is Some <==> store.config.write_through && store.bucket,
        store.written_through(id) is Some ==> store.written_through(id) == Some(cloud_key(id)),
{
    reveal_strlit("payloads/");
    reveal_strlit("p:");
    assert("payloads/"@ =~= seq!['p', 'a', 'y', 'l', 'o', 'a', 'd', 's', '/']);
    assert("p:"@ =~= seq!['p', ':']);
}

} // verus!
