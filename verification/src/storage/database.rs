//! The database: what goes into its operations and what comes out of them.

use vstd::prelude::*;

use super::graph::{edge_properties, node_properties, Edge, Node};
use super::json::{from_json, Json, JsonError, NumberReading};
use super::local::StorageStats;
use super::node::{uuid_parse, uuid_part, uuid_text, InvalidId, NodeId, Timestamp};
use super::tiered::{TieredConfig, TieredStorage};
use super::value::{pair_map, PropertyMap, Value, ValueView};
use super::vector::{has_vector, DistanceMetric};
use crate::text::{copy_str, push_str, same_text};
use crate::FORMAT_VERSION;

verus! {

/// Configuration of a database.
#[derive(Debug)]
pub struct DatabaseConfig {
    /// Name of the database.
    pub name: String,
    /// Version of the storage format.
    pub version: u32,
    /// When the database was created.
    pub created_at: Timestamp,
    /// Address of the bucket that payloads may move to.
    pub bucket_url: Option<String>,
}

impl DatabaseConfig {
    /// The configuration of a new database.
    pub fn new(name: &str, now: Timestamp) -> (r: Self)
        ensures
            r.name@ == name@,
            r.version == FORMAT_VERSION,
            r.created_at == now,
            r.bucket_url is None,
    {
        DatabaseConfig {
            name: copy_str(name),
            version: FORMAT_VERSION,
            created_at: now,
            bucket_url: None,
        }
    }

    /// Takes note of the bucket that the database was pushed to.
    pub fn set_bucket(&mut self, url: &str)
        ensures
            final(self).bucket_url is Some,
            final(self).bucket_url->0@ == url@,
            *final(self) == (DatabaseConfig {
                bucket_url: final(self).bucket_url,
                ..*old(self)
            }),
    {
        self.bucket_url = Some(copy_str(url));
    }

    /// Tiered storage as the configuration asks for: with a bucket where one is named.
    pub fn storage(&self) -> (r: TieredStorage)
        ensures
            r.bucket == (self.bucket_url is Some),
            r.config == (TieredConfig {
                local_payload_max_bytes: 1073741824,
                min_cloud_payload_bytes: 256,
                write_through: false,
                prefetch_on_traversal: true,
                cache_max_bytes: 104857600,
            }),
    {
        if self.bucket_url.is_some() {
            TieredStorage::with_bucket(TieredConfig::default())
        } else {
            TieredStorage::new(TieredConfig::default())
        }
    }
}

/// Status of a database.
#[derive(Debug)]
pub struct DatabaseStatus {
    /// Name of the database.
    pub name: String,
    /// Directory of the database.
    pub path: String,
    /// Number of nodes.
    pub node_count: u64,
    /// Number of edges.
    pub edge_count: u64,
    /// Number of schemas.
    pub schema_count: u64,
    /// Size in bytes.
    pub size_bytes: u64,
}

/// What a synchronization moved.
#[derive(Debug, Clone, Copy, PartialEq, Eq, Structural)]
pub struct SyncStats {
    /// Number of objects that were uploaded.
    pub uploaded: u64,
    /// Number of objects that were downloaded.
    pub downloaded: u64,
}

impl Default for SyncStats {
    fn default() -> (r: Self)
        ensures
            r == (SyncStats { uploaded: 0, downloaded: 0 }),
    {
        SyncStats { uploaded: 0, downloaded: 0 }
    }
}

/// Nodes and the edges that leave them.
#[derive(Debug)]
pub struct GraphView {
    /// The nodes.
    pub nodes: Vec<Node>,
    /// The edges.
    pub edges: Vec<Edge>,
}

/// Nodes as keys and values.
#[derive(Debug)]
pub struct KvView {
    /// Identifiers with properties.
    pub entries: Vec<(String, Value)>,
}

/// A failure of the database.
#[derive(Debug)]
pub enum DatabaseError {
    /// An identifier could not be parsed.
    Id(InvalidId),
    /// A value could not be taken from JSON.
    Json(JsonError),
    /// No node of this type has a vector in this field.
    NoVectors(String, String),
}

impl DatabaseError {
    /// The message of the error.
    pub open spec fn text(&self) -> Seq<char> {
        match *self {
            DatabaseError::Id(e) => e.text(),
            DatabaseError::Json(e) => e.text(),
            DatabaseError::NoVectors(t, f) => "No vectors found in "@ + t@ + "."@ + f@,
        }
    }

    /// The message of the error.
    pub fn message(&self) -> (r: String)
        ensures
            r@ == self.text(),
    {
        match self {
            DatabaseError::Id(e) => e.message(),
            DatabaseError::Json(e) => e.message(),
            DatabaseError::NoVectors(t, f) => {
                let mut m = copy_str("No vectors found in ");
                push_str(&mut m, t.as_str());
                push_str(&mut m, ".");
                push_str(&mut m, f.as_str());
                m
            },
        }
    }
}

/// The metric of the vector indexes that a database makes.
pub const INDEX_METRIC: DistanceMetric = DistanceMetric::Cosine;

/// How a similarity search is answered.
#[derive(Debug, Clone, Copy, PartialEq, Eq, Structural)]
pub enum SearchPlan {
    /// By the index that there is.
    UseIndex,
    /// With nothing: there is no node.
    Nothing,
    /// By an index of this dimension, which is made first and filled if it is empty.
    BuildIndex(usize),
    /// By comparing every vector by the metric of the search.
    CompareAll,
}

/// Dimension of the first vector in a field of some nodes.
pub open spec fn first_dimension(nodes: Seq<Node>, field: Seq<char>, i: int) -> Option<nat>
    decreases nodes.len() - i,
{
    if i >= nodes.len() {
        None
    } else if has_vector(nodes[i]@, field) {
        Some(nodes[i]@.properties[field]->Vector_0.len())
    } else {
        first_dimension(nodes, field, i + 1)
    }
}

/// The edges of some lists, one list after the other.
pub open spec fn joined(lists: Seq<Vec<Edge>>) -> Seq<Edge>
    decreases lists.len(),
{
    if lists.len() == 0 {
        Seq::empty()
    } else {
        joined(lists.drop_last()) + lists.last()@
    }
}

/// The outcome of making a node from JSON.
pub open spec fn node_made(
    r: Result<Node, DatabaseError>,
    node_type: Seq<char>,
    properties: Result<ValueView, JsonError>,
) -> bool {
    match r {
        Ok(n) => properties is Ok && n@.node_type == node_type && n@.properties
            == node_properties(properties->Ok_0) && n@.updated_at == n@.created_at,
        Err(e) => properties is Err && e == DatabaseError::Json(properties->Err_0),
    }
}

/// The outcome of parsing the ends of an edge.
pub open spec fn ends(from: Seq<char>, to: Seq<char>) -> Option<(Seq<u8>, Seq<u8>)> {
    match (uuid_parse(uuid_part(from)), uuid_parse(uuid_part(to))) {
        (Some(a), Some(b)) => Some((a, b)),
        _ => None,
    }
}

/// The operations of the database.
pub struct Database;

impl Database {
    /// Status from the name, the directory and the statistics of the local store.
    pub fn status(name: &str, path: &str, stats: &StorageStats) -> (r: DatabaseStatus)
        ensures
            r.name@ == name@,
            r.path@ == path@,
            r.node_count == stats.node_count,
            r.edge_count == stats.edge_count,
            r.schema_count == stats.schema_count,
            r.size_bytes == stats.size_bytes,
    {
        DatabaseStatus {
            name: copy_str(name),
            path: copy_str(path),
            node_count: stats.node_count,
            edge_count: stats.edge_count,
            schema_count: stats.schema_count,
            size_bytes: stats.size_bytes,
        }
    }

    /// A new node with properties from JSON.
    pub fn insert_node(node_type: &str, properties: &Json<NumberReading>) -> (r: Result<
        Node,
        DatabaseError,
    >)
        ensures
            node_made(r, node_type@, from_json(properties@)),
    {
        match Value::from_json(properties) {
            Ok(v) => Ok(Node::new(node_type, v)),
            Err(e) => Err(DatabaseError::Json(e)),
        }
    }

    /// New nodes with properties from JSON; fails at the first that cannot be made.
    pub fn insert_nodes_batch(items: &[(String, Json<NumberReading>)]) -> (r: Result<
        Vec<Node>,
        DatabaseError,
    >)
        ensures
            match r {
                Ok(nodes) => nodes@.len() == items@.len() && forall|i: int|
                    0 <= i < nodes@.len() ==> node_made(
                        Ok(#[trigger] nodes@[i]),
                        items@[i].0@,
                        from_json(items@[i].1@),
                    ),
                Err(e) => exists|k: int|
                    0 <= k < items@.len() && node_made(
                        Err(e),
                        items@[k].0@,
                        #[trigger] from_json(items@[k].1@),
                    ) && forall|i: int|
                        0 <= i < k ==> (#[trigger] from_json(items@[i].1@)) is Ok,
            },
    {
        let mut nodes: Vec<Node> = Vec::new();
        let mut i: usize = 0;
        while i < items.len()
            invariant
                i <= items@.len(),
                nodes@.len() == i,
                forall|k: int|
                    0 <= k < i ==> node_made(
                        Ok(#[trigger] nodes@[k]),
                        items@[k].0@,
                        from_json(items@[k].1@),
                    ),
                forall|k: int| 0 <= k < i ==> (#[trigger] from_json(items@[k].1@)) is Ok,
            decreases items@.len() - i,
        {
            match Database::insert_node(items[i].0.as_str(), &items[i].1) {
                Ok(node) => {
                    nodes.push(node);
                },
                Err(e) => {
                    assert(node_made(
                        Err(e),
                        items@[i as int].0@,
                        from_json(items@[i as int].1@),
                    ));
                    return Err(e);
                },
            }
            i = i + 1;
        }
        Ok(nodes)
    }

    /// A new edge between two nodes given by their identifiers. Without properties it has
    /// none. The first end that cannot be parsed fails first, then the other, then the
    /// properties.
    pub fn create_edge(
        from_id: &str,
        to_id: &str,
        edge_type: &str,
        properties: Option<&Json<NumberReading>>,
    ) -> (r: Result<Edge, DatabaseError>)
        ensures
            ({
                let from = uuid_parse(uuid_part(from_id@));
                let to = uuid_parse(uuid_part(to_id@));
                let given = match properties {
                    Some(j) => from_json(j@),
                    None => Ok(ValueView::Object(Seq::empty())),
                };
                match r {
                    Ok(e) => from == Some(e@.from) && to == Some(e@.to) && e@.edge_type
                        == edge_type@ && given is Ok && e@.properties == edge_properties(
                        given->Ok_0,
                    ),
                    Err(e) => if from is None {
                        e matches DatabaseError::Id(InvalidId::Node(t)) && t@ == from_id@
                    } else if to is None {
                        e matches DatabaseError::Id(InvalidId::Node(t)) && t@ == to_id@
                    } else {
                        given is Err && e == DatabaseError::Json(given->Err_0)
                    },
                }
            }),
    {
        let from = match NodeId::parse(from_id) {
            Ok(id) => id,
            Err(e) => return Err(DatabaseError::Id(e)),
        };
        let to = match NodeId::parse(to_id) {
            Ok(id) => id,
            Err(e) => return Err(DatabaseError::Id(e)),
        };
        let value = match properties {
            Some(j) => match Value::from_json(j) {
                Ok(v) => v,
                Err(e) => return Err(DatabaseError::Json(e)),
            },
            None => Value::Object(PropertyMap::new()),
        };
        Ok(Edge::new(from, to, edge_type, value))
    }

    /// New edges without properties; fails at the first whose ends cannot be parsed.
    pub fn create_edges_batch(edges: &[(String, String, String)]) -> (r: Result<
        Vec<Edge>,
        DatabaseError,
    >)
        ensures
            match r {
                Ok(made) => made@.len() == edges@.len() && forall|i: int|
                    0 <= i < made@.len() ==> ends(edges@[i].0@, edges@[i].1@) == Some(
                        ((#[trigger] made@[i])@.from, made@[i]@.to),
                    ) && made@[i]@.edge_type == edges@[i].2@ && made@[i]@.properties == Map::<
                        Seq<char>,
                        ValueView,
                    >::empty(),
                Err(e) => exists|k: int|
                    0 <= k < edges@.len() && (#[trigger] ends(edges@[k].0@, edges@[k].1@)) is None
                        && (e matches DatabaseError::Id(InvalidId::Node(t)) && t@ == (if uuid_parse(
                        uuid_part(edges@[k].0@),
                    ) is None {
                        edges@[k].0@
                    } else {
                        edges@[k].1@
                    })) && forall|i: int|
                        0 <= i < k ==> (#[trigger] ends(edges@[i].0@, edges@[i].1@)) is Some,
            },
    {
        let mut made: Vec<Edge> = Vec::new();
        let mut i: usize = 0;
        while i < edges.len()
            invariant
                i <= edges@.len(),
                made@.len() == i,
                forall|k: int|
                    0 <= k < i ==> ends(edges@[k].0@, edges@[k].1@) == Some(
                        ((#[trigger] made@[k])@.from, made@[k]@.to),
                    ) && made@[k]@.edge_type == edges@[k].2@ && made@[k]@.properties == Map::<
                        Seq<char>,
                        ValueView,
                    >::empty(),
                forall|k: int|
                    0 <= k < i ==> (#[trigger] ends(edges@[k].0@, edges@[k].1@)) is Some,
            decreases edges@.len() - i,
        {
            let item = &edges[i];
            let from = match NodeId::parse(item.0.as_str()) {
                Ok(id) => id,
                Err(e) => {
                    assert(ends(edges@[i as int].0@, edges@[i as int].1@) is None);
                    return Err(DatabaseError::Id(e));
                },
            };
            let to = match NodeId::parse(item.1.as_str()) {
                Ok(id) => id,
                Err(e) => {
                    assert(ends(edges@[i as int].0@, edges@[i as int].1@) is None);
                    return Err(DatabaseError::Id(e));
                },
            };
            made.push(Edge::new(from, to, item.2.as_str(), Value::Null));
            i = i + 1;
        }
        Ok(made)
    }

    /// Nodes and the edges that leave them, node after node.
    pub fn get_as_graph(nodes: Vec<Node>, edges: Vec<Vec<Edge>>) -> (r: GraphView)
        ensures
            r.nodes == nodes,
            r.edges@ == joined(edges@),
    {
        let ghost all = edges@;
        let mut out: Vec<Edge> = Vec::new();
        for list in it: edges.into_iter()
            invariant
                it.seq() == all,
                out@ == joined(all.take(it.index())),
        {
            let ghost i = it.index();
            proof {
                assert(all.take(i + 1).drop_last() =~= all.take(i));
                assert(all.take(i + 1).last() == list);
            }
            let mut list = list;
            out.append(&mut list);
        }
        assert(all.take(all.len() as int) =~= all);
        GraphView { nodes, edges: out }
    }

    /// Nodes as keys and values: the text of the identifier, and the properties.
    pub fn get_as_kv(nodes: Vec<Node>) -> (r: KvView)
        ensures
            r.entries@.len() == nodes@.len(),
            forall|i: int|
                0 <= i < nodes@.len() ==> (#[trigger] r.entries@[i]).0@ == uuid_text(
                    nodes@[i].id@,
                ) && r.entries@[i].1@ == ValueView::Object(nodes@[i].properties@),
    {
        let ghost all = nodes@;
        let mut entries: Vec<(String, Value)> = Vec::new();
        for node in it: nodes.into_iter()
            invariant
                it.seq() == all,
                entries@.len() == it.index(),
                forall|i: int|
                    0 <= i < entries@.len() ==> (#[trigger] entries@[i]).0@ == uuid_text(
                        all[i].id@,
                    ) && entries@[i].1@ == ValueView::Object(all[i].properties@),
        {
            let key = node.id.to_string();
            entries.push((key, Value::Object(node.properties)));
        }
        KvView { entries }
    }

    /// A new node with properties from JSON and a vector in a field. Where the JSON is no
    /// object, the vector is left out.
    pub fn insert_with_embedding(
        node_type: &str,
        properties: &Json<NumberReading>,
        embedding_field: &str,
        embedding: Vec<u32>,
    ) -> (r: Result<Node, DatabaseError>)
        ensures
            match r {
                Ok(n) => from_json(properties@) is Ok && n@.node_type == node_type@
                    && n@.updated_at == n@.created_at && n@.properties == (match from_json(
                    properties@,
                )->Ok_0 {
                    ValueView::Object(p) => pair_map(p).insert(
                        embedding_field@,
                        ValueView::Vector(embedding@),
                    ),
                    v => node_properties(v),
                }),
                Err(e) => from_json(properties@) is Err && e == DatabaseError::Json(
                    from_json(properties@)->Err_0,
                ),
            },
    {
        match Value::from_json(properties) {
            Ok(v) => {
                let value = match v {
                    Value::Object(m) => {
                        let mut m = m;
                        m.insert(embedding_field, Value::Vector(embedding));
                        Value::Object(m)
                    },
                    other => other,
                };
                Ok(Node::new(node_type, value))
            },
            Err(e) => Err(DatabaseError::Json(e)),
        }
    }

    /// Dimension of the first vector in a field of some nodes.
    pub fn vector_dimension(nodes: &[Node], field: &str) -> (r: Option<usize>)
        ensures
            match r {
                Some(d) => first_dimension(nodes@, field@, 0) == Some(d as nat),
                None => first_dimension(nodes@, field@, 0) is None,
            },
    {
        let mut i: usize = 0;
        while i < nodes.len()
            invariant
                i <= nodes@.len(),
                first_dimension(nodes@, field@, 0) == first_dimension(nodes@, field@, i as int),
            decreases nodes@.len() - i,
        {
            if let Some(Value::Vector(v)) = nodes[i].get(field) {
                return Some(v.len());
            }
            i = i + 1;
        }
        None
    }

    /// How a similarity search by a metric is answered. `index` is the metric of the index
    /// that is there and holds something. An index answers only searches by its own metric.
    pub fn similarity_search(
        index: Option<DistanceMetric>,
        metric: DistanceMetric,
        nodes: &[Node],
        field: &str,
    ) -> (r: SearchPlan)
        ensures
            match r {
                SearchPlan::UseIndex => index == Some(metric),
                SearchPlan::Nothing => index != Some(metric) && nodes@.len() == 0,
                SearchPlan::BuildIndex(d) => index is None && metric == INDEX_METRIC
                    && nodes@.len() > 0 && first_dimension(nodes@, field@, 0) == Some(d as nat),
                SearchPlan::CompareAll => index != Some(metric) && nodes@.len() > 0 && (index is Some
                    || metric != INDEX_METRIC || first_dimension(nodes@, field@, 0) is None),
            },
    {
        let building = match index {
            Some(m) => {
                if m == metric {
                    return SearchPlan::UseIndex;
                }
                false
            },
            None => metric == INDEX_METRIC,
        };
        if nodes.len() == 0 {
            return SearchPlan::Nothing;
        }
        if !building {
            return SearchPlan::CompareAll;
        }
        match Database::vector_dimension(nodes, field) {
            Some(d) => SearchPlan::BuildIndex(d),
            None => SearchPlan::CompareAll,
        }
    }

    /// The dimension of a rebuilt index. Fails where no node has a vector in the field.
    pub fn rebuild_vector_index(node_type: &str, field: &str, nodes: &[Node]) -> (r: Result<
        usize,
        DatabaseError,
    >)
        ensures
            match r {
                Ok(d) => first_dimension(nodes@, field@, 0) == Some(d as nat),
                Err(e) => first_dimension(nodes@, field@, 0) is None && (
                e matches DatabaseError::NoVectors(t, f) && t@ == node_type@ && f@ == field@),
            },
    {
        match Database::vector_dimension(nodes, field) {
            Some(d) => Ok(d),
            None => Err(DatabaseError::NoVectors(copy_str(node_type), copy_str(field))),
        }
    }

    /// The vector of a node in a field.
    pub fn get_node_with_embedding<'a>(node: &'a Node, field: &str) -> (r: Option<&'a [u32]>)
        ensures
            match r {
                Some(v) => has_vector(node@, field@) && node@.properties[field@]
                    == ValueView::Vector(v@),
                None => !has_vector(node@, field@),
            },
    {
        match node.get(field) {
            Some(v) => v.as_vector(),
            None => None,
        }
    }

    /// The place of an index among the types and fields that have one.
    pub fn get_or_create_vector_index(
        keys: &[(String, String)],
        node_type: &str,
        field: &str,
    ) -> (r: Option<usize>)
        ensures
            match r {
                Some(i) => i < keys@.len() && keys@[i as int].0@ == node_type@ && keys@[i as
                    int].1@ == field@,
                None => forall|i: int|
                    0 <= i < keys@.len() ==> !((#[trigger] keys@[i]).0@ == node_type@
                        && keys@[i].1@ == field@),
            },
    {
        let mut i: usize = 0;
        while i < keys.len()
            invariant
                i <= keys@.len(),
                forall|k: int|
                    0 <= k < i ==> !((#[trigger] keys@[k]).0@ == node_type@ && keys@[k].1@
                        == field@),
            decreases keys@.len() - i,
        {
            if same_text(keys[i].0.as_str(), node_type) && same_text(keys[i].1.as_str(), field) {
                return Some(i);
            }
            i = i + 1;
        }
        None
    }
}

/// The dimension of an index is that of the first vector in the field; there is none where no
/// node has one.
pub proof fn law_first_dimension(nodes: Seq<Node>, field: Seq<char>, i: int)
    requires
        0 <= i <= nodes.len(),
    ensures
        match first_dimension(nodes, field, i) {
            Some(d) => exists|k: int|
                i <= k < nodes.len() && (#[trigger] nodes[k]@).properties.dom().contains(field) && (
                nodes[k]@.properties[field] matches ValueView::Vector(v) && v.len() == d)
                    && forall|j: int|
                    i <= j < k ==> !((#[trigger] nodes[j]@).properties.dom().contains(field)
                        && nodes[j]@.properties[field] is Vector),
            None => forall|j: int|
                i <= j < nodes.len() ==> !((#[trigger] nodes[j]@).properties.dom().contains(field)
                    && nodes[j]@.properties[field] is Vector),
        },
    decreases nodes.len() - i,
{
    if i < nodes.len() {
        if has_vector(nodes[i]@, field) {
            assert(nodes[i]@.properties.dom().contains(field));
        } else {
            law_first_dimension(nodes, field, i + 1);
        }
    }
}

/// The edges of two runs of lists are those of the first and those of the second; those of one
/// list are the list.
pub proof fn law_joined_edges(a: Seq<Vec<Edge>>, b: Seq<Vec<Edge>>)
    ensures
        joined(a + b) == joined(a) + joined(b),
        b.len() == 1 ==> joined(b) == b[0]@,
    decreases b.len(),
{
    if b.len() == 0 {
        assert(a + b =~= a);
        assert(joined(a) + joined(b) =~= joined(a));
    } else {
        assert((a + b).drop_last() =~= a + b.drop_last());
        law_joined_edges(a, b.drop_last());
        assert(joined(a) + joined(b.drop_last()) + b.last()@ =~= joined(a) + (joined(b.drop_last())
            + b.last()@));
        if b.len() == 1 {
            assert(joined(b.drop_last()) =~= Seq::<Edge>::empty());
            assert(joined(b) =~= b[0]@);
        }
    }
}

} // verus!
