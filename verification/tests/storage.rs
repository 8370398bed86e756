use std::collections::{BTreeMap, BTreeSet};

use aresadb::storage::database::{Database, DatabaseConfig, DatabaseError, SearchPlan};
use aresadb::storage::fulltext::{make_doc_freq_key, make_fulltext_key, tokenize};
use aresadb::storage::json::{encode, Json, NumberForm, NumberReading};
use aresadb::storage::local::{LocalStorage, StoreError};
use aresadb::storage::property_index::{
    make_property_index_key, make_registry_key, rendering, Rendering, ScannedNode,
};
use aresadb::storage::tables::TableOp;
use aresadb::storage::tiered::{
    payload_cache_key, payload_cloud_key, IndexedFields, NodeIndex, PayloadLocation,
    PayloadSource, ReindexedFields, TieredConfig, TieredError, TieredStorage,
};
use aresadb::storage::transaction::Transaction;
use aresadb::storage::value::{Real, Segment};
use aresadb::storage::{
    DistanceMetric, Edge, EdgeId, Node, NodeId, PropertyMap, Timestamp, Value,
};

type Id = [u8; 16];

/// Tables in memory.
#[derive(Default)]
struct Memory {
    nodes: BTreeMap<Id, Node>,
    indexes: BTreeMap<Id, NodeIndex>,
    payloads: BTreeMap<Id, Vec<u8>>,
    edges: BTreeMap<Id, Edge>,
    node_types: BTreeSet<(String, Id)>,
    edge_from: BTreeSet<(Id, Id)>,
    edge_to: BTreeSet<(Id, Id)>,
    edge_types: BTreeSet<(String, Id)>,
    properties: BTreeSet<(Vec<u8>, Id)>,
    property_registry: BTreeSet<String>,
    tokens: BTreeSet<(Vec<u8>, Id)>,
    term_counts: BTreeMap<Vec<u8>, Vec<(String, u32)>>,
    fulltext_registry: BTreeSet<String>,
}

fn node_id(uuid: Id) -> NodeId {
    NodeId { uuid }
}

fn edge_id(uuid: Id) -> EdgeId {
    EdgeId { uuid }
}

impl Memory {
    fn run(&mut self, ops: Vec<TableOp>) {
        for op in ops {
            match op {
                TableOp::PutNode(n) => {
                    self.nodes.insert(n.id.uuid, n);
                }
                TableOp::RemoveNode(id) => {
                    self.nodes.remove(&id.uuid);
                }
                TableOp::PutIndex(id, x) => {
                    self.indexes.insert(id.uuid, x);
                }
                TableOp::RemoveIndex(id) => {
                    self.indexes.remove(&id.uuid);
                }
                TableOp::PutPayload(id, p) => {
                    self.payloads.insert(id.uuid, p);
                }
                TableOp::RemovePayload(id) => {
                    self.payloads.remove(&id.uuid);
                }
                TableOp::PutEdge(e) => {
                    self.edges.insert(e.id.uuid, e);
                }
                TableOp::RemoveEdge(id) => {
                    self.edges.remove(&id.uuid);
                }
                TableOp::LinkNodeType(k, id) => {
                    self.node_types.insert((k, id.uuid));
                }
                TableOp::UnlinkNodeType(k, id) => {
                    self.node_types.remove(&(k, id.uuid));
                }
                TableOp::LinkFrom(n, e) => {
                    self.edge_from.insert((n.uuid, e.uuid));
                }
                TableOp::UnlinkFrom(n, e) => {
                    self.edge_from.remove(&(n.uuid, e.uuid));
                }
                TableOp::LinkTo(n, e) => {
                    self.edge_to.insert((n.uuid, e.uuid));
                }
                TableOp::UnlinkTo(n, e) => {
                    self.edge_to.remove(&(n.uuid, e.uuid));
                }
                TableOp::LinkEdgeType(k, e) => {
                    self.edge_types.insert((k, e.uuid));
                }
                TableOp::UnlinkEdgeType(k, e) => {
                    self.edge_types.remove(&(k, e.uuid));
                }
                TableOp::LinkProperty(k, id) => {
                    self.properties.insert((k, id.uuid));
                }
                TableOp::UnlinkPropertyOf(k, id) => {
                    self.properties.remove(&(k, id.uuid));
                }
                TableOp::UnlinkProperty(k) => {
                    self.properties.retain(|p| p.0 != k);
                }
                TableOp::RegisterProperty(k) => {
                    self.property_registry.insert(k);
                }
                TableOp::UnregisterProperty(k) => {
                    self.property_registry.remove(&k);
                }
                TableOp::LinkToken(k, id) => {
                    self.tokens.insert((k, id.uuid));
                }
                TableOp::PutTermCounts(k, c) => {
                    self.term_counts.insert(k, c);
                }
                TableOp::RegisterFulltext(k) => {
                    self.fulltext_registry.insert(k);
                }
            }
        }
    }

    fn node(&self, id: &NodeId) -> Option<Node> {
        self.nodes.get(&id.uuid).map(|n| n.copy())
    }

    fn of_type(&self, node_type: &str) -> Vec<Id> {
        self.node_types.iter().filter(|p| p.0 == node_type).map(|p| p.1).collect()
    }

    fn nodes_by_type(&self, node_type: &str, limit: Option<usize>) -> Vec<Node> {
        let found = self
            .of_type(node_type)
            .iter()
            .map(|id| self.nodes.get(id).map(|n| n.copy()))
            .collect();
        LocalStorage::get_nodes_by_type(found, limit)
    }

    fn leaving(&self, id: &NodeId) -> Vec<EdgeId> {
        self.edge_from.iter().filter(|p| p.0 == id.uuid).map(|p| edge_id(p.1)).collect()
    }

    fn entering(&self, id: &NodeId) -> Vec<EdgeId> {
        self.edge_to.iter().filter(|p| p.0 == id.uuid).map(|p| edge_id(p.1)).collect()
    }

    fn edges_from(&self, id: &NodeId, edge_type: Option<&str>) -> Vec<Edge> {
        let found = self
            .leaving(id)
            .iter()
            .map(|e| self.edges.get(&e.uuid).map(|e| e.copy()))
            .collect();
        LocalStorage::get_edges_from(found, edge_type)
    }

    fn edges_to(&self, id: &NodeId, edge_type: Option<&str>) -> Vec<Edge> {
        let found = self
            .entering(id)
            .iter()
            .map(|e| self.edges.get(&e.uuid).map(|e| e.copy()))
            .collect();
        LocalStorage::get_edges_to(found, edge_type)
    }

    fn indexed_fields(&self, node: &Node) -> IndexedFields {
        let properties: Vec<String> = self.fields(&self.property_registry, &node.node_type, true);
        let rendered = written_all(&properties, &node.properties);
        let fulltext = self.fields(&self.fulltext_registry, &node.node_type, false);
        IndexedFields { properties, rendered, fulltext }
    }

    fn change(&mut self, tiered: &TieredStorage, id: NodeId, update: &Value) -> Node {
        let index = self.indexes.get(&id.uuid).map(|x| x.copy());
        let index = TieredStorage::find_for_update(id, index).ok().unwrap();
        let before = properties_of(self.payloads.get(&id.uuid).unwrap());
        let mut properties = before.copy();
        aresadb::storage::graph::update_properties(&mut properties, update);
        let names = self.fields(&self.property_registry, &index.node_type, true);
        let fields = ReindexedFields {
            before: written_all(&names, &before),
            after: written_all(&names, &properties),
            properties: names,
        };
        let bytes = payload(&properties);
        let (updated, ops, cloud) =
            tiered.update_node(id, &index, &before, properties, &bytes, &fields, now());
        assert!(cloud.is_none());
        self.run(ops);
        updated
    }

    fn store(&mut self, tiered: &TieredStorage, node: &Node) {
        let indexed = self.indexed_fields(node);
        let (ops, cloud) = tiered.insert_node(node, &payload(&node.properties), &indexed);
        assert!(cloud.is_none());
        self.run(ops);
    }

    fn fields(&self, registry: &BTreeSet<String>, node_type: &str, property: bool) -> Vec<String> {
        let keys: Vec<String> = registry.iter().cloned().collect();
        if property {
            LocalStorage::get_indexed_fields_for_type(&keys, node_type)
        } else {
            LocalStorage::get_fulltext_fields_for_type(&keys, node_type)
        }
    }

    fn read(&self, id: &NodeId) -> Option<Node> {
        let index = self.indexes.get(&id.uuid);
        let properties = match self.payloads.get(&id.uuid) {
            Some(p) => properties_of(p),
            None => PropertyMap::new(),
        };
        TieredStorage::get_node(*id, index, properties)
    }

    fn scan(&self, node_type: &str, field: &str) -> Vec<ScannedNode> {
        self.of_type(node_type)
            .iter()
            .map(|id| {
                let properties = self.payloads.get(id).map(|p| properties_of(p));
                let rendered = properties
                    .as_ref()
                    .and_then(|p| p.get(field).map(written))
                    .unwrap_or_default();
                ScannedNode {
                    id: node_id(*id),
                    indexed: self.indexes.contains_key(id),
                    properties,
                    rendered,
                }
            })
            .collect()
    }

    fn create_index(&mut self, node_type: &str, field: &str) -> u64 {
        let registered = self.property_registry.contains(&make_registry_key(node_type, field));
        let nodes = self.scan(node_type, field);
        let (count, ops) =
            LocalStorage::create_property_index(registered, node_type, field, &nodes);
        self.run(ops);
        count
    }

    fn lookup(&self, node_type: &str, field: &str, value: &Value) -> Option<Vec<NodeId>> {
        let registered = self.property_registry.contains(&make_registry_key(node_type, field));
        let key = make_property_index_key(node_type, field, value, &written(value));
        let listed =
            self.properties.iter().filter(|p| p.0 == key).map(|p| node_id(p.1)).collect();
        LocalStorage::index_lookup(registered, listed)
    }

    fn indexes(&self) -> Vec<(String, String)> {
        let keys: Vec<String> = self.property_registry.iter().cloned().collect();
        LocalStorage::list_indexes(&keys)
    }

    fn create_fulltext(&mut self, node_type: &str, field: &str) -> u64 {
        let registered = self.fulltext_registry.contains(&make_registry_key(node_type, field));
        let nodes = self.scan(node_type, field);
        let (count, ops) =
            LocalStorage::create_fulltext_index(registered, node_type, field, &nodes);
        self.run(ops);
        count
    }

    fn search(&self, node_type: &str, field: &str, query: &str) -> Result<Vec<NodeId>, StoreError> {
        let registered = self.fulltext_registry.contains(&make_registry_key(node_type, field));
        let terms = LocalStorage::fulltext_search(registered, node_type, field, query)?;
        let mut postings = Vec::new();
        for t in &terms {
            let key = make_fulltext_key(node_type, field, t);
            let mut list = Vec::new();
            for (_, id) in self.tokens.iter().filter(|p| p.0 == key) {
                let counts =
                    self.term_counts.get(&make_doc_freq_key(&node_id(*id), node_type, field));
                let tf = LocalStorage::term_frequency(counts.map(|c| &c[..]), t);
                list.push((node_id(*id), tf));
            }
            postings.push(list);
        }
        let total = self.of_type(node_type).len() as f64;
        let hits = LocalStorage::fulltext_hits(&postings);
        let scores: Vec<i64> = hits
            .iter()
            .map(|h| {
                let score: f64 = h
                    .terms
                    .iter()
                    .map(|(df, tf)| {
                        let df = *df as f64;
                        let idf = ((total - df + 0.5) / (df + 0.5) + 1.0).ln();
                        idf * (*tf as f64 * 2.2) / (*tf as f64 + 1.2)
                    })
                    .sum();
                aresadb::float::float_key(score.to_bits())
            })
            .collect();
        let order = LocalStorage::fulltext_rank(&scores, 10);
        Ok(order.iter().map(|i| node_id(hits[*i].id.uuid)).collect())
    }
}

fn written_all(fields: &[String], properties: &PropertyMap) -> Vec<String> {
    fields.iter().map(|f| properties.get(f).map(written).unwrap_or_default()).collect()
}

fn written(value: &Value) -> String {
    match rendering(value) {
        Rendering::Plain => String::new(),
        Rendering::TenPlaces(bits) => format!("{:.10}", f64::from_bits(bits)),
        Rendering::Json => serde_json::to_string(&to_serde(&value.to_json())).unwrap(),
    }
}

fn reading(n: &serde_json::Number) -> NumberReading {
    NumberReading {
        int: n.as_i64(),
        double: n.as_f64().map(f64::to_bits),
        single: n.as_f64().map(|d| (d as f32).to_bits()).unwrap_or(0),
    }
}

fn from_serde(v: &serde_json::Value) -> Json<NumberReading> {
    match v {
        serde_json::Value::Null => Json::Null,
        serde_json::Value::Bool(b) => Json::Bool(*b),
        serde_json::Value::Number(n) => Json::Number(reading(n)),
        serde_json::Value::String(s) => Json::String(s.clone()),
        serde_json::Value::Array(a) => Json::Array(a.iter().map(from_serde).collect()),
        serde_json::Value::Object(m) => {
            Json::Object(m.iter().map(|(k, v)| (k.clone(), from_serde(v))).collect())
        }
    }
}

fn to_serde(j: &Json<NumberForm>) -> serde_json::Value {
    match j {
        Json::Null => serde_json::Value::Null,
        Json::Bool(b) => serde_json::Value::Bool(*b),
        Json::Number(NumberForm::Int(i)) => serde_json::Value::from(*i),
        Json::Number(NumberForm::Double(d)) => serde_json::Value::from(f64::from_bits(*d)),
        Json::Number(NumberForm::Single(s)) => {
            serde_json::Value::from(f32::from_bits(*s) as f64)
        }
        Json::String(s) => serde_json::Value::from(s.clone()),
        Json::Array(a) => serde_json::Value::Array(a.iter().map(to_serde).collect()),
        Json::Object(f) => serde_json::Value::Object(
            f.iter().map(|(k, v)| (k.clone(), to_serde(v))).collect(),
        ),
    }
}

fn json(text: &str) -> Json<NumberReading> {
    from_serde(&serde_json::from_str(text).unwrap())
}

fn value(text: &str) -> Value {
    Value::from_json(&json(text)).ok().unwrap()
}

fn payload(properties: &PropertyMap) -> Vec<u8> {
    let fields = properties.to_json_fields();
    serde_json::to_vec(&to_serde(&Json::Object(fields))).unwrap()
}

fn properties_of(bytes: &[u8]) -> PropertyMap {
    match Value::from_json(&from_serde(&serde_json::from_slice(bytes).unwrap())) {
        Ok(Value::Object(m)) => m,
        _ => PropertyMap::new(),
    }
}

fn now() -> Timestamp {
    Timestamp { millis: 1000 }
}

fn display(v: &Value) -> String {
    v.display()
        .iter()
        .map(|s| match s {
            Segment::Text(t) => t.clone(),
            Segment::Float(f) => format!("{}", f64::from_bits(*f)),
        })
        .collect()
}

#[test]
fn test_node_creation() {
    let props = value(r#"{"name": "John", "age": 30}"#);

    let node = Node::new("user", props);

    assert_eq!(node.node_type, "user");
    assert_eq!(node.get("name").unwrap().as_str(), Some("John"));
    assert_eq!(node.get("age").unwrap().as_int(), Some(30));
}

#[test]
fn test_edge_creation() {
    let from = NodeId::new();
    let to = NodeId::new();

    let edge = Edge::new(from, to, "follows", Value::Null);

    assert!(edge.from.same(&from));
    assert!(edge.to.same(&to));
    assert_eq!(edge.edge_type, "follows");
}

#[test]
fn test_value_conversion() {
    let text = r#"{
        "string": "hello",
        "number": 42,
        "float": 3.14,
        "bool": true,
        "null": null,
        "array": [1, 2, 3],
        "nested": {"a": 1}
    }"#;
    let original: serde_json::Value = serde_json::from_str(text).unwrap();

    let v = Value::from_json(&from_serde(&original)).ok().unwrap();
    let back = to_serde(&v.to_json());

    assert_eq!(original, back);
}

#[test]
fn test_node_id_parsing() {
    let id = NodeId::new();
    let str_id = id.to_string();

    let parsed = NodeId::parse(&str_id).ok().unwrap();
    assert!(id.same(&parsed));

    let with_prefix = format!("user:{}", str_id);
    let parsed2 = NodeId::parse(&with_prefix).ok().unwrap();
    assert!(id.same(&parsed2));
}

#[test]
fn identifiers_that_are_no_uuids_are_refused() {
    match NodeId::parse("user:x") {
        Err(e) => assert_eq!(e.message(), "Invalid node ID: user:x"),
        Ok(_) => panic!("Expected a refusal"),
    }
    match EdgeId::parse("x") {
        Err(e) => assert_eq!(e.message(), "Invalid edge ID: x"),
        Ok(_) => panic!("Expected a refusal"),
    }
    let id = NodeId { uuid: [0x0a; 16] };
    assert_eq!(id.to_string(), "0a0a0a0a-0a0a-0a0a-0a0a-0a0a0a0a0a0a");
    let slash = NodeId::parse("users/0A0A0A0A-0a0a-0a0a-0a0a-0a0a0a0a0a0a").ok().unwrap();
    assert!(slash.same(&id));
    assert!(!NodeId::new().same(&NodeId::new()));
}

fn bits(v: &[f32]) -> Vec<u32> {
    v.iter().map(|x| x.to_bits()).collect()
}

#[test]
fn test_vector_creation() {
    let v = Value::vector(bits(&[1.0, 2.0, 3.0]));
    assert!(v.is_vector());
    assert_eq!(v.vector_dimension(), Some(3));
    assert_eq!(v.as_vector(), Some(&bits(&[1.0, 2.0, 3.0])[..]));
}

#[test]
fn test_vector_json_roundtrip() {
    let v = Value::vector(bits(&[1.0, 2.0, 3.0]));
    let written = to_serde(&v.to_json());
    let parsed = Value::from_json(&from_serde(&written)).ok().unwrap();
    assert_eq!(v.as_vector(), parsed.as_vector());
}

#[test]
fn test_vector_display() {
    let v = Value::vector(bits(&vec![1.0; 768]));
    assert_eq!(display(&v), "<vector dim=768>");
}

#[test]
fn values_are_displayed() {
    let v = value(r#"{"b": [1, true, null], "a": "x", "c": 1.5}"#);
    assert_eq!(display(&v), r#"{"a": "x", "b": [1, true, null], "c": 1.5}"#);
    assert_eq!(display(&Value::Bytes(vec![1, 2])), "<2 bytes>");
    assert_eq!(Value::Float(2.5f64.to_bits()).as_int(), Some(2));
    assert_eq!(Value::Int(3).as_float(), Some(Real::Whole(3)));
    assert_eq!(encode(b"hello"), "aGVsbG8=");
    assert_eq!(encode(b""), "");
}

#[test]
fn test_create_and_open() {
    let stats = LocalStorage::stats(0, 0, 0, 0);
    assert_eq!(stats.node_count, 0);
}

#[test]
fn test_node_crud() {
    let mut t = Memory::default();

    let node = Node::new("user", value(r#"{"name": "Alice", "age": 25}"#));
    let id = node.id;
    t.run(LocalStorage::insert_node(&node));

    let retrieved = t.node(&id).unwrap();
    assert_eq!(retrieved.node_type, "user");
    assert_eq!(retrieved.get("name").unwrap().as_str(), Some("Alice"));

    let stored = t.node(&id);
    let (updated, ops) =
        LocalStorage::update_node(id, stored, &value(r#"{"age": 26}"#), now()).ok().unwrap();
    t.run(ops);
    assert_eq!(updated.get("age").unwrap().as_int(), Some(26));
    assert_eq!(updated.updated_at.millis, 1000);
    assert_eq!(t.node(&id).unwrap().get("name").unwrap().as_str(), Some("Alice"));

    let ops = LocalStorage::delete_node(id, t.nodes.get(&id.uuid), &[], &[]);
    t.run(ops);
    assert!(t.node(&id).is_none());
    assert!(t.of_type("user").is_empty());
}

#[test]
fn test_edge_crud() {
    let mut t = Memory::default();

    let node1 = Node::new("user", value(r#"{"name": "Alice"}"#));
    let node2 = Node::new("user", value(r#"{"name": "Bob"}"#));
    t.run(LocalStorage::insert_node(&node1));
    t.run(LocalStorage::insert_node(&node2));

    let edge = Edge::new(node1.id, node2.id, "follows", Value::Null);
    t.run(LocalStorage::insert_edge(&edge));

    let edges = t.edges_from(&node1.id, None);
    assert_eq!(edges.len(), 1);
    assert_eq!(edges[0].edge_type, "follows");
    assert!(t.edges_from(&node1.id, Some("likes")).is_empty());

    let edges = t.edges_to(&node2.id, None);
    assert_eq!(edges.len(), 1);

    let ops = LocalStorage::delete_edge(edge.id, t.edges.get(&edge.id.uuid));
    t.run(ops);
    assert_eq!(t.edges_from(&node1.id, None).len(), 0);
    assert!(t.edge_to.is_empty() && t.edge_types.is_empty());
}

#[test]
fn deleting_a_node_cuts_its_edges() {
    let mut t = Memory::default();
    let a = Node::new("user", Value::Null);
    let b = Node::new("user", Value::Null);
    let c = Node::new("user", Value::Null);
    for n in [&a, &b, &c] {
        t.run(LocalStorage::insert_node(n));
    }
    t.run(LocalStorage::insert_edges_batch(&[
        Edge::new(a.id, b.id, "e", Value::Null),
        Edge::new(b.id, c.id, "e", Value::Null),
        Edge::new(a.id, c.id, "e", Value::Null),
    ]));
    let outgoing = t.leaving(&b.id);
    let incoming = t.entering(&b.id);
    assert_eq!((outgoing.len(), incoming.len()), (1, 1));
    let ops = LocalStorage::delete_node(b.id, t.nodes.get(&b.id.uuid), &outgoing, &incoming);
    t.run(ops);
    assert!(t.node(&b.id).is_none());
    assert_eq!(t.nodes_by_type("user", None).len(), 2);
    assert_eq!(t.nodes_by_type("user", Some(1)).len(), 1);
    let left = t.edges_from(&a.id, None);
    assert_eq!(left.len(), 1);
    assert!(left[0].to.same(&c.id));
}

#[test]
fn test_transaction() {
    let mut t = Memory::default();

    let mut txn = Transaction::new();
    txn.insert_node(Node::new("user", value(r#"{"name": "Alice"}"#)));
    txn.insert_node(Node::new("user", value(r#"{"name": "Bob"}"#)));
    let ops = txn.commit(vec![], now());
    t.run(ops);

    assert_eq!(t.nodes_by_type("user", None).len(), 2);
}

#[test]
fn a_committed_edge_is_listed_under_its_type() {
    let mut t = Memory::default();
    let edge = Edge::new(NodeId::new(), NodeId::new(), "follows", Value::Null);
    let mut txn = Transaction::new();
    txn.insert_edge(edge.copy());
    t.run(txn.commit(vec![], now()));
    assert!(t.edge_types.contains(&("follows".to_string(), edge.id.uuid)));
    assert_eq!(t.edges_from(&edge.from, Some("follows")).len(), 1);
    assert_eq!(t.edges_to(&edge.to, None).len(), 1);
}

#[test]
fn fresh_identifiers_are_random_uuids() {
    for _ in 0..20 {
        let (node, edge) = (NodeId::new().uuid, EdgeId::default().uuid);
        assert_eq!((node[6] / 16, node[8] / 64), (4, 2));
        assert_eq!((edge[6] / 16, edge[8] / 64), (4, 2));
    }
    assert_ne!(NodeId::new(), NodeId::default());
}

#[test]
fn a_transaction_sees_its_own_changes() {
    let mut t = Memory::default();
    let node = Node::new("user", value(r#"{"age": 1}"#));
    let id = node.id;
    t.run(LocalStorage::insert_node(&node));
    let mut txn = Transaction::new();
    txn.update_node(id, value(r#"{"age": 2}"#));
    txn.update_node(id, value(r#"{"name": "x"}"#));
    let read = txn.updated_nodes().iter().map(|i| (*i, t.node(i))).collect();
    let ops = txn.commit(read, now());
    t.run(ops);
    let after = t.node(&id).unwrap();
    assert_eq!(after.get("age").unwrap().as_int(), Some(2));
    assert_eq!(after.get("name").unwrap().as_str(), Some("x"));

    let mut dropped = Transaction::new();
    dropped.delete_node(id);
    assert!(dropped.rollback().is_empty());
    assert!(t.node(&id).is_some());
}

#[test]
fn test_update_nonexistent_node() {
    let missing = NodeId::new();
    match LocalStorage::update_node(missing, None, &value(r#"{"key": "value"}"#), now()) {
        Err(e) => assert_eq!(e.message(), format!("Node not found: {}", missing.to_string())),
        Ok(_) => panic!("Expected a failure"),
    }
    assert!(TieredStorage::find_for_update(missing, None).is_err());
}

#[test]
fn test_invalid_node_id() {
    assert!(NodeId::parse("not-a-valid-uuid").is_err());
    match Database::create_edge("not-a-valid-uuid", "x", "e", None) {
        Err(DatabaseError::Id(e)) => assert_eq!(e.message(), "Invalid node ID: not-a-valid-uuid"),
        _ => panic!("Expected an invalid identifier"),
    }
}

#[test]
fn test_create_database() {
    let config = DatabaseConfig::new("testdb", now());
    assert_eq!(config.name, "testdb");
    let status = Database::status("testdb", "/p", &LocalStorage::stats(2, 1, 4, 9));
    assert_eq!(status.name, "testdb");
    assert_eq!(status.node_count, 2);
    assert_eq!(status.edge_count, 4);
    assert_eq!(LocalStorage::stats(0, 1, 4, 9).node_count, 1);
}

#[test]
fn test_insert_and_get_node() {
    let mut t = Memory::default();
    let tiered = TieredStorage::new(TieredConfig::default());
    let node = Database::insert_node("user", &json(r#"{"name": "John", "age": 30}"#)).ok().unwrap();
    t.store(&tiered, &node);
    let id = NodeId::parse(&node.id.to_string()).ok().unwrap();
    let retrieved = t.read(&id).unwrap();
    assert_eq!(retrieved.node_type, "user");
}

fn items(n: usize) -> Vec<(Node, Vec<u8>)> {
    let items: Vec<(String, Json<NumberReading>)> = (0..n)
        .map(|i| {
            let text = format!(r#"{{"index": {}, "name": "item_{}"}}"#, i, i);
            ("item".to_string(), json(&text))
        })
        .collect();
    let nodes = Database::insert_nodes_batch(&items).ok().unwrap();
    assert_eq!(nodes.len(), n);
    nodes.into_iter().map(|n| { let p = payload(&n.properties); (n, p) }).collect()
}

#[test]
fn test_batch_insert_nodes() {
    let mut t = Memory::default();
    let records = items(100);
    let indexed: Vec<IndexedFields> = records.iter().map(|r| t.indexed_fields(&r.0)).collect();
    t.run(TieredStorage::insert_nodes_batch(&records, &indexed));
    assert_eq!(t.of_type("item").len(), 100);
    let stats = LocalStorage::stats(t.indexes.len() as u64, 0, 0, 0);
    assert_eq!(stats.node_count, 100);
}

#[test]
fn nodes_of_a_batch_are_found_by_their_values() {
    let mut t = Memory::default();
    t.create_index("item", "name");
    t.create_fulltext("item", "name");
    let records = items(9);
    let indexed: Vec<IndexedFields> = records.iter().map(|r| t.indexed_fields(&r.0)).collect();
    t.run(TieredStorage::insert_nodes_batch(&records, &indexed));
    let found = t.lookup("item", "name", &Value::String("item_7".to_string())).unwrap();
    assert_eq!(found, vec![records[7].0.id]);
    assert_eq!(t.search("item", "name", "item").ok().unwrap().len(), 9);
}

#[test]
fn test_batch_insert_edges() {
    let mut t = Memory::default();
    let tiered = TieredStorage::new(TieredConfig::default());
    let mut ids: Vec<NodeId> = Vec::new();
    for name in ["A", "B", "C"] {
        let fields = json(&format!(r#"{{"name": "{}"}}"#, name));
        let node = Database::insert_node("user", &fields).ok().unwrap();
        t.store(&tiered, &node);
        ids.push(node.id);
    }
    let text: Vec<String> = ids.iter().map(|i| i.to_string()).collect();
    let triple = |a: usize, b: usize, k: &str| (text[a].clone(), text[b].clone(), k.to_string());
    let edges = Database::create_edges_batch(&[
        triple(0, 1, "follows"),
        triple(1, 2, "follows"),
        triple(0, 2, "knows"),
    ])
    .ok()
    .unwrap();
    assert_eq!(edges.len(), 3);
    t.run(LocalStorage::insert_edges_batch(&edges));
    assert_eq!(t.edges_from(&ids[0], None).len(), 2);
}

#[test]
fn test_status_node_count_tiered() {
    let mut t = Memory::default();
    let tiered = TieredStorage::new(TieredConfig::default());
    for (k, p) in [("user", "A"), ("user", "B"), ("product", "P")] {
        let node = Database::insert_node(k, &json(&format!(r#"{{"name": "{}"}}"#, p)));
        t.store(&tiered, &node.ok().unwrap());
    }
    let stats = LocalStorage::stats(t.indexes.len() as u64, t.nodes.len() as u64, 0, 0);
    assert_eq!(Database::status("db", "p", &stats).node_count, 3);
}

#[test]
fn an_update_moves_a_node_in_its_indexes() {
    let mut t = Memory::default();
    let tiered = TieredStorage::new(TieredConfig::default());
    let alice = Node::new("user", value(r#"{"name": "Alice", "age": 30}"#));
    let bob = Node::new("user", value(r#"{"name": "Bob", "age": 30}"#));
    t.create_index("user", "age");
    t.store(&tiered, &alice);
    t.store(&tiered, &bob);
    assert_eq!(t.lookup("user", "age", &Value::Int(30)).unwrap().len(), 2);

    t.change(&tiered, alice.id, &value(r#"{"age": 31}"#));
    assert_eq!(t.lookup("user", "age", &Value::Int(31)).unwrap(), vec![alice.id]);
    assert_eq!(t.lookup("user", "age", &Value::Int(30)).unwrap(), vec![bob.id]);

    t.change(&tiered, bob.id, &value(r#"{"name": "Bo"}"#));
    assert_eq!(t.lookup("user", "age", &Value::Int(30)).unwrap(), vec![bob.id]);
}

fn people() -> (Memory, TieredStorage) {
    let mut t = Memory::default();
    let tiered = TieredStorage::new(TieredConfig::default());
    for text in [
        r#"{"name": "Alice", "age": 30}"#,
        r#"{"name": "Bob", "age": 25}"#,
        r#"{"name": "Charlie", "age": 30}"#,
    ] {
        t.store(&tiered, &Node::new("user", value(text)));
    }
    (t, tiered)
}

#[test]
fn test_secondary_index_create_and_lookup() {
    let (mut t, _) = people();

    assert!(t.lookup("user", "age", &Value::Int(30)).is_none());

    let indexed = t.create_index("user", "age");
    assert_eq!(indexed, 3);

    let found = t.lookup("user", "age", &Value::Int(30)).unwrap();
    assert_eq!(found.len(), 2);
    assert_eq!(t.lookup("user", "age", &Value::Int(25)).unwrap().len(), 1);

    let indexes = t.indexes();
    assert_eq!(indexes.len(), 1);
    assert_eq!(indexes[0], ("user".to_string(), "age".to_string()));
}

#[test]
fn test_secondary_index_auto_maintain() {
    let mut t = Memory::default();
    let tiered = TieredStorage::new(TieredConfig::default());

    t.create_index("user", "city");

    for text in [
        r#"{"name": "Alice", "city": "NYC"}"#,
        r#"{"name": "Bob", "city": "LA"}"#,
        r#"{"name": "Charlie", "city": "NYC"}"#,
    ] {
        t.store(&tiered, &Node::new("user", value(text)));
    }

    let city = |name: &str| Value::String(name.to_string());
    assert_eq!(t.lookup("user", "city", &city("NYC")).unwrap().len(), 2);
    assert_eq!(t.lookup("user", "city", &city("LA")).unwrap().len(), 1);
}

#[test]
fn test_secondary_index_drop() {
    let mut t = Memory::default();
    let tiered = TieredStorage::new(TieredConfig::default());
    t.store(&tiered, &Node::new("product", value(r#"{"name": "Widget", "category": "tools"}"#)));

    t.create_index("product", "category");

    let tools = Value::String("tools".to_string());
    assert_eq!(t.lookup("product", "category", &tools).unwrap().len(), 1);

    let keys: Vec<Vec<u8>> = t.properties.iter().map(|p| p.0.clone()).collect();
    t.run(LocalStorage::drop_property_index("product", "category", &keys));

    assert!(t.lookup("product", "category", &tools).is_none());
    assert!(t.indexes().is_empty());
    assert!(t.properties.is_empty());
}

#[test]
fn floats_and_lists_are_indexed_by_their_texts() {
    let mut t = Memory::default();
    let tiered = TieredStorage::new(TieredConfig::default());
    t.create_index("m", "v");
    t.store(&tiered, &Node::new("m", value(r#"{"v": 0.5}"#)));
    t.store(&tiered, &Node::new("m", value(r#"{"v": [1, 2]}"#)));
    assert_eq!(t.lookup("m", "v", &Value::Float(0.5f64.to_bits())).unwrap().len(), 1);
    assert_eq!(t.lookup("m", "v", &value("[1, 2]")).unwrap().len(), 1);
    assert_eq!(t.lookup("m", "v", &value("[1, 3]")).unwrap().len(), 0);
}

#[test]
fn test_fulltext_search_basic() {
    let mut t = Memory::default();
    let tiered = TieredStorage::new(TieredConfig::default());
    for text in [
        r#"{"title": "Introduction to Machine Learning", "content": "Machine learning is a subset of artificial intelligence that focuses on algorithms"}"#,
        r#"{"title": "Deep Learning Networks", "content": "Deep learning uses neural networks with many layers for complex pattern recognition"}"#,
        r#"{"title": "Database Systems", "content": "Modern database systems provide ACID transactions and efficient query processing"}"#,
    ] {
        t.store(&tiered, &Node::new("article", value(text)));
    }

    assert!(matches!(
        t.search("article", "content", "machine"),
        Err(StoreError::NoFulltextIndex(_, _))
    ));

    let indexed = t.create_fulltext("article", "content");
    assert_eq!(indexed, 3);

    for (query, title) in [
        ("machine learning", "Machine"),
        ("neural networks", "Deep"),
        ("database", "Database"),
    ] {
        let results = t.search("article", "content", query).ok().unwrap();
        assert!(!results.is_empty());
        let best = t.read(&results[0]).unwrap();
        assert!(display(best.get("title").unwrap()).contains(title));
    }
}

#[test]
fn test_fulltext_search_auto_index() {
    let mut t = Memory::default();
    let tiered = TieredStorage::new(TieredConfig::default());

    t.create_fulltext("doc", "body");

    for text in [
        r#"{"body": "Rust programming language is fast and safe"}"#,
        r#"{"body": "Python programming language is easy to learn"}"#,
    ] {
        t.store(&tiered, &Node::new("doc", value(text)));
    }

    let results = t.search("doc", "body", "rust fast").ok().unwrap();
    assert_eq!(results.len(), 1);
    assert!(display(t.read(&results[0]).unwrap().get("body").unwrap()).contains("Rust"));
    let keys: Vec<String> = t.fulltext_registry.iter().cloned().collect();
    assert_eq!(
        LocalStorage::list_fulltext_indexes(&keys),
        vec![("doc".to_string(), "body".to_string())]
    );
}

#[test]
fn texts_are_cut_into_tokens() {
    assert_eq!(tokenize("The Quick-brown FOX, a fox!"), vec!["quick", "brown", "fox", "fox"]);
    assert!(tokenize("a an the").is_empty());
}

#[test]
fn test_tiered_insert_and_get() {
    let mut t = Memory::default();
    let tiered = TieredStorage::new(TieredConfig::default());
    let node = Node::new("user", value(r#"{"name": "Alice", "age": 30}"#));
    let id = node.id;
    t.store(&tiered, &node);

    let retrieved = t.read(&id).unwrap();
    assert_eq!(retrieved.node_type, "user");
    assert_eq!(retrieved.get("name").unwrap().as_str(), Some("Alice"));
    assert_eq!(retrieved.get("age").unwrap().as_int(), Some(30));
}

#[test]
fn test_tiered_update() {
    let mut t = Memory::default();
    let tiered = TieredStorage::new(TieredConfig::default());
    let node = Node::new("user", value(r#"{"name": "Alice", "age": 30}"#));
    let id = node.id;
    t.store(&tiered, &node);

    let updated = t.change(&tiered, id, &value(r#"{"age": 31}"#));
    assert_eq!(updated.get("age").unwrap().as_int(), Some(31));
    assert_eq!(updated.get("name").unwrap().as_str(), Some("Alice"));
    assert_eq!(t.read(&id).unwrap().get("age").unwrap().as_int(), Some(31));
}

#[test]
fn test_tiered_delete() {
    let mut t = Memory::default();
    let tiered = TieredStorage::new(TieredConfig::default());
    let node = Node::new("user", value(r#"{"name": "Alice"}"#));
    let id = node.id;
    t.store(&tiered, &node);

    let index = t.indexes.get(&id.uuid).map(|x| x.copy());
    t.run(LocalStorage::delete_node_tiered(id, index.as_ref(), None, &[], &[]));
    assert!(tiered.delete_node(&id).is_none());
    assert!(t.read(&id).is_none());
    assert!(t.payloads.is_empty() && t.node_types.is_empty());
}

#[test]
fn test_tiered_get_by_type() {
    let mut t = Memory::default();
    let tiered = TieredStorage::new(TieredConfig::default());
    t.store(&tiered, &Node::new("user", value(r#"{"name": "Alice"}"#)));
    t.store(&tiered, &Node::new("user", value(r#"{"name": "Bob"}"#)));
    t.store(&tiered, &Node::new("product", value(r#"{"name": "Widget"}"#)));
    let found = |k: &str| {
        let records = t
            .of_type(k)
            .iter()
            .map(|id| t.indexes.get(id).map(|x| (node_id(*id), x.copy())))
            .collect();
        LocalStorage::get_node_indexes_by_type(records, None).len()
    };
    assert_eq!(found("user"), 2);
    assert_eq!(found("product"), 1);
}

#[test]
fn test_tiered_edges() {
    let mut t = Memory::default();
    let tiered = TieredStorage::new(TieredConfig::default());
    let n1 = Node::new("user", value(r#"{"name": "Alice"}"#));
    let n2 = Node::new("user", value(r#"{"name": "Bob"}"#));
    t.store(&tiered, &n1);
    t.store(&tiered, &n2);

    let edge = Edge::new(n1.id, n2.id, "follows", Value::Null);
    t.run(LocalStorage::insert_edge(&edge));

    let edges = t.edges_from(&n1.id, None);
    assert_eq!(edges.len(), 1);
    assert_eq!(edges[0].edge_type, "follows");
    let ahead = tiered.prefetch_neighbors(&edges);
    assert!(ahead.is_empty() || ahead[0].same(&n2.id));
}

#[test]
fn test_cache_behavior() {
    let mut tiered = TieredStorage::new(TieredConfig::default());
    assert_eq!(tiered.resolve_payload(false, PayloadLocation::Local), PayloadSource::Local);
    assert_eq!(tiered.resolve_payload(true, PayloadLocation::Local), PayloadSource::Cache);
    let stats = tiered.stats(1, 10);
    assert!(stats.cache_hits >= 1);
    assert_eq!(stats.cache_hits, 1);
    assert_eq!(stats.cache_misses, 1);
}

#[test]
fn test_index_only_access() {
    let mut t = Memory::default();
    let tiered = TieredStorage::new(TieredConfig::default());
    let node = Node::new("user", value(r#"{"name": "Alice"}"#));
    let id = node.id;
    t.store(&tiered, &node);

    let record = t.indexes.get(&id.uuid).map(|x| x.copy());
    let index = LocalStorage::get_node_index(record, None, 0).unwrap();
    assert_eq!(index.node_type, "user");
    assert_eq!(index.property_count, 1);
    assert_eq!(index.payload_location, PayloadLocation::Local);
}

#[test]
fn payloads_move_to_the_bucket_and_back() {
    let mut t = Memory::default();
    let plain = TieredStorage::new(TieredConfig::default());
    let node = Node::new("user", value(r#"{"name": "Alice"}"#));
    let id = node.id;
    t.store(&plain, &node);
    assert!(matches!(plain.evict_to_cloud(id, true), Err(TieredError::NoBucket)));
    assert!(matches!(plain.fetch_cloud_payload(id), Err(TieredError::NoBucketForPayload(_))));

    let tiered = TieredStorage::with_bucket(TieredConfig::default());
    assert!(tiered.has_bucket());
    assert!(matches!(tiered.evict_to_cloud(id, false), Err(TieredError::PayloadNotLocal(_))));
    let name = tiered.evict_to_cloud(id, true).ok().unwrap();
    assert_eq!(name, payload_cloud_key(&id));
    assert_eq!(name, format!("payloads/{}", id.to_string()));
    assert_eq!(payload_cache_key(&id), format!("p:{}", id.to_string()));
    let kept = t.payloads.get(&id.uuid).unwrap().clone();
    let index = t.indexes.get(&id.uuid).map(|x| x.copy());
    t.run(TieredStorage::finish_eviction(id, index));
    assert!(t.payloads.is_empty());
    assert_eq!(t.indexes.get(&id.uuid).unwrap().payload_location, PayloadLocation::Cloud);

    let index = t.indexes.get(&id.uuid).map(|x| x.copy());
    t.run(TieredStorage::promote_to_local(id, &kept, index));
    assert_eq!(t.read(&id).unwrap().get("name").unwrap().as_str(), Some("Alice"));
    assert_eq!(t.indexes.get(&id.uuid).unwrap().payload_location, PayloadLocation::Local);
    match TieredStorage::local_payload(id, None) {
        Err(e) => assert_eq!(
            e.message(),
            format!("Local payload missing for node {}", id.to_string())
        ),
        Ok(_) => panic!("Expected a missing payload"),
    }
}

#[test]
fn eviction_stops_at_its_target() {
    let config = TieredConfig { local_payload_max_bytes: 1000, ..TieredConfig::for_bucket() };
    let tiered = TieredStorage::with_bucket(config);
    assert!(tiered.run_eviction(1000).is_none());
    let mut run = tiered.run_eviction(1300).unwrap();
    let sizes = [200u32, 100, 300, 400];
    let mut tried = Vec::new();
    while let Some(i) = run.next(sizes.len()) {
        tried.push(i);
        run.report(sizes[i], i != 1);
    }
    assert_eq!(tried, vec![0, 1, 2]);
    assert_eq!(run.evicted(), 2);
}

#[test]
fn eviction_begins_with_the_oldest() {
    let record = |millis: i64, size: u32, location: PayloadLocation| {
        let node = Node::build(NodeId::new(), Timestamp { millis }, "n", Value::Null);
        let mut x = NodeIndex::from_node(&node, location, 0);
        x.payload_size = size;
        (node.id, x)
    };
    let records = vec![
        record(30, 500, PayloadLocation::Local),
        record(10, 600, PayloadLocation::Local),
        record(20, 100, PayloadLocation::Local),
        record(5, 900, PayloadLocation::Cloud),
    ];
    let order = LocalStorage::get_eviction_candidates(&records, 256);
    assert_eq!(order.iter().map(|c| c.1).collect::<Vec<u32>>(), vec![600, 500]);
}

#[test]
fn whole_nodes_are_migrated_once() {
    let mut t = Memory::default();
    let node = Node::new("user", value(r#"{"a": 1}"#));
    let id = node.id;
    t.run(LocalStorage::insert_node(&node));
    let bytes = payload(&node.properties);
    let (count, ops) = LocalStorage::migrate_to_tiered(0, &[(node, bytes)]);
    t.run(ops);
    assert_eq!(count, 1);
    assert_eq!(t.read(&id).unwrap().get("a").unwrap().as_int(), Some(1));
    let (again, ops) = LocalStorage::migrate_to_tiered(1, &[]);
    assert_eq!(again, 0);
    assert!(ops.is_empty());
}

#[test]
fn views_are_built_from_nodes() {
    let a = Node::new("user", value(r#"{"name": "A"}"#));
    let b = Node::new("user", value(r#"{"name": "B"}"#));
    let edge = Edge::new(a.id, b.id, "knows", Value::Null);
    let id = a.id.to_string();
    let graph = Database::get_as_graph(vec![a.copy(), b], vec![vec![edge], vec![]]);
    assert_eq!((graph.nodes.len(), graph.edges.len()), (2, 1));
    let kv = Database::get_as_kv(vec![a]);
    assert_eq!(kv.entries.len(), 1);
    assert!(kv.entries[0].0.contains(&id));
    assert_eq!(kv.entries[0].1.get("name").unwrap().as_str(), Some("A"));
}

#[test]
fn searches_are_planned() {
    let with = Database::insert_with_embedding("d", &json("{}"), "e", bits(&[1.0, 2.0]));
    let with = with.ok().unwrap();
    assert_eq!(Database::get_node_with_embedding(&with, "e"), Some(&bits(&[1.0, 2.0])[..]));
    let cosine = DistanceMetric::Cosine;
    let euclidean = DistanceMetric::Euclidean;
    let plan = Database::similarity_search;
    assert_eq!(plan(Some(cosine), cosine, &[], "e"), SearchPlan::UseIndex);
    assert_eq!(plan(None, cosine, &[], "e"), SearchPlan::Nothing);
    let nodes = vec![Node::new("d", Value::Null), with];
    assert_eq!(Database::vector_dimension(&nodes, "e"), Some(2));
    assert_eq!(plan(None, cosine, &nodes, "e"), SearchPlan::BuildIndex(2));
    assert_eq!(plan(None, cosine, &nodes[..1], "e"), SearchPlan::CompareAll);
    assert_eq!(plan(Some(cosine), euclidean, &nodes, "e"), SearchPlan::CompareAll);
    assert_eq!(plan(None, euclidean, &nodes, "e"), SearchPlan::CompareAll);
    assert_eq!(plan(Some(cosine), euclidean, &[], "e"), SearchPlan::Nothing);
    assert!(Database::rebuild_vector_index("d", "e", &nodes[..1]).is_err());
    let keys = vec![("d".to_string(), "e".to_string())];
    assert_eq!(Database::get_or_create_vector_index(&keys, "d", "e"), Some(0));
    assert_eq!(Database::get_or_create_vector_index(&keys, "d", "f"), None);
}

#[test]
fn values_say_what_they_are() {
    assert_eq!(Value::Bool(true).as_bool(), Some(true));
    assert_eq!(Value::Int(1).as_bool(), None);
    assert!(Value::Null.is_null());
    assert!(!Value::Bool(false).is_null());
    let v = Value::from_vector_slice(&bits(&[0.5]));
    assert_eq!(v.as_vector(), Some(&bits(&[0.5])[..]));
    assert_eq!(Value::from_vector(bits(&[0.5, 1.5])).vector_dimension(), Some(2));
}

#[test]
fn records_and_payloads_are_stored_one_by_one_and_together() {
    let mut t = Memory::default();
    let nodes: Vec<Node> = (0..3).map(|_| Node::new("doc", Value::Null)).collect();
    let batch: Vec<(NodeId, NodeIndex, Vec<u8>)> = nodes
        .iter()
        .map(|n| (n.id, NodeIndex::from_node(n, PayloadLocation::Local, 2), vec![b'{', b'}']))
        .collect();
    t.run(LocalStorage::insert_nodes_tiered_batch(&batch));
    assert_eq!(t.payloads.len(), 3);
    assert_eq!(t.of_type("doc").len(), 3);

    let mut moved = batch[0].1.copy();
    moved.payload_location = PayloadLocation::Cloud;
    t.run(LocalStorage::update_node_index(nodes[0].id, &moved));
    t.run(LocalStorage::delete_payload(nodes[0].id));
    assert_eq!(t.indexes[&nodes[0].id.uuid].payload_location, PayloadLocation::Cloud);
    assert_eq!(t.payloads.len(), 2);
    t.run(LocalStorage::put_payload(nodes[0].id, b"{}"));
    assert_eq!(t.payloads.len(), 3);

    let listed = LocalStorage::get_all_nodes(nodes.iter().map(|n| n.copy()).collect(), Some(2));
    assert_eq!(listed.len(), 2);
    assert_eq!(listed[1].id, nodes[1].id);
    let records = |n: usize| batch.iter().take(n).map(|b| (b.0, b.1.copy())).collect();
    assert_eq!(LocalStorage::get_all_node_indexes(records(2), records(3), None).len(), 2);
    assert_eq!(LocalStorage::get_all_node_indexes(records(0), records(3), None).len(), 3);
}
