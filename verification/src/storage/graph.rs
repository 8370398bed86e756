//! Nodes and edges of the property graph.

use vstd::prelude::*;

use super::node::{is_random_uuid, EdgeId, NodeId, Timestamp};
use super::value::{
    lemma_pair_map_at, lemma_pair_map_drop_last, pair_map, sorted, PropertyMap, Value, ValueView,
};
use crate::text::copy_str;

verus! {

/// A node of the property graph.
#[derive(Debug)]
pub struct Node {
    /// Unique identifier.
    pub id: NodeId,
    /// Type of the node, such as "user".
    pub node_type: String,
    /// Properties under their names.
    pub properties: PropertyMap,
    /// When the node was created.
    pub created_at: Timestamp,
    /// When the node was last changed.
    pub updated_at: Timestamp,
}

/// A node with its texts as sequences and its properties as a map.
#[verifier::ext_equal]
pub struct NodeView {
    /// Unique identifier.
    pub id: Seq<u8>,
    /// Type of the node.
    pub node_type: Seq<char>,
    /// Properties under their names.
    pub properties: Map<Seq<char>, ValueView>,
    /// When the node was created.
    pub created_at: Timestamp,
    /// When the node was last changed.
    pub updated_at: Timestamp,
}

impl View for Node {
    type V = NodeView;

    open spec fn view(&self) -> NodeView {
        NodeView {
            id: self.id@,
            node_type: self.node_type@,
            properties: self.properties.map(),
            created_at: self.created_at,
            updated_at: self.updated_at,
        }
    }
}

/// An edge between two nodes.
#[derive(Debug)]
pub struct Edge {
    /// Unique identifier.
    pub id: EdgeId,
    /// The node that the edge leaves.
    pub from: NodeId,
    /// The node that the edge enters.
    pub to: NodeId,
    /// Type of the edge, such as "follows".
    pub edge_type: String,
    /// Properties under their names.
    pub properties: PropertyMap,
    /// When the edge was created.
    pub created_at: Timestamp,
}

/// An edge with its texts as sequences and its properties as a map.
#[verifier::ext_equal]
pub struct EdgeView {
    /// Unique identifier.
    pub id: Seq<u8>,
    /// The node that the edge leaves.
    pub from: Seq<u8>,
    /// The node that the edge enters.
    pub to: Seq<u8>,
    /// Type of the edge.
    pub edge_type: Seq<char>,
    /// Properties under their names.
    pub properties: Map<Seq<char>, ValueView>,
    /// When the edge was created.
    pub created_at: Timestamp,
}

impl View for Edge {
    type V = EdgeView;

    open spec fn view(&self) -> EdgeView {
        EdgeView {
            id: self.id@,
            from: self.from@,
            to: self.to@,
            edge_type: self.edge_type@,
            properties: self.properties.map(),
            created_at: self.created_at,
        }
    }
}

/// The properties of a node made from a value: the entries of an object; any other value
/// stands under the name "value".
pub open spec fn node_properties(v: ValueView) -> Map<Seq<char>, ValueView> {
    match v {
        ValueView::Object(p) => pair_map(p),
        _ => Map::<Seq<char>, ValueView>::empty().insert("value"@, v),
    }
}

/// The properties of an edge made from a value: as for a node, except that there are none
/// where the value is null.
pub open spec fn edge_properties(v: ValueView) -> Map<Seq<char>, ValueView> {
    match v {
        ValueView::Null => Map::empty(),
        _ => node_properties(v),
    }
}

/// Properties after an update: an object's entries take the place of those under the same
/// names, and any other value changes nothing.
pub open spec fn updated_properties(
    properties: Map<Seq<char>, ValueView>,
    update: ValueView,
) -> Map<Seq<char>, ValueView> {
    match update {
        ValueView::Object(p) => properties.union_prefer_right(pair_map(p)),
        _ => properties,
    }
}

fn properties_of(v: Value) -> (r: PropertyMap)
    ensures
        r.map() == node_properties(v@),
{
    match v {
        Value::Object(m) => m,
        other => {
            let mut m = PropertyMap::new();
            m.insert("value", other);
            m
        },
    }
}

/// Puts the entries of an object into a property map.
pub fn update_properties(properties: &mut PropertyMap, update: &Value)
    ensures
        final(properties).map() == updated_properties(old(properties).map(), update@),
{
    if let Value::Object(m) = update {
        let n: usize = m.len();
        let ghost was = properties.map();
        let mut i: usize = 0;
        assert(was =~= was.union_prefer_right(pair_map(m@.take(0))));
        while i < n
            invariant
                i <= n,
                n == m@.len(),
                sorted(m@),
                properties.map() == was.union_prefer_right(pair_map(m@.take(i as int))),
            decreases n - i,
        {
            properties.insert(m.key_at(i), m.value_at(i).copy());
            proof {
                let p = m@.take(i + 1);
                assert(p.drop_last() =~= m@.take(i as int));
                lemma_pair_map_drop_last(p);
                assert(p.last() == m@[i as int]);
                lemma_pair_map_at(p, i as int);
                assert(properties.map() =~= was.union_prefer_right(pair_map(p)));
            }
            i = i + 1;
        }
        assert(m@.take(n as int) =~= m@);
    }
}

impl Node {
    /// Creates a node with a random identifier and the current time.
    pub fn new(node_type: &str, properties: Value) -> (r: Self)
        ensures
            r@.node_type == node_type@,
            r@.properties == node_properties(properties@),
            r@.updated_at == r@.created_at,
            is_random_uuid(r@.id),
    {
        Node::build(NodeId::new(), Timestamp::now(), node_type, properties)
    }

    /// Creates a node with a given identifier and time.
    pub fn build(id: NodeId, now: Timestamp, node_type: &str, properties: Value) -> (r: Self)
        ensures
            r@ == (NodeView {
                id: id@,
                node_type: node_type@,
                properties: node_properties(properties@),
                created_at: now,
                updated_at: now,
            }),
    {
        Node {
            id,
            node_type: copy_str(node_type),
            properties: properties_of(properties),
            created_at: now,
            updated_at: now,
        }
    }

    /// Creates a node with a given identifier and the current time.
    pub fn with_id(id: NodeId, node_type: &str, properties: PropertyMap) -> (r: Self)
        ensures
            r@.id == id@,
            r@.node_type == node_type@,
            r@.properties == properties.map(),
            r@.updated_at == r@.created_at,
    {
        let now = Timestamp::now();
        Node { id, node_type: copy_str(node_type), properties, created_at: now, updated_at: now }
    }

    /// The property under a name.
    pub fn get(&self, key: &str) -> (r: Option<&Value>)
        ensures
            match r {
                Some(v) => self@.properties.dom().contains(key@) && v@ == self@.properties[key@],
                None => !self@.properties.dom().contains(key@),
            },
    {
        self.properties.get(key)
    }

    /// Sets a property at the current time.
    pub fn set(&mut self, key: &str, value: Value)
        ensures
            final(self)@ == (NodeView {
                properties: old(self)@.properties.insert(key@, value@),
                updated_at: final(self)@.updated_at,
                ..old(self)@
            }),
    {
        let now = Timestamp::now();
        self.set_at(key, value, now);
    }

    /// Sets a property at a given time.
    pub fn set_at(&mut self, key: &str, value: Value, now: Timestamp)
        ensures
            final(self)@ == (NodeView {
                properties: old(self)@.properties.insert(key@, value@),
                updated_at: now,
                ..old(self)@
            }),
    {
        self.properties.insert(key, value);
        self.updated_at = now;
    }

    /// Removes a property at the current time; the node counts as changed whether or not
    /// there was one.
    pub fn remove(&mut self, key: &str) -> (r: Option<Value>)
        ensures
            match r {
                Some(v) => old(self)@.properties.dom().contains(key@) && v@
                    == old(self)@.properties[key@],
                None => !old(self)@.properties.dom().contains(key@),
            },
            final(self)@ == (NodeView {
                properties: old(self)@.properties.remove(key@),
                updated_at: final(self)@.updated_at,
                ..old(self)@
            }),
    {
        let now = Timestamp::now();
        self.remove_at(key, now)
    }

    /// Removes a property at a given time.
    pub fn remove_at(&mut self, key: &str, now: Timestamp) -> (r: Option<Value>)
        ensures
            match r {
                Some(v) => old(self)@.properties.dom().contains(key@) && v@
                    == old(self)@.properties[key@],
                None => !old(self)@.properties.dom().contains(key@),
            },
            final(self)@ == (NodeView {
                properties: old(self)@.properties.remove(key@),
                updated_at: now,
                ..old(self)@
            }),
    {
        self.updated_at = now;
        self.properties.remove(key)
    }

    /// The names of the properties, in ascending order.
    pub fn keys(&self) -> (r: Vec<String>)
        ensures
            r@.len() == self.properties@.len(),
            forall|i: int| 0 <= i < r@.len() ==> (#[trigger] r@[i])@ == self.properties@[i].0,
            sorted(self.properties@),
    {
        self.properties.keys()
    }

    /// Puts the entries of an object into the properties at a given time.
    pub fn update(&mut self, update: &Value, now: Timestamp)
        ensures
            final(self)@ == updated_node(old(self)@, update@, now),
    {
        update_properties(&mut self.properties, update);
        self.updated_at = now;
    }

    /// A copy of the node.
    pub fn copy(&self) -> (r: Self)
        ensures
            r@ == self@,
    {
        Node {
            id: self.id,
            node_type: copy_str(self.node_type.as_str()),
            properties: self.properties.copy(),
            created_at: self.created_at,
            updated_at: self.updated_at,
        }
    }
}

/// A node after an update of its properties.
pub open spec fn updated_node(n: NodeView, update: ValueView, now: Timestamp) -> NodeView {
    NodeView { properties: updated_properties(n.properties, update), updated_at: now, ..n }
}

impl Edge {
    /// Creates an edge with a random identifier and the current time.
    pub fn new(from: NodeId, to: NodeId, edge_type: &str, properties: Value) -> (r: Self)
        ensures
            r@.from == from@,
            r@.to == to@,
            r@.edge_type == edge_type@,
            r@.properties == edge_properties(properties@),
            is_random_uuid(r@.id),
    {
        Edge::build(EdgeId::new(), Timestamp::now(), from, to, edge_type, properties)
    }

    /// Creates an edge with a given identifier and time.
    pub fn build(
        id: EdgeId,
        now: Timestamp,
        from: NodeId,
        to: NodeId,
        edge_type: &str,
        properties: Value,
    ) -> (r: Self)
        ensures
            r@ == (EdgeView {
                id: id@,
                from: from@,
                to: to@,
                edge_type: edge_type@,
                properties: edge_properties(properties@),
                created_at: now,
            }),
    {
        let properties = match properties {
            Value::Null => PropertyMap::new(),
            other => properties_of(other),
        };
        Edge { id, from, to, edge_type: copy_str(edge_type), properties, created_at: now }
    }

    /// The property under a name.
    pub fn get(&self, key: &str) -> (r: Option<&Value>)
        ensures
            match r {
                Some(v) => self@.properties.dom().contains(key@) && v@ == self@.properties[key@],
                None => !self@.properties.dom().contains(key@),
            },
    {
        self.properties.get(key)
    }

    /// Sets a property.
    pub fn set(&mut self, key: &str, value: Value)
        ensures
            final(self)@ == (EdgeView {
                properties: old(self)@.properties.insert(key@, value@),
                ..old(self)@
            }),
    {
        self.properties.insert(key, value);
    }

    /// A copy of the edge.
    pub fn copy(&self) -> (r: Self)
        ensures
            r@ == self@,
    {
        Edge {
            id: self.id,
            from: self.from,
            to: self.to,
            edge_type: copy_str(self.edge_type.as_str()),
            properties: self.properties.copy(),
            created_at: self.created_at,
        }
    }
}

/// A property reads back as it was last set, and setting one leaves the others as they were.
pub proof fn law_set_property_reads_back(
    n: NodeView,
    key: Seq<char>,
    value: ValueView,
    now: Timestamp,
    other: Seq<char>,
)
    requires
        other != key,
    ensures
        ({
            let set = NodeView {
                properties: n.properties.insert(key, value),
                updated_at: now,
                ..n
            };
            &&& set.properties.dom().contains(key) && set.properties[key] == value
            &&& set.properties.dom().contains(other) == n.properties.dom().contains(other)
            &&& n.properties.dom().contains(other) ==> set.properties[other]
                == n.properties[other]
        }),
{
}

/// An update gives each name of the object its value, leaves the other properties, the
/// identifier, the type and the creation time, and is idempotent.
pub proof fn law_update_merges(
    n: NodeView,
    p: Seq<(Seq<char>, ValueView)>,
    now: Timestamp,
    i: int,
    other: Seq<char>,
)
    requires
        sorted(p),
        0 <= i < p.len(),
        forall|j: int| 0 <= j < p.len() ==> (#[trigger] p[j]).0 != other,
    ensures
        ({
            let m = updated_node(n, ValueView::Object(p), now);
            &&& m.id == n.id && m.node_type == n.node_type && m.created_at == n.created_at
            &&& m.updated_at == now
            &&& m.properties.dom().contains(p[i].0) && m.properties[p[i].0] == p[i].1
            &&& m.properties.dom().contains(other) == n.properties.dom().contains(other)
            &&& n.properties.dom().contains(other) ==> m.properties[other] == n.properties[other]
            &&& updated_node(m, ValueView::Object(p), now) == m
        }),
{
    let m = updated_node(n, ValueView::Object(p), now);
    lemma_pair_map_at(p, i);
    assert(pair_map(p).dom().contains(p[i].0));
    assert(updated_node(m, ValueView::Object(p), now).properties =~= m.properties);
}

/// The entries of an object become the properties of a node, and of an edge, each under its name,
/// and there are no others. Any other value stands under the name "value"; null gives an edge no
/// properties. An update that is no object changes no property.
pub proof fn law_properties_from_values(
    p: Seq<(Seq<char>, ValueView)>,
    i: int,
    v: ValueView,
    n: NodeView,
    now: Timestamp,
    key: Seq<char>,
)
    requires
        sorted(p),
        0 <= i < p.len(),
        !(v is Object),
    ensures
        ({
            let m = node_properties(ValueView::Object(p));
            &&& m.dom().contains(p[i].0) && m[p[i].0] == p[i].1
            &&& m.dom().contains(key) ==> exists|j: int|
                0 <= j < p.len() && (#[trigger] p[j]).0 == key
            &&& edge_properties(ValueView::Object(p)) == m
        }),
        ({
            let m = node_properties(v);
            &&& m.dom().contains("value"@) && m["value"@] == v
            &&& m.dom().contains(key) ==> key == "value"@
            &&& v is Null ==> !edge_properties(v).dom().contains(key)
            &&& !(v is Null) ==> edge_properties(v) == m
        }),
        updated_node(n, v, now).properties == n.properties,
        updated_node(n, v, now).updated_at == now,
{
    lemma_pair_map_at(p, i);
}

} // verus!
