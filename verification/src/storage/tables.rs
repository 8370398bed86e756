//! The tables of the local store, as mathematical maps and sets, and the changes that are
//! made to them.

use vstd::prelude::*;

use super::graph::{Edge, EdgeView, Node, NodeView};
use super::node::{EdgeId, NodeId};
use super::tiered::{IndexView, NodeIndex};

verus! {

/// What the tables hold. A table with one value per key is a map; one with many values per
/// key is a set of pairs.
#[verifier::ext_equal]
pub struct Tables {
    /// Whole nodes by identifier.
    pub nodes: Map<Seq<u8>, NodeView>,
    /// Index records by node identifier.
    pub indexes: Map<Seq<u8>, IndexView>,
    /// Payloads by node identifier.
    pub payloads: Map<Seq<u8>, Seq<u8>>,
    /// Edges by identifier.
    pub edges: Map<Seq<u8>, EdgeView>,
    /// Node types and the nodes of each.
    pub node_types: Set<(Seq<char>, Seq<u8>)>,
    /// Nodes and the edges that leave them.
    pub edge_from: Set<(Seq<u8>, Seq<u8>)>,
    /// Nodes and the edges that enter them.
    pub edge_to: Set<(Seq<u8>, Seq<u8>)>,
    /// Edge types and the edges of each.
    pub edge_types: Set<(Seq<char>, Seq<u8>)>,
    /// Property keys and the nodes under each.
    pub properties: Set<(Seq<u8>, Seq<u8>)>,
    /// Registered property indexes.
    pub property_registry: Set<Seq<char>>,
    /// Token keys and the nodes under each.
    pub tokens: Set<(Seq<u8>, Seq<u8>)>,
    /// How often each token occurs, by document key.
    pub term_counts: Map<Seq<u8>, Seq<(Seq<char>, u32)>>,
    /// Registered full-text indexes.
    pub fulltext_registry: Set<Seq<char>>,
}

/// A change of one table.
#[derive(Debug)]
pub enum TableOp {
    /// Stores a whole node.
    PutNode(Node),
    /// Removes a whole node.
    RemoveNode(NodeId),
    /// Stores an index record.
    PutIndex(NodeId, NodeIndex),
    /// Removes an index record.
    RemoveIndex(NodeId),
    /// Stores a payload.
    PutPayload(NodeId, Vec<u8>),
    /// Removes a payload.
    RemovePayload(NodeId),
    /// Stores an edge.
    PutEdge(Edge),
    /// Removes an edge.
    RemoveEdge(EdgeId),
    /// Enters a node under its type.
    LinkNodeType(String, NodeId),
    /// Takes a node out from under a type.
    UnlinkNodeType(String, NodeId),
    /// Enters an edge under the node that it leaves.
    LinkFrom(NodeId, EdgeId),
    /// Takes an edge out from under the node that it leaves.
    UnlinkFrom(NodeId, EdgeId),
    /// Enters an edge under the node that it enters.
    LinkTo(NodeId, EdgeId),
    /// Takes an edge out from under the node that it enters.
    UnlinkTo(NodeId, EdgeId),
    /// Enters an edge under its type.
    LinkEdgeType(String, EdgeId),
    /// Takes an edge out from under a type.
    UnlinkEdgeType(String, EdgeId),
    /// Enters a node under a property key.
    LinkProperty(Vec<u8>, NodeId),
    /// Takes a node out from under a property key.
    UnlinkPropertyOf(Vec<u8>, NodeId),
    /// Takes all nodes out from under a property key.
    UnlinkProperty(Vec<u8>),
    /// Registers a property index.
    RegisterProperty(String),
    /// Takes a property index off the registry.
    UnregisterProperty(String),
    /// Enters a node under a token key.
    LinkToken(Vec<u8>, NodeId),
    /// Stores how often the tokens of a document occur.
    PutTermCounts(Vec<u8>, Vec<(String, u32)>),
    /// Registers a full-text index.
    RegisterFulltext(String),
}

/// Texts with counts, the texts as sequences.
pub open spec fn count_views(v: Seq<(String, u32)>) -> Seq<(Seq<char>, u32)> {
    v.map_values(|p: (String, u32)| (p.0@, p.1))
}

/// The tables after one change.
pub open spec fn applied(t: Tables, op: TableOp) -> Tables {
    match op {
        TableOp::PutNode(n) => Tables { nodes: t.nodes.insert(n.id@, n@), ..t },
        TableOp::RemoveNode(id) => Tables { nodes: t.nodes.remove(id@), ..t },
        TableOp::PutIndex(id, x) => Tables { indexes: t.indexes.insert(id@, x@), ..t },
        TableOp::RemoveIndex(id) => Tables { indexes: t.indexes.remove(id@), ..t },
        TableOp::PutPayload(id, p) => Tables { payloads: t.payloads.insert(id@, p@), ..t },
        TableOp::RemovePayload(id) => Tables { payloads: t.payloads.remove(id@), ..t },
        TableOp::PutEdge(e) => Tables { edges: t.edges.insert(e.id@, e@), ..t },
        TableOp::RemoveEdge(id) => Tables { edges: t.edges.remove(id@), ..t },
        TableOp::LinkNodeType(k, id) => Tables {
            node_types: t.node_types.insert((k@, id@)),
            ..t
        },
        TableOp::UnlinkNodeType(k, id) => Tables {
            node_types: t.node_types.remove((k@, id@)),
            ..t
        },
        TableOp::LinkFrom(n, e) => Tables { edge_from: t.edge_from.insert((n@, e@)), ..t },
        TableOp::UnlinkFrom(n, e) => Tables { edge_from: t.edge_from.remove((n@, e@)), ..t },
        TableOp::LinkTo(n, e) => Tables { edge_to: t.edge_to.insert((n@, e@)), ..t },
        TableOp::UnlinkTo(n, e) => Tables { edge_to: t.edge_to.remove((n@, e@)), ..t },
        TableOp::LinkEdgeType(k, e) => Tables { edge_types: t.edge_types.insert((k@, e@)), ..t },
        TableOp::UnlinkEdgeType(k, e) => Tables {
            edge_types: t.edge_types.remove((k@, e@)),
            ..t
        },
        TableOp::LinkProperty(k, id) => Tables {
            properties: t.properties.insert((k@, id@)),
            ..t
        },
        TableOp::UnlinkPropertyOf(k, id) => Tables {
            properties: t.properties.remove((k@, id@)),
            ..t
        },
        TableOp::UnlinkProperty(k) => Tables {
            properties: t.properties.filter(|p: (Seq<u8>, Seq<u8>)| p.0 != k@),
            ..t
        },
        TableOp::RegisterProperty(k) => Tables {
            property_registry: t.property_registry.insert(k@),
            ..t
        },
        TableOp::UnregisterProperty(k) => Tables {
            property_registry: t.property_registry.remove(k@),
            ..t
        },
        TableOp::LinkToken(k, id) => Tables { tokens: t.tokens.insert((k@, id@)), ..t },
        TableOp::PutTermCounts(k, c) => Tables {
            term_counts: t.term_counts.insert(k@, count_views(c@)),
            ..t
        },
        TableOp::RegisterFulltext(k) => Tables {
            fulltext_registry: t.fulltext_registry.insert(k@),
            ..t
        },
    }
}

/// The tables after some changes, made in order.
pub open spec fn run(t: Tables, ops: Seq<TableOp>) -> Tables
    decreases ops.len(),
{
    if ops.len() == 0 {
        t
    } else {
        applied(run(t, ops.drop_last()), ops.last())
    }
}

/// One more change is made after those before it.
pub broadcast proof fn lemma_run_push(t: Tables, ops: Seq<TableOp>, op: TableOp)
    ensures
        #[trigger] run(t, ops.push(op)) == applied(run(t, ops), op),
{
    assert(ops.push(op).drop_last() =~= ops);
}

/// Changes in two parts are made one part after the other.
pub proof fn lemma_run_concat(t: Tables, a: Seq<TableOp>, b: Seq<TableOp>)
    ensures
        run(t, a + b) == run(run(t, a), b),
    decreases b.len(),
{
    if b.len() == 0 {
        assert(a + b =~= a);
    } else {
        lemma_run_concat(t, a, b.drop_last());
        assert((a + b).drop_last() =~= a + b.drop_last());
        assert((a + b).last() == b.last());
    }
}

} // verus!
