//! The rules of the local store: which tables each operation changes, and how.
//!
//! An operation takes what was read and returns the changes to make, in order. Its contract
//! says what the tables hold once the changes are made.

use vstd::prelude::*;

use super::graph::{updated_node, Edge, EdgeView, Node, NodeView};
use super::node::{uuid_text, EdgeId, NodeId, Timestamp};
use super::tables::{lemma_run_push, run, TableOp, Tables};
use super::tiered::{index_of, node_of, IndexView, NodeIndex, PayloadLocation};
use super::value::{PropertyMap, Value, ValueView};
use crate::codec::copy_bytes;
use crate::order::{order_by, ordered, Direction};
use crate::text::{copy_str, push_str, same_text};

verus! {

broadcast use lemma_run_push;

/// Statistics of the local store.
#[derive(Debug, Clone, Copy)]
pub struct StorageStats {
    /// Number of nodes.
    pub node_count: u64,
    /// Number of edges.
    pub edge_count: u64,
    /// Number of schemas.
    pub schema_count: u64,
    /// Size of the database file in bytes.
    pub size_bytes: u64,
}

/// A failure of the local store.
#[derive(Debug)]
pub enum StoreError {
    /// There is no node with this identifier.
    NodeNotFound(NodeId),
    /// There is no full-text index on this type and field.
    NoFulltextIndex(String, String),
}

impl StoreError {
    /// The message of the error.
    pub open spec fn text(&self) -> Seq<char> {
        match *self {
            StoreError::NodeNotFound(id) => "Node not found: "@ + uuid_text(id@),
            StoreError::NoFulltextIndex(t, f) => "No full-text index on "@ + t@ + "."@ + f@,
        }
    }

    /// The message of the error.
    pub fn message(&self) -> (r: String)
        ensures
            r@ == self.text(),
    {
        match self {
            StoreError::NodeNotFound(id) => {
                let mut m = copy_str("Node not found: ");
                push_str(&mut m, id.to_string().as_str());
                m
            },
            StoreError::NoFulltextIndex(t, f) => {
                let mut m = copy_str("No full-text index on ");
                push_str(&mut m, t.as_str());
                push_str(&mut m, ".");
                push_str(&mut m, f.as_str());
                m
            },
        }
    }
}

/// The operations of the local store.
pub struct LocalStorage;

/// What a read of one key gave.
pub open spec fn read_as<V, T: View<V = V>>(table: Map<Seq<u8>, V>, id: Seq<u8>, r: Option<&T>) -> bool {
    match r {
        Some(x) => table.dom().contains(id) && table[id] == x@,
        None => !table.dom().contains(id),
    }
}

/// The identifiers of some edges.
pub open spec fn id_set(ids: Seq<EdgeId>) -> Set<Seq<u8>> {
    Set::new(|e: Seq<u8>| exists|i: int| 0 <= i < ids.len() && (#[trigger] ids[i])@ == e)
}

/// What a read of the edges under a node gave.
pub open spec fn links_read_as(
    table: Set<(Seq<u8>, Seq<u8>)>,
    node: Seq<u8>,
    ids: Seq<EdgeId>,
) -> bool {
    forall|e: Seq<u8>| #[trigger] table.contains((node, e)) <==> id_set(ids).contains(e)
}

/// The tables with a whole node stored.
pub open spec fn node_inserted(t: Tables, n: NodeView) -> Tables {
    Tables {
        nodes: t.nodes.insert(n.id, n),
        node_types: t.node_types.insert((n.node_type, n.id)),
        ..t
    }
}

/// The tables with an edge stored and entered under both its ends and its type.
pub open spec fn edge_inserted(t: Tables, e: EdgeView) -> Tables {
    Tables {
        edges: t.edges.insert(e.id, e),
        edge_from: t.edge_from.insert((e.from, e.id)),
        edge_to: t.edge_to.insert((e.to, e.id)),
        edge_types: t.edge_types.insert((e.edge_type, e.id)),
        ..t
    }
}

/// The tables with some edges stored, in order.
pub open spec fn edges_inserted(t: Tables, edges: Seq<Edge>) -> Tables
    decreases edges.len(),
{
    if edges.len() == 0 {
        t
    } else {
        edge_inserted(edges_inserted(t, edges.drop_last()), edges.last()@)
    }
}

/// The tables without an edge. Where the edge is stored, it leaves the lists of its ends and
/// of its type too.
pub open spec fn edge_deleted(t: Tables, id: Seq<u8>) -> Tables {
    if t.edges.dom().contains(id) {
        let e = t.edges[id];
        Tables {
            edges: t.edges.remove(id),
            edge_from: t.edge_from.remove((e.from, id)),
            edge_to: t.edge_to.remove((e.to, id)),
            edge_types: t.edge_types.remove((e.edge_type, id)),
            ..t
        }
    } else {
        t
    }
}

/// The tables without the edges that are listed under a node, and without those two lists.
pub open spec fn edges_cut(t: Tables, node: Seq<u8>) -> Tables {
    Tables {
        edges: t.edges.remove_keys(
            Set::new(|e: Seq<u8>| t.edge_from.contains((node, e)) || t.edge_to.contains((node, e))),
        ),
        edge_from: t.edge_from.filter(|p: (Seq<u8>, Seq<u8>)| p.0 != node),
        edge_to: t.edge_to.filter(|p: (Seq<u8>, Seq<u8>)| p.0 != node),
        ..t
    }
}

/// The tables without a node under a type, if it has one.
pub open spec fn type_cut(t: Tables, node: Seq<u8>, node_type: Option<Seq<char>>) -> Tables {
    match node_type {
        Some(k) => Tables { node_types: t.node_types.remove((k, node)), ..t },
        None => t,
    }
}

/// The type of a whole node.
pub open spec fn stored_type(t: Tables, id: Seq<u8>) -> Option<Seq<char>> {
    if t.nodes.dom().contains(id) {
        Some(t.nodes[id].node_type)
    } else {
        None
    }
}

/// The type of a node: that of its index record, else that of the whole node.
pub open spec fn indexed_type(t: Tables, id: Seq<u8>) -> Option<Seq<char>> {
    if t.indexes.dom().contains(id) {
        Some(t.indexes[id].node_type)
    } else {
        stored_type(t, id)
    }
}

/// The tables without a whole node and the edges listed under it.
pub open spec fn node_deleted(t: Tables, id: Seq<u8>) -> Tables {
    let u = edges_cut(type_cut(t, id, stored_type(t, id)), id);
    Tables { nodes: t.nodes.remove(id), ..u }
}

/// The tables without a node, its index record, its payload and the edges listed under it.
pub open spec fn node_deleted_tiered(t: Tables, id: Seq<u8>) -> Tables {
    let u = edges_cut(type_cut(t, id, indexed_type(t, id)), id);
    Tables {
        nodes: t.nodes.remove(id),
        indexes: t.indexes.remove(id),
        payloads: t.payloads.remove(id),
        ..u
    }
}

/// The tables with an index record and a payload stored.
pub open spec fn tiered_inserted(t: Tables, id: Seq<u8>, x: IndexView, payload: Seq<u8>) -> Tables {
    Tables {
        indexes: t.indexes.insert(id, x),
        payloads: t.payloads.insert(id, payload),
        node_types: t.node_types.insert((x.node_type, id)),
        ..t
    }
}

/// The tables with some index records and payloads stored, in order.
pub open spec fn tiered_batch_inserted(
    t: Tables,
    nodes: Seq<(NodeId, NodeIndex, Vec<u8>)>,
) -> Tables
    decreases nodes.len(),
{
    if nodes.len() == 0 {
        t
    } else {
        let n = nodes.last();
        tiered_inserted(tiered_batch_inserted(t, nodes.drop_last()), n.0@, n.1@, n.2@)
    }
}

/// The tables with an index record, a payload and the whole node brought up to date.
pub open spec fn tiered_updated(
    t: Tables,
    id: Seq<u8>,
    x: IndexView,
    payload: Seq<u8>,
    properties: Map<Seq<char>, ValueView>,
) -> Tables {
    Tables {
        indexes: t.indexes.insert(id, x),
        payloads: t.payloads.insert(id, payload),
        nodes: t.nodes.insert(id, node_of(x, id, properties)),
        ..t
    }
}

/// The tables with an index record and a payload for each of some whole nodes.
pub open spec fn migrated(t: Tables, nodes: Seq<(Node, Vec<u8>)>) -> Tables
    decreases nodes.len(),
{
    if nodes.len() == 0 {
        t
    } else {
        let u = migrated(t, nodes.drop_last());
        let (n, payload) = nodes.last();
        Tables {
            indexes: u.indexes.insert(
                n.id@,
                index_of(n@, PayloadLocation::Local, payload@.len(), n.properties@.len()),
            ),
            payloads: u.payloads.insert(n.id@, payload@),
            ..u
        }
    }
}

/// Those of some reads that found something, in order.
pub open spec fn present<T>(found: Seq<Option<T>>) -> Seq<T>
    decreases found.len(),
{
    if found.len() == 0 {
        Seq::empty()
    } else {
        match found.last() {
            Some(x) => present(found.drop_last()).push(x),
            None => present(found.drop_last()),
        }
    }
}

/// The first elements of a sequence, up to a limit if there is one.
pub open spec fn limited<T>(s: Seq<T>, limit: Option<usize>) -> Seq<T> {
    match limit {
        Some(n) if n < s.len() => s.take(n as int),
        _ => s,
    }
}

/// Whether an edge has a type, if one is asked for.
pub open spec fn of_type(e: Edge, edge_type: Option<&str>) -> bool {
    match edge_type {
        Some(k) => e.edge_type@ == k@,
        None => true,
    }
}

/// Whether a payload may move to the bucket: it is local and not smaller than the minimum.
pub open spec fn may_leave(x: IndexView, min_size: u32) -> bool {
    x.payload_location == PayloadLocation::Local && x.payload_size >= min_size
}

/// Those of some records whose payload may move to the bucket.
pub open spec fn evictable(records: Seq<(NodeId, NodeIndex)>, min_size: u32) -> Seq<
    (NodeId, NodeIndex),
> {
    records.filter(|p: (NodeId, NodeIndex)| may_leave(p.1@, min_size))
}

/// When the nodes of some records were last changed.
pub open spec fn change_times(records: Seq<(NodeId, NodeIndex)>) -> Seq<i64> {
    records.map_values(|p: (NodeId, NodeIndex)| p.1.updated_at.millis)
}

impl LocalStorage {
    /// Stores a whole node and enters it under its type.
    pub fn insert_node(node: &Node) -> (r: Vec<TableOp>)
        ensures
            forall|t: Tables| #[trigger] run(t, r@) == node_inserted(t, node@),
    {
        let mut ops: Vec<TableOp> = Vec::new();
        ops.push(TableOp::PutNode(node.copy()));
        ops.push(TableOp::LinkNodeType(copy_str(node.node_type.as_str()), node.id));
        ops
    }

    /// Puts the entries of an object into the properties of a whole node.
    pub fn update_node(
        id: NodeId,
        stored: Option<Node>,
        properties: &Value,
        now: Timestamp,
    ) -> (r: Result<(Node, Vec<TableOp>), StoreError>)
        requires
            stored matches Some(n) ==> n.id@ == id@,
        ensures
            match r {
                Ok((node, ops)) => {
                    &&& stored is Some
                    &&& node@ == updated_node(stored->0@, properties@, now)
                    &&& forall|t: Tables| #[trigger]
                        run(t, ops@) == (Tables { nodes: t.nodes.insert(id@, node@), ..t })
                },
                Err(e) => stored is None && e == StoreError::NodeNotFound(id),
            },
    {
        match stored {
            Some(mut node) => {
                node.update(properties, now);
                let mut ops: Vec<TableOp> = Vec::new();
                ops.push(TableOp::PutNode(node.copy()));
                Ok((node, ops))
            },
            None => Err(StoreError::NodeNotFound(id)),
        }
    }

    fn cut_edges(
        ops: &mut Vec<TableOp>,
        id: NodeId,
        outgoing: &[EdgeId],
        incoming: &[EdgeId],
    )
        ensures
            forall|t: Tables|
                links_read_as(t.edge_from, id@, outgoing@) && links_read_as(
                    t.edge_to,
                    id@,
                    incoming@,
                ) && run(t, old(ops)@).edge_from == t.edge_from && run(t, old(ops)@).edge_to
                    == t.edge_to ==> #[trigger] run(t, final(ops)@) == edges_cut(
                    run(t, old(ops)@),
                    id@,
                ),
    {
        let ghost start = ops@;
        let mut i: usize = 0;
        while i < outgoing.len()
            invariant
                i <= outgoing.len(),
                forall|t: Tables| #[trigger]
                    run(t, ops@) == listed_cut(
                        run(t, start),
                        id@,
                        outgoing@.take(i as int),
                        Seq::empty(),
                    ),
            decreases outgoing.len() - i,
        {
            let ghost done = outgoing@.take(i as int);
            let ghost more = outgoing@.take(i + 1);
            let e = outgoing[i];
            ops.push(TableOp::RemoveEdge(e));
            ops.push(TableOp::UnlinkFrom(id, e));
            proof {
                assert(more =~= done.push(e));
                assert forall|t: Tables| #[trigger]
                    run(t, ops@) == listed_cut(run(t, start), id@, more, Seq::empty()) by {
                    lemma_listed_cut_from(run(t, start), id@, done, e);
                }
            }
            i = i + 1;
        }
        assert(outgoing@.take(i as int) =~= outgoing@);
        let mut j: usize = 0;
        assert(incoming@.take(0) =~= Seq::<EdgeId>::empty());
        while j < incoming.len()
            invariant
                j <= incoming.len(),
                forall|t: Tables| #[trigger]
                    run(t, ops@) == listed_cut(
                        run(t, start),
                        id@,
                        outgoing@,
                        incoming@.take(j as int),
                    ),
            decreases incoming.len() - j,
        {
            let ghost done = incoming@.take(j as int);
            let ghost more = incoming@.take(j + 1);
            let e = incoming[j];
            ops.push(TableOp::RemoveEdge(e));
            ops.push(TableOp::UnlinkTo(id, e));
            proof {
                assert(more =~= done.push(e));
                assert forall|t: Tables| #[trigger]
                    run(t, ops@) == listed_cut(run(t, start), id@, outgoing@, more) by {
                    lemma_listed_cut_to(run(t, start), id@, outgoing@, done, e);
                }
            }
            j = j + 1;
        }
        assert(incoming@.take(j as int) =~= incoming@);
        proof {
            assert forall|t: Tables|
                links_read_as(t.edge_from, id@, outgoing@) && links_read_as(
                    t.edge_to,
                    id@,
                    incoming@,
                ) && run(t, start).edge_from == t.edge_from && run(t, start).edge_to
                    == t.edge_to implies #[trigger] run(t, ops@) == edges_cut(
                run(t, start),
                id@,
            ) by {
                lemma_listed_cut_all(run(t, start), id@, outgoing@, incoming@);
            }
        }
    }

    /// Removes a whole node and the edges that are listed under it.
    pub fn delete_node(
        id: NodeId,
        stored: Option<&Node>,
        outgoing: &[EdgeId],
        incoming: &[EdgeId],
    ) -> (r: Vec<TableOp>)
        ensures
            forall|t: Tables|
                read_as(t.nodes, id@, stored) && links_read_as(t.edge_from, id@, outgoing@)
                    && links_read_as(t.edge_to, id@, incoming@) ==> #[trigger] run(t, r@)
                    == node_deleted(t, id@),
    {
        let mut ops: Vec<TableOp> = Vec::new();
        if let Some(node) = stored {
            ops.push(TableOp::UnlinkNodeType(copy_str(node.node_type.as_str()), id));
        }
        ops.push(TableOp::RemoveNode(id));
        LocalStorage::cut_edges(&mut ops, id, outgoing, incoming);
        ops
    }

    /// Removes a node, its index record, its payload and the edges that are listed under it.
    pub fn delete_node_tiered(
        id: NodeId,
        index: Option<&NodeIndex>,
        stored: Option<&Node>,
        outgoing: &[EdgeId],
        incoming: &[EdgeId],
    ) -> (r: Vec<TableOp>)
        ensures
            forall|t: Tables|
                read_as(t.indexes, id@, index) && read_as(t.nodes, id@, stored) && links_read_as(
                    t.edge_from,
                    id@,
                    outgoing@,
                ) && links_read_as(t.edge_to, id@, incoming@) ==> #[trigger] run(t, r@)
                    == node_deleted_tiered(t, id@),
    {
        let mut ops: Vec<TableOp> = Vec::new();
        match index {
            Some(x) => {
                ops.push(TableOp::UnlinkNodeType(copy_str(x.node_type.as_str()), id));
            },
            None => {
                if let Some(node) = stored {
                    ops.push(TableOp::UnlinkNodeType(copy_str(node.node_type.as_str()), id));
                }
            },
        }
        ops.push(TableOp::RemoveIndex(id));
        ops.push(TableOp::RemovePayload(id));
        ops.push(TableOp::RemoveNode(id));
        LocalStorage::cut_edges(&mut ops, id, outgoing, incoming);
        ops
    }

    fn push_edge(ops: &mut Vec<TableOp>, edge: &Edge)
        ensures
            forall|t: Tables| #[trigger]
                run(t, final(ops)@) == edge_inserted(run(t, old(ops)@), edge@),
    {
        ops.push(TableOp::PutEdge(edge.copy()));
        ops.push(TableOp::LinkFrom(edge.from, edge.id));
        ops.push(TableOp::LinkTo(edge.to, edge.id));
        ops.push(TableOp::LinkEdgeType(copy_str(edge.edge_type.as_str()), edge.id));
    }

    /// Stores an edge and enters it under both its ends and its type.
    pub fn insert_edge(edge: &Edge) -> (r: Vec<TableOp>)
        ensures
            forall|t: Tables| #[trigger] run(t, r@) == edge_inserted(t, edge@),
    {
        let mut ops: Vec<TableOp> = Vec::new();
        LocalStorage::push_edge(&mut ops, edge);
        ops
    }

    /// Stores some edges in order.
    pub fn insert_edges_batch(edges: &[Edge]) -> (r: Vec<TableOp>)
        ensures
            forall|t: Tables| #[trigger] run(t, r@) == edges_inserted(t, edges@),
    {
        let mut ops: Vec<TableOp> = Vec::new();
        let mut i: usize = 0;
        while i < edges.len()
            invariant
                i <= edges.len(),
                forall|t: Tables| #[trigger]
                    run(t, ops@) == edges_inserted(t, edges@.take(i as int)),
            decreases edges.len() - i,
        {
            let ghost before = ops@;
            LocalStorage::push_edge(&mut ops, &edges[i]);
            proof {
                let more = edges@.take(i + 1);
                assert(more.drop_last() =~= edges@.take(i as int));
                assert(more.last() == edges@[i as int]);
                assert forall|t: Tables| #[trigger] run(t, ops@) == edges_inserted(t, more) by {
                    assert(run(t, before) == edges_inserted(t, edges@.take(i as int)));
                }
            }
            i = i + 1;
        }
        assert(edges@.take(i as int) =~= edges@);
        ops
    }

    /// Removes an edge; a stored edge leaves the lists of its ends and of its type too.
    pub fn delete_edge(id: EdgeId, stored: Option<&Edge>) -> (r: Vec<TableOp>)
        ensures
            forall|t: Tables|
                read_as(t.edges, id@, stored) ==> #[trigger] run(t, r@) == edge_deleted(t, id@),
    {
        let mut ops: Vec<TableOp> = Vec::new();
        if let Some(edge) = stored {
            ops.push(TableOp::UnlinkFrom(edge.from, id));
            ops.push(TableOp::UnlinkTo(edge.to, id));
            ops.push(TableOp::UnlinkEdgeType(copy_str(edge.edge_type.as_str()), id));
        }
        ops.push(TableOp::RemoveEdge(id));
        proof {
            assert forall|t: Tables| read_as(t.edges, id@, stored) implies #[trigger] run(t, ops@)
                == edge_deleted(t, id@) by {
                if stored is None {
                    assert(t.edges.remove(id@) =~= t.edges);
                }
            }
        }
        ops
    }

    fn push_tiered(ops: &mut Vec<TableOp>, id: NodeId, index: &NodeIndex, payload: &[u8])
        ensures
            forall|t: Tables| #[trigger]
                run(t, final(ops)@) == tiered_inserted(run(t, old(ops)@), id@, index@, payload@),
    {
        ops.push(TableOp::PutIndex(id, index.copy()));
        ops.push(TableOp::PutPayload(id, copy_bytes(payload)));
        ops.push(TableOp::LinkNodeType(copy_str(index.node_type.as_str()), id));
    }

    /// Stores an index record and a payload, and enters the node under its type.
    pub fn insert_node_tiered(id: NodeId, index: &NodeIndex, payload: &[u8]) -> (r: Vec<TableOp>)
        ensures
            forall|t: Tables| #[trigger]
                run(t, r@) == tiered_inserted(t, id@, index@, payload@),
    {
        let mut ops: Vec<TableOp> = Vec::new();
        LocalStorage::push_tiered(&mut ops, id, index, payload);
        ops
    }

    /// Stores some index records and payloads in order.
    pub fn insert_nodes_tiered_batch(nodes: &[(NodeId, NodeIndex, Vec<u8>)]) -> (r: Vec<TableOp>)
        ensures
            forall|t: Tables| #[trigger] run(t, r@) == tiered_batch_inserted(t, nodes@),
    {
        let mut ops: Vec<TableOp> = Vec::new();
        let mut i: usize = 0;
        while i < nodes.len()
            invariant
                i <= nodes.len(),
                forall|t: Tables| #[trigger]
                    run(t, ops@) == tiered_batch_inserted(t, nodes@.take(i as int)),
            decreases nodes.len() - i,
        {
            let ghost before = ops@;
            let n = &nodes[i];
            LocalStorage::push_tiered(&mut ops, n.0, &n.1, n.2.as_slice());
            proof {
                let more = nodes@.take(i + 1);
                assert(more.drop_last() =~= nodes@.take(i as int));
                assert(more.last() == nodes@[i as int]);
                assert forall|t: Tables| #[trigger]
                    run(t, ops@) == tiered_batch_inserted(t, more) by {
                    assert(run(t, before) == tiered_batch_inserted(t, nodes@.take(i as int)));
                }
            }
            i = i + 1;
        }
        assert(nodes@.take(i as int) =~= nodes@);
        ops
    }

    /// Brings an index record, a payload and the whole node up to date.
    pub fn update_node_tiered(
        id: NodeId,
        index: &NodeIndex,
        payload: &[u8],
        properties: PropertyMap,
    ) -> (r: Vec<TableOp>)
        ensures
            forall|t: Tables| #[trigger]
                run(t, r@) == tiered_updated(t, id@, index@, payload@, properties.map()),
    {
        let mut ops: Vec<TableOp> = Vec::new();
        ops.push(TableOp::PutIndex(id, index.copy()));
        ops.push(TableOp::PutPayload(id, copy_bytes(payload)));
        ops.push(TableOp::PutNode(index.to_node(id, properties)));
        ops
    }

    /// Stores a payload.
    pub fn put_payload(id: NodeId, payload: &[u8]) -> (r: Vec<TableOp>)
        ensures
            forall|t: Tables| #[trigger]
                run(t, r@) == (Tables { payloads: t.payloads.insert(id@, payload@), ..t }),
    {
        let mut ops: Vec<TableOp> = Vec::new();
        ops.push(TableOp::PutPayload(id, copy_bytes(payload)));
        ops
    }

    /// Removes a payload.
    pub fn delete_payload(id: NodeId) -> (r: Vec<TableOp>)
        ensures
            forall|t: Tables| #[trigger]
                run(t, r@) == (Tables { payloads: t.payloads.remove(id@), ..t }),
    {
        let mut ops: Vec<TableOp> = Vec::new();
        ops.push(TableOp::RemovePayload(id));
        ops
    }

    /// Stores an index record.
    pub fn update_node_index(id: NodeId, index: &NodeIndex) -> (r: Vec<TableOp>)
        ensures
            forall|t: Tables| #[trigger]
                run(t, r@) == (Tables { indexes: t.indexes.insert(id@, index@), ..t }),
    {
        let mut ops: Vec<TableOp> = Vec::new();
        ops.push(TableOp::PutIndex(id, index.copy()));
        ops
    }

    /// The index record of a node: the stored one, else one made from the whole node, whose
    /// payload would have a given size.
    pub fn get_node_index(
        index: Option<NodeIndex>,
        stored: Option<&Node>,
        payload_size: usize,
    ) -> (r: Option<NodeIndex>)
        ensures
            match (index, stored) {
                (Some(x), _) => r == Some(x),
                (None, Some(n)) => r is Some && r->0@ == index_of(
                    n@,
                    PayloadLocation::Local,
                    payload_size as nat,
                    n.properties@.len(),
                ),
                (None, None) => r is None,
            },
    {
        match index {
            Some(x) => Some(x),
            None => match stored {
                Some(n) => Some(NodeIndex::from_node(n, PayloadLocation::Local, payload_size)),
                None => None,
            },
        }
    }

    /// The payload of a node: the stored one, else that of the whole node.
    pub fn get_payload(stored: Option<Vec<u8>>, whole: Option<Vec<u8>>) -> (r: Option<Vec<u8>>)
        ensures
            r == (if stored is Some {
                stored
            } else {
                whole
            }),
    {
        match stored {
            Some(p) => Some(p),
            None => whole,
        }
    }

    /// The nodes of a type: those of the listed that are stored, up to a limit.
    pub fn get_nodes_by_type(found: Vec<Option<Node>>, limit: Option<usize>) -> (r: Vec<Node>)
        ensures
            r@ == limited(present(found@), limit),
    {
        gather(found, limit)
    }

    /// The edges of a type: those of the listed that are stored, up to a limit.
    pub fn get_edges_by_type(found: Vec<Option<Edge>>, limit: Option<usize>) -> (r: Vec<Edge>)
        ensures
            r@ == limited(present(found@), limit),
    {
        gather(found, limit)
    }

    /// The index records of a type: those of the listed that are stored, up to a limit.
    pub fn get_node_indexes_by_type(
        found: Vec<Option<(NodeId, NodeIndex)>>,
        limit: Option<usize>,
    ) -> (r: Vec<(NodeId, NodeIndex)>)
        ensures
            r@ == limited(present(found@), limit),
    {
        gather(found, limit)
    }

    /// All nodes, up to a limit.
    pub fn get_all_nodes(stored: Vec<Node>, limit: Option<usize>) -> (r: Vec<Node>)
        ensures
            r@ == limited(stored@, limit),
    {
        cut_to(stored, limit)
    }

    /// All index records, up to a limit; where there is none, those made from whole nodes.
    pub fn get_all_node_indexes(
        indexed: Vec<(NodeId, NodeIndex)>,
        whole: Vec<(NodeId, NodeIndex)>,
        limit: Option<usize>,
    ) -> (r: Vec<(NodeId, NodeIndex)>)
        ensures
            r@ == (if limited(indexed@, limit).len() > 0 {
                limited(indexed@, limit)
            } else {
                limited(whole@, limit)
            }),
    {
        let first = cut_to(indexed, limit);
        if first.len() > 0 {
            first
        } else {
            cut_to(whole, limit)
        }
    }

    fn select_edges(found: Vec<Option<Edge>>, edge_type: Option<&str>) -> (r: Vec<Edge>)
        ensures
            r@ == present(found@).filter(|e: Edge| of_type(e, edge_type)),
    {
        let ghost all = found@;
        let ghost keep = |e: Edge| of_type(e, edge_type);
        let mut out: Vec<Edge> = Vec::new();
        assert(all.take(0) =~= Seq::<Option<Edge>>::empty());
        assert(present(all.take(0)).filter(keep) =~= Seq::<Edge>::empty()) by {
            reveal(Seq::filter);
        }
        for x in it: found.into_iter()
            invariant
                it.seq() == all,
                keep == (|e: Edge| of_type(e, edge_type)),
                out@ == present(all.take(it.index())).filter(keep),
        {
            let ghost i = it.index();
            let ghost done = all.take(i);
            let ghost more = all.take(i + 1);
            proof {
                assert(more.drop_last() =~= done);
                assert(more.last() == x);
            }
            if let Some(edge) = x {
                proof {
                    crate::facts::lemma_filter_push(present(done), edge, keep);
                }
                let wanted: bool = match edge_type {
                    Some(k) => same_text(edge.edge_type.as_str(), k),
                    None => true,
                };
                if wanted {
                    out.push(edge);
                }
            }
        }
        assert(all.take(all.len() as int) =~= all);
        out
    }

    /// The edges that leave a node: those of the listed that are stored and of the type asked
    /// for, if any.
    pub fn get_edges_from(found: Vec<Option<Edge>>, edge_type: Option<&str>) -> (r: Vec<Edge>)
        ensures
            r@ == present(found@).filter(|e: Edge| of_type(e, edge_type)),
    {
        LocalStorage::select_edges(found, edge_type)
    }

    /// The edges that enter a node: those of the listed that are stored and of the type asked
    /// for, if any.
    pub fn get_edges_to(found: Vec<Option<Edge>>, edge_type: Option<&str>) -> (r: Vec<Edge>)
        ensures
            r@ == present(found@).filter(|e: Edge| of_type(e, edge_type)),
    {
        LocalStorage::select_edges(found, edge_type)
    }

    /// The nodes whose payloads may move to the bucket, those changed longest ago first: nodes
    /// with a local payload of at least a given size, with that size.
    pub fn get_eviction_candidates(records: &[(NodeId, NodeIndex)], min_size: u32) -> (r: Vec<
        (NodeId, u32),
    >)
        ensures
            exists|o: Seq<usize>| #[trigger]
                ordered(
                    change_times(evictable(records@, min_size)),
                    Direction::Ascending,
                    o,
                ) && r@ == Seq::new(
                    o.len(),
                    |i: int|
                        {
                            let c = evictable(records@, min_size)[o[i] as int];
                            (c.0, c.1.payload_size)
                        },
                ),
    {
        let ghost keep = |p: (NodeId, NodeIndex)| may_leave(p.1@, min_size);
        let mut chosen: Vec<(NodeId, u32)> = Vec::new();
        let mut times: Vec<i64> = Vec::new();
        let mut i: usize = 0;
        assert(records@.take(0).filter(keep) =~= Seq::empty()) by {
            reveal(Seq::filter);
        }
        while i < records.len()
            invariant
                i <= records@.len(),
                keep == (|p: (NodeId, NodeIndex)| may_leave(p.1@, min_size)),
                ({
                    let c = records@.take(i as int).filter(keep);
                    &&& times@ == change_times(c)
                    &&& chosen@.len() == c.len()
                    &&& forall|k: int|
                        0 <= k < c.len() ==> #[trigger] chosen@[k] == (c[k].0, c[k].1.payload_size)
                }),
            decreases records@.len() - i,
        {
            let record = &records[i];
            proof {
                assert(records@.take(i + 1) =~= records@.take(i as int).push(records@[i as int]));
                crate::facts::lemma_filter_push(records@.take(i as int), *record, keep);
            }
            let ghost c = records@.take(i as int).filter(keep);
            if record.1.payload_location == PayloadLocation::Local && record.1.payload_size
                >= min_size {
                chosen.push((record.0, record.1.payload_size));
                times.push(record.1.updated_at.millis);
                assert(times@ =~= change_times(c.push(*record)));
            }
            i = i + 1;
        }
        assert(records@.take(i as int) =~= records@);
        let order = order_by(times.as_slice(), Direction::Ascending);
        let mut out: Vec<(NodeId, u32)> = Vec::new();
        let mut j: usize = 0;
        while j < order.len()
            invariant
                j <= order@.len(),
                forall|k: int| 0 <= k < order@.len() ==> (#[trigger] order@[k]) < chosen@.len(),
                out@.len() == j,
                forall|k: int|
                    0 <= k < j ==> #[trigger] out@[k] == chosen@[order@[k] as int],
            decreases order@.len() - j,
        {
            out.push(chosen[order[j]]);
            j = j + 1;
        }
        proof {
            let c = evictable(records@, min_size);
            assert(out@ =~= Seq::new(
                order@.len(),
                |i: int| (c[order@[i] as int].0, c[order@[i] as int].1.payload_size),
            ));
            assert(ordered(change_times(c), Direction::Ascending, order@));
        }
        out
    }

    /// Statistics from the row counts of the tables: index records count as the nodes unless
    /// there is none.
    pub fn stats(indexed: u64, whole: u64, edges: u64, size_bytes: u64) -> (r: StorageStats)
        ensures
            r == (StorageStats {
                node_count: if indexed > 0 {
                    indexed
                } else {
                    whole
                },
                edge_count: edges,
                schema_count: 0,
                size_bytes,
            }),
    {
        StorageStats {
            node_count: if indexed > 0 {
                indexed
            } else {
                whole
            },
            edge_count: edges,
            schema_count: 0,
            size_bytes,
        }
    }

    /// Makes index records and payloads for whole nodes, unless there are index records
    /// already. Returns how many nodes were migrated.
    pub fn migrate_to_tiered(indexed: u64, nodes: &[(Node, Vec<u8>)]) -> (r: (u64, Vec<TableOp>))
        ensures
            indexed > 0 ==> r.0 == 0 && r.1@.len() == 0,
            indexed == 0 ==> r.0 == nodes@.len() && forall|t: Tables| #[trigger]
                run(t, r.1@) == migrated(t, nodes@),
    {
        let mut ops: Vec<TableOp> = Vec::new();
        if indexed > 0 {
            return (0, ops);
        }
        let mut i: usize = 0;
        while i < nodes.len()
            invariant
                i <= nodes.len(),
                forall|t: Tables| #[trigger] run(t, ops@) == migrated(t, nodes@.take(i as int)),
            decreases nodes.len() - i,
        {
            let ghost before = ops@;
            let n = &nodes[i];
            let index = NodeIndex::from_node(&n.0, PayloadLocation::Local, n.1.len());
            ops.push(TableOp::PutIndex(n.0.id, index));
            ops.push(TableOp::PutPayload(n.0.id, copy_bytes(n.1.as_slice())));
            proof {
                let more = nodes@.take(i + 1);
                assert(more.drop_last() =~= nodes@.take(i as int));
                assert(more.last() == nodes@[i as int]);
                assert forall|t: Tables| #[trigger] run(t, ops@) == migrated(t, more) by {
                    assert(run(t, before) == migrated(t, nodes@.take(i as int)));
                }
            }
            i = i + 1;
        }
        assert(nodes@.take(i as int) =~= nodes@);
        (nodes.len() as u64, ops)
    }
}

fn cut_to<T>(all: Vec<T>, limit: Option<usize>) -> (r: Vec<T>)
    ensures
        r@ == limited(all@, limit),
{
    let mut all = all;
    if let Some(n) = limit {
        if n < all.len() {
            all.truncate(n);
        }
    }
    all
}

fn gather<T>(found: Vec<Option<T>>, limit: Option<usize>) -> (r: Vec<T>)
    ensures
        r@ == limited(present(found@), limit),
{
    let ghost all = found@;
    let mut out: Vec<T> = Vec::new();
    assert(present(all.take(0)) =~= Seq::<T>::empty());
    for x in it: found.into_iter()
        invariant
            it.seq() == all,
            out@ == present(all.take(it.index())),
    {
        let ghost i = it.index();
        proof {
            assert(all.take(i + 1).drop_last() =~= all.take(i));
            assert(all.take(i + 1).last() == x);
        }
        if let Some(found_one) = x {
            out.push(found_one);
        }
    }
    assert(all.take(all.len() as int) =~= all);
    cut_to(out, limit)
}

/// The tables without some listed edges, and without those edges in the lists of a node.
spec fn listed_cut(t: Tables, node: Seq<u8>, out: Seq<EdgeId>, into: Seq<EdgeId>) -> Tables {
    Tables {
        edges: t.edges.remove_keys(id_set(out).union(id_set(into))),
        edge_from: t.edge_from.filter(
            |p: (Seq<u8>, Seq<u8>)| !(p.0 == node && id_set(out).contains(p.1)),
        ),
        edge_to: t.edge_to.filter(
            |p: (Seq<u8>, Seq<u8>)| !(p.0 == node && id_set(into).contains(p.1)),
        ),
        ..t
    }
}

proof fn lemma_id_set_push(ids: Seq<EdgeId>, e: EdgeId)
    ensures
        id_set(ids.push(e)) == id_set(ids).insert(e@),
        id_set(Seq::<EdgeId>::empty()) == Set::<Seq<u8>>::empty(),
{
    assert forall|x: Seq<u8>| id_set(ids.push(e)).contains(x) <==> #[trigger] id_set(ids).insert(
        e@,
    ).contains(x) by {
        if id_set(ids).contains(x) {
            let i = choose|i: int| 0 <= i < ids.len() && (#[trigger] ids[i])@ == x;
            assert(ids.push(e)[i]@ == x);
        }
        assert(ids.push(e)[ids.len() as int] == e);
        if id_set(ids.push(e)).contains(x) && x != e@ {
            let i = choose|i: int|
                0 <= i < ids.push(e).len() && (#[trigger] ids.push(e)[i])@ == x;
            assert(ids[i]@ == x);
        }
    }
    assert(id_set(ids.push(e)) =~= id_set(ids).insert(e@));
    assert(id_set(Seq::<EdgeId>::empty()) =~= Set::<Seq<u8>>::empty());
}

proof fn lemma_listed_cut_from(t: Tables, node: Seq<u8>, out: Seq<EdgeId>, e: EdgeId)
    ensures
        listed_cut(t, node, Seq::empty(), Seq::empty()) == t,
        ({
            let u = listed_cut(t, node, out, Seq::empty());
            Tables {
                edges: u.edges.remove(e@),
                edge_from: u.edge_from.remove((node, e@)),
                ..u
            }
        }) == listed_cut(t, node, out.push(e), Seq::empty()),
{
    lemma_id_set_push(out, e);
    let u = listed_cut(t, node, out, Seq::empty());
    let w = listed_cut(t, node, out.push(e), Seq::empty());
    assert(u.edges.remove(e@) =~= w.edges);
    assert(u.edge_from.remove((node, e@)) =~= w.edge_from);
    assert(u.edge_to =~= w.edge_to);
    assert(listed_cut(t, node, Seq::empty(), Seq::empty()) =~= t);
}

proof fn lemma_listed_cut_to(
    t: Tables,
    node: Seq<u8>,
    out: Seq<EdgeId>,
    into: Seq<EdgeId>,
    e: EdgeId,
)
    ensures
        ({
            let u = listed_cut(t, node, out, into);
            Tables { edges: u.edges.remove(e@), edge_to: u.edge_to.remove((node, e@)), ..u }
        }) == listed_cut(t, node, out, into.push(e)),
{
    lemma_id_set_push(into, e);
    let u = listed_cut(t, node, out, into);
    let w = listed_cut(t, node, out, into.push(e));
    assert(u.edges.remove(e@) =~= w.edges);
    assert(u.edge_to.remove((node, e@)) =~= w.edge_to);
    assert(u.edge_from =~= w.edge_from);
}

proof fn lemma_listed_cut_all(
    t: Tables,
    node: Seq<u8>,
    out: Seq<EdgeId>,
    into: Seq<EdgeId>,
)
    requires
        links_read_as(t.edge_from, node, out),
        links_read_as(t.edge_to, node, into),
    ensures
        listed_cut(t, node, out, into) == edges_cut(t, node),
{
    let u = listed_cut(t, node, out, into);
    let w = edges_cut(t, node);
    assert(u.edges =~= w.edges);
    assert forall|p: (Seq<u8>, Seq<u8>)| #[trigger] u.edge_from.contains(p)
        <==> w.edge_from.contains(p) by {
        assert(p == (p.0, p.1));
    }
    assert(u.edge_from =~= w.edge_from);
    assert forall|p: (Seq<u8>, Seq<u8>)| #[trigger] u.edge_to.contains(p) <==> w.edge_to.contains(
        p,
    ) by {
        assert(p == (p.0, p.1));
    }
    assert(u.edge_to =~= w.edge_to);
}

/// Every stored edge stands under its identifier and is listed under both its ends.
pub open spec fn connected(t: Tables) -> bool {
    forall|id: Seq<u8>| #[trigger]
        t.edges.dom().contains(id) ==> t.edges[id].id == id && t.edge_from.contains(
            (t.edges[id].from, id),
        ) && t.edge_to.contains((t.edges[id].to, id))
}

/// Every stored edge is listed under no node but its ends.
pub open spec fn accurate(t: Tables) -> bool {
    &&& forall|node: Seq<u8>, id: Seq<u8>|
        t.edges.dom().contains(id) && #[trigger] t.edge_from.contains((node, id)) ==> node
            == t.edges[id].from
    &&& forall|node: Seq<u8>, id: Seq<u8>|
        t.edges.dom().contains(id) && #[trigger] t.edge_to.contains((node, id)) ==> node
            == t.edges[id].to
}

/// Every node is listed under its type.
pub open spec fn typed(t: Tables) -> bool {
    &&& forall|id: Seq<u8>| #[trigger]
        t.nodes.dom().contains(id) ==> t.node_types.contains((t.nodes[id].node_type, id))
    &&& forall|id: Seq<u8>| #[trigger]
        t.indexes.dom().contains(id) ==> t.node_types.contains((t.indexes[id].node_type, id))
}

/// Stored edges stay listed under both their ends, whichever node or edge is stored or
/// removed.
pub proof fn law_edges_stay_listed(
    t: Tables,
    n: NodeView,
    e: EdgeView,
    x: IndexView,
    payload: Seq<u8>,
    id: Seq<u8>,
)
    requires
        connected(t),
    ensures
        connected(node_inserted(t, n)),
        connected(edge_inserted(t, e)),
        connected(tiered_inserted(t, id, x, payload)),
        connected(edge_deleted(t, id)),
        connected(node_deleted(t, id)),
        connected(node_deleted_tiered(t, id)),
{
    let u = edge_inserted(t, e);
    assert forall|k: Seq<u8>| #[trigger] u.edges.dom().contains(k) implies u.edges[k].id == k
        && u.edge_from.contains((u.edges[k].from, k)) && u.edge_to.contains(
        (u.edges[k].to, k),
    ) by {
        if k != e.id {
            assert(t.edges.dom().contains(k));
        }
    }
    let d = edge_deleted(t, id);
    assert forall|k: Seq<u8>| #[trigger] d.edges.dom().contains(k) implies d.edges[k].id == k
        && d.edge_from.contains((d.edges[k].from, k)) && d.edge_to.contains(
        (d.edges[k].to, k),
    ) by {
        assert(t.edges.dom().contains(k));
    }
    lemma_cut_stays_connected(t, id);
    let i = tiered_inserted(t, id, x, payload);
    assert(i.edges == t.edges && i.edge_from == t.edge_from && i.edge_to == t.edge_to);
    let g = node_deleted(t, id);
    let c = edges_cut(t, id);
    assert(g.edges == c.edges && g.edge_from == c.edge_from && g.edge_to == c.edge_to);
    let h = node_deleted_tiered(t, id);
    assert(h.edges == c.edges && h.edge_from == c.edge_from && h.edge_to == c.edge_to);
}

proof fn lemma_cut_stays_connected(t: Tables, node: Seq<u8>)
    requires
        connected(t),
    ensures
        connected(edges_cut(t, node)),
        forall|k: Seq<u8>| #[trigger]
            edges_cut(t, node).edges.dom().contains(k) ==> t.edges.dom().contains(k)
                && edges_cut(t, node).edges[k] == t.edges[k] && t.edges[k].from != node
                && t.edges[k].to != node,
{
    let c = edges_cut(t, node);
    assert forall|k: Seq<u8>| #[trigger] c.edges.dom().contains(k) implies t.edges.dom().contains(k)
        && c.edges[k] == t.edges[k] && t.edges[k].from != node && t.edges[k].to != node
        && c.edge_from.contains((c.edges[k].from, k)) && c.edge_to.contains(
        (c.edges[k].to, k),
    ) by {
        assert(t.edges.dom().contains(k));
    }
}

/// A removed node leaves no edge behind that starts or ends at it, no list of edges, no index
/// record, no payload and no entry under its type; every other node stays as it was.
pub proof fn law_deleted_node_is_gone(t: Tables, id: Seq<u8>, other: Seq<u8>)
    requires
        connected(t),
        other != id,
    ensures
        ({
            let u = node_deleted_tiered(t, id);
            &&& !u.nodes.dom().contains(id) && !u.indexes.dom().contains(id)
            &&& !u.payloads.dom().contains(id)
            &&& forall|k: Seq<u8>| #[trigger]
                u.edges.dom().contains(k) ==> u.edges[k].from != id && u.edges[k].to != id
            &&& forall|k: Seq<u8>| !(#[trigger] u.edge_from.contains((id, k)))
            &&& forall|k: Seq<u8>| !(#[trigger] u.edge_to.contains((id, k)))
            &&& indexed_type(t, id) matches Some(k) ==> !u.node_types.contains((k, id))
            &&& u.nodes.dom().contains(other) == t.nodes.dom().contains(other)
            &&& u.indexes.dom().contains(other) == t.indexes.dom().contains(other)
            &&& u.payloads.dom().contains(other) == t.payloads.dom().contains(other)
            &&& t.nodes.dom().contains(other) ==> u.nodes[other] == t.nodes[other]
            &&& t.indexes.dom().contains(other) ==> u.indexes[other] == t.indexes[other]
            &&& t.payloads.dom().contains(other) ==> u.payloads[other] == t.payloads[other]
        }),
        ({
            let u = node_deleted(t, id);
            &&& !u.nodes.dom().contains(id)
            &&& forall|k: Seq<u8>| #[trigger]
                u.edges.dom().contains(k) ==> u.edges[k].from != id && u.edges[k].to != id
            &&& forall|k: Seq<u8>| !(#[trigger] u.edge_from.contains((id, k)))
            &&& forall|k: Seq<u8>| !(#[trigger] u.edge_to.contains((id, k)))
            &&& stored_type(t, id) matches Some(k) ==> !u.node_types.contains((k, id))
            &&& u.nodes.dom().contains(other) == t.nodes.dom().contains(other)
            &&& t.nodes.dom().contains(other) ==> u.nodes[other] == t.nodes[other]
        }),
{
    lemma_cut_stays_connected(t, id);
    let c = edges_cut(t, id);
    let g = node_deleted(t, id);
    assert(g.edges == c.edges && g.edge_from == c.edge_from && g.edge_to == c.edge_to);
    let h = node_deleted_tiered(t, id);
    assert(h.edges == c.edges && h.edge_from == c.edge_from && h.edge_to == c.edge_to);
    assert forall|k: Seq<u8>| #[trigger] g.edges.dom().contains(k) implies g.edges[k].from != id
        && g.edges[k].to != id by {
        assert(c.edges.dom().contains(k));
    }
    assert forall|k: Seq<u8>| #[trigger] h.edges.dom().contains(k) implies h.edges[k].from != id
        && h.edges[k].to != id by {
        assert(c.edges.dom().contains(k));
    }
}

/// Where the lists are accurate, removing a node keeps every edge that does not touch it.
pub proof fn law_deleting_a_node_spares_other_edges(t: Tables, id: Seq<u8>, edge: Seq<u8>)
    requires
        accurate(t),
        t.edges.dom().contains(edge),
        t.edges[edge].from != id,
        t.edges[edge].to != id,
    ensures
        node_deleted(t, id).edges.dom().contains(edge),
        node_deleted(t, id).edges[edge] == t.edges[edge],
        node_deleted_tiered(t, id).edges.dom().contains(edge),
        node_deleted_tiered(t, id).edges[edge] == t.edges[edge],
{
    assert(!t.edge_from.contains((id, edge)));
    assert(!t.edge_to.contains((id, edge)));
}

/// A stored edge is listed under both its ends and its type, and reads back as it is.
pub proof fn law_inserted_edge_is_found(t: Tables, e: EdgeView)
    ensures
        ({
            let u = edge_inserted(t, e);
            &&& u.edges.dom().contains(e.id) && u.edges[e.id] == e
            &&& u.edge_from.contains((e.from, e.id))
            &&& u.edge_to.contains((e.to, e.id))
            &&& u.edge_types.contains((e.edge_type, e.id))
        }),
{
}

/// Removing an edge undoes storing it, where nothing was stored or listed under its
/// identifier.
pub proof fn law_delete_edge_undoes_insert(t: Tables, e: EdgeView)
    requires
        !t.edges.dom().contains(e.id),
        !t.edge_from.contains((e.from, e.id)),
        !t.edge_to.contains((e.to, e.id)),
        !t.edge_types.contains((e.edge_type, e.id)),
    ensures
        edge_deleted(edge_inserted(t, e), e.id) == t,
{
    let u = edge_deleted(edge_inserted(t, e), e.id);
    assert(u.edges =~= t.edges);
    assert(u.edge_from =~= t.edge_from);
    assert(u.edge_to =~= t.edge_to);
    assert(u.edge_types =~= t.edge_types);
}

/// Nodes stay listed under their types: by storing them, by an update that keeps the type,
/// and by removing one.
pub proof fn law_nodes_stay_typed(
    t: Tables,
    n: NodeView,
    x: IndexView,
    payload: Seq<u8>,
    properties: Map<Seq<char>, ValueView>,
    id: Seq<u8>,
)
    requires
        typed(t),
    ensures
        typed(node_inserted(t, n)),
        typed(tiered_inserted(t, id, x, payload)),
        t.node_types.contains((x.node_type, id)) ==> typed(
            tiered_updated(t, id, x, payload, properties),
        ),
        typed(node_deleted_tiered(t, id)),
        !t.indexes.dom().contains(id) ==> typed(node_deleted(t, id)),
{
    let a = node_inserted(t, n);
    assert forall|k: Seq<u8>| #[trigger] a.nodes.dom().contains(k) implies a.node_types.contains(
        (a.nodes[k].node_type, k),
    ) by {
        if k != n.id {
            assert(t.nodes.dom().contains(k));
        }
    }
    assert forall|k: Seq<u8>| #[trigger] a.indexes.dom().contains(k) implies a.node_types.contains(
        (a.indexes[k].node_type, k),
    ) by {
        assert(t.indexes.dom().contains(k));
    }
    let b = tiered_inserted(t, id, x, payload);
    assert forall|k: Seq<u8>| #[trigger] b.indexes.dom().contains(k) implies b.node_types.contains(
        (b.indexes[k].node_type, k),
    ) by {
        if k != id {
            assert(t.indexes.dom().contains(k));
        }
    }
    assert forall|k: Seq<u8>| #[trigger] b.nodes.dom().contains(k) implies b.node_types.contains(
        (b.nodes[k].node_type, k),
    ) by {
        assert(t.nodes.dom().contains(k));
    }
    let c = tiered_updated(t, id, x, payload, properties);
    if t.node_types.contains((x.node_type, id)) {
        assert forall|k: Seq<u8>| #[trigger]
            c.indexes.dom().contains(k) implies c.node_types.contains(
            (c.indexes[k].node_type, k),
        ) by {
            if k != id {
                assert(t.indexes.dom().contains(k));
            }
        }
        assert forall|k: Seq<u8>| #[trigger] c.nodes.dom().contains(k) implies c.node_types.contains(
            (c.nodes[k].node_type, k),
        ) by {
            if k != id {
                assert(t.nodes.dom().contains(k));
            }
        }
    }
    let d = node_deleted_tiered(t, id);
    assert forall|k: Seq<u8>| #[trigger] d.indexes.dom().contains(k) implies d.node_types.contains(
        (d.indexes[k].node_type, k),
    ) by {
        assert(t.indexes.dom().contains(k) && k != id);
    }
    assert forall|k: Seq<u8>| #[trigger] d.nodes.dom().contains(k) implies d.node_types.contains(
        (d.nodes[k].node_type, k),
    ) by {
        assert(t.nodes.dom().contains(k) && k != id);
    }
    if !t.indexes.dom().contains(id) {
        let g = node_deleted(t, id);
        assert forall|k: Seq<u8>| #[trigger]
            g.indexes.dom().contains(k) implies g.node_types.contains(
            (g.indexes[k].node_type, k),
        ) by {
            assert(t.indexes.dom().contains(k) && k != id);
        }
        assert forall|k: Seq<u8>| #[trigger] g.nodes.dom().contains(k) implies g.node_types.contains(
            (g.nodes[k].node_type, k),
        ) by {
            assert(t.nodes.dom().contains(k) && k != id);
        }
    }
}

/// Migration gives a whole node an index record of its type and times and a local payload,
/// and keeps the whole node.
pub proof fn law_migration_covers_every_node(t: Tables, nodes: Seq<(Node, Vec<u8>)>, i: int)
    requires
        0 <= i < nodes.len(),
        forall|a: int, b: int|
            0 <= a < b < nodes.len() ==> (#[trigger] nodes[a]).0.id@ != (#[trigger] nodes[b]).0.id@,
    ensures
        ({
            let u = migrated(t, nodes);
            let (n, payload) = nodes[i];
            &&& u.indexes.dom().contains(n.id@)
            &&& u.indexes[n.id@].node_type == n@.node_type
            &&& u.indexes[n.id@].created_at == n@.created_at
            &&& u.indexes[n.id@].updated_at == n@.updated_at
            &&& u.indexes[n.id@].payload_location == PayloadLocation::Local
            &&& u.payloads.dom().contains(n.id@) && u.payloads[n.id@] == payload@
            &&& u.nodes == t.nodes && u.edges == t.edges && u.node_types == t.node_types
        }),
    decreases nodes.len(),
{
    let head = nodes.drop_last();
    if i < nodes.len() - 1 {
        assert forall|a: int, b: int| 0 <= a < b < head.len() implies (#[trigger] head[a]).0.id@
            != (#[trigger] head[b]).0.id@ by {
            assert(nodes[a].0.id@ != nodes[b].0.id@);
        }
        law_migration_covers_every_node(t, head, i);
        assert(nodes[i].0.id@ != nodes[nodes.len() - 1].0.id@);
    } else {
        lemma_migration_keeps_the_rest(t, head);
    }
}

proof fn lemma_migration_keeps_the_rest(t: Tables, nodes: Seq<(Node, Vec<u8>)>)
    ensures
        migrated(t, nodes).nodes == t.nodes,
        migrated(t, nodes).edges == t.edges,
        migrated(t, nodes).node_types == t.node_types,
    decreases nodes.len(),
{
    if nodes.len() > 0 {
        lemma_migration_keeps_the_rest(t, nodes.drop_last());
    }
}

/// A stored node reads back and is listed under its type; the other nodes, and all else, stay.
pub proof fn law_inserted_node_is_found(
    t: Tables,
    n: NodeView,
    other: Seq<u8>,
    pair: (Seq<char>, Seq<u8>),
)
    requires
        other != n.id,
    ensures
        ({
            let u = node_inserted(t, n);
            &&& u.nodes.dom().contains(n.id) && u.nodes[n.id] == n
            &&& u.node_types.contains((n.node_type, n.id))
            &&& u.nodes.dom().contains(other) == t.nodes.dom().contains(other)
            &&& t.nodes.dom().contains(other) ==> u.nodes[other] == t.nodes[other]
            &&& u.node_types.contains(pair) ==> t.node_types.contains(pair) || pair == (
                n.node_type,
                n.id,
            )
            &&& t.node_types.contains(pair) ==> u.node_types.contains(pair)
            &&& u == (Tables { nodes: u.nodes, node_types: u.node_types, ..t })
        }),
{
}

/// Edges that are stored together all read back and are listed under their ends and types, where
/// their identifiers differ; edges that were there stay, and nothing else changes.
pub proof fn law_inserted_edges_are_found(t: Tables, edges: Seq<Edge>, i: int, other: Seq<u8>)
    requires
        0 <= i < edges.len(),
        forall|a: int, b: int|
            0 <= a < b < edges.len() ==> (#[trigger] edges[a])@.id != (#[trigger] edges[b])@.id,
        forall|a: int| 0 <= a < edges.len() ==> (#[trigger] edges[a])@.id != other,
    ensures
        ({
            let u = edges_inserted(t, edges);
            let e = edges[i]@;
            &&& u.edges.dom().contains(e.id) && u.edges[e.id] == e
            &&& u.edge_from.contains((e.from, e.id))
            &&& u.edge_to.contains((e.to, e.id))
            &&& u.edge_types.contains((e.edge_type, e.id))
            &&& u.edges.dom().contains(other) == t.edges.dom().contains(other)
            &&& t.edges.dom().contains(other) ==> u.edges[other] == t.edges[other]
            &&& u == (Tables {
                edges: u.edges,
                edge_from: u.edge_from,
                edge_to: u.edge_to,
                edge_types: u.edge_types,
                ..t
            })
        }),
    decreases edges.len(),
{
    let head = edges.drop_last();
    assert forall|a: int, b: int| 0 <= a < b < head.len() implies (#[trigger] head[a])@.id != (
    #[trigger] head[b])@.id by {
        assert(edges[a]@.id != edges[b]@.id);
    }
    assert forall|a: int| 0 <= a < head.len() implies (#[trigger] head[a])@.id != other by {
        assert(edges[a]@.id != other);
    }
    assert(edges[edges.len() - 1]@.id != other);
    if i < head.len() {
        assert(head[i] == edges[i]);
        law_inserted_edges_are_found(t, head, i, other);
        assert(edges[i]@.id != edges[edges.len() - 1]@.id);
    } else if head.len() > 0 {
        law_inserted_edges_are_found(t, head, 0, other);
    }
}

/// A node that is stored in two parts reads back in both and is listed under its type; an update
/// puts the new record, payload and properties in place of the earlier ones. Other nodes stay.
pub proof fn law_parts_read_back(
    t: Tables,
    id: Seq<u8>,
    x: IndexView,
    payload: Seq<u8>,
    properties: Map<Seq<char>, ValueView>,
    other: Seq<u8>,
)
    requires
        other != id,
    ensures
        ({
            let u = tiered_inserted(t, id, x, payload);
            &&& u.indexes.dom().contains(id) && u.indexes[id] == x
            &&& u.payloads.dom().contains(id) && u.payloads[id] == payload
            &&& u.node_types.contains((x.node_type, id))
            &&& u.indexes.dom().contains(other) == t.indexes.dom().contains(other)
            &&& t.indexes.dom().contains(other) ==> u.indexes[other] == t.indexes[other]
            &&& u.payloads.dom().contains(other) == t.payloads.dom().contains(other)
            &&& t.payloads.dom().contains(other) ==> u.payloads[other] == t.payloads[other]
            &&& u.nodes == t.nodes && u.edges == t.edges
        }),
        ({
            let u = tiered_updated(t, id, x, payload, properties);
            &&& u.indexes.dom().contains(id) && u.indexes[id] == x
            &&& u.payloads.dom().contains(id) && u.payloads[id] == payload
            &&& u.nodes.dom().contains(id)
            &&& u.nodes[id].id == id && u.nodes[id].properties == properties
            &&& u.nodes[id].node_type == x.node_type
            &&& u.nodes[id].created_at == x.created_at && u.nodes[id].updated_at == x.updated_at
            &&& u.nodes.dom().contains(other) == t.nodes.dom().contains(other)
            &&& t.nodes.dom().contains(other) ==> u.nodes[other] == t.nodes[other]
            &&& u.indexes.dom().contains(other) == t.indexes.dom().contains(other)
            &&& t.indexes.dom().contains(other) ==> u.indexes[other] == t.indexes[other]
            &&& u.payloads.dom().contains(other) == t.payloads.dom().contains(other)
            &&& t.payloads.dom().contains(other) ==> u.payloads[other] == t.payloads[other]
            &&& u.node_types == t.node_types && u.edges == t.edges
        }),
{
}

/// Whether `at` gives the places of all reads that found something, in order.
pub open spec fn found_at<T>(found: Seq<Option<T>>, r: Seq<T>, at: Seq<int>) -> bool {
    &&& at.len() == r.len()
    &&& forall|k: int|
        0 <= k < at.len() ==> 0 <= #[trigger] at[k] < found.len() && found[at[k]] == Some(r[k])
    &&& forall|j: int, k: int| 0 <= j < k < at.len() ==> #[trigger] at[j] < #[trigger] at[k]
    &&& forall|i: int| 0 <= i < found.len() && (#[trigger] found[i]) is Some ==> at.contains(i)
}

/// What reads found comes out whole and in order: as many as found something, and nothing else.
pub proof fn law_present<T>(found: Seq<Option<T>>) -> (at: Seq<int>)
    ensures
        found_at(found, present(found), at),
    decreases found.len(),
{
    if found.len() == 0 {
        Seq::empty()
    } else {
        let head = found.drop_last();
        let n = found.len() - 1;
        let a = law_present(head);
        let p = present(head);
        let r = present(found);
        let at = if found[n] is Some {
            a.push(n)
        } else {
            a
        };
        assert forall|k: int| 0 <= k < at.len() implies 0 <= #[trigger] at[k] < found.len()
            && found[at[k]] == Some(r[k]) by {
            if k < a.len() {
                assert(at[k] == a[k]);
                assert(head[a[k]] == found[a[k]]);
                assert(r[k] == p[k]);
            }
        }
        assert forall|j: int, k: int| 0 <= j < k < at.len() implies #[trigger] at[j]
            < #[trigger] at[k] by {
            assert(at[j] == a[j]);
            if k < a.len() {
                assert(at[k] == a[k]);
            }
        }
        assert forall|i: int| 0 <= i < found.len() && (
        #[trigger] found[i]) is Some implies at.contains(i) by {
            if i < n {
                assert(head[i] == found[i]);
                assert(a.contains(i));
                let k = choose|k: int| 0 <= k < a.len() && a[k] == i;
                assert(at[k] == i);
            } else {
                assert(at[a.len() as int] == i);
            }
        }
        at
    }
}

/// A limit cuts a list at its end: what comes out is the first part, as long as the limit allows,
/// and all of it where there is no limit.
pub proof fn law_limited<T>(s: Seq<T>, limit: Option<usize>)
    ensures
        ({
            let r = limited(s, limit);
            &&& r.len() <= s.len()
            &&& forall|i: int| 0 <= i < r.len() ==> r[i] == s[i]
            &&& limit is None ==> r.len() == s.len()
            &&& limit matches Some(n) ==> r.len() <= n && (r.len() < s.len() ==> r.len() == n)
        }),
{
}

/// The edges that a query for a type gives are those that were found and have the type; without
/// a type they are all that were found.
pub proof fn law_edges_by_type(found: Seq<Edge>, edge_type: Option<&str>, i: int)
    requires
        0 <= i < found.len(),
    ensures
        ({
            let r = found.filter(|e: Edge| of_type(e, edge_type));
            &&& edge_type is None ==> r.contains(found[i])
            &&& edge_type matches Some(k) ==> found[i].edge_type@ == k@ ==> r.contains(found[i])
            &&& forall|j: int|
                0 <= j < r.len() ==> found.contains(#[trigger] r[j]) && (edge_type matches Some(k)
                    ==> r[j].edge_type@ == k@)
        }),
{
    let keep = |e: Edge| of_type(e, edge_type);
    let r = found.filter(keep);
    if keep(found[i]) {
        crate::facts::lemma_filter_keeps(found, keep, i);
    }
    assert forall|j: int| 0 <= j < r.len() implies found.contains(#[trigger] r[j]) && (
    edge_type matches Some(k) ==> r[j].edge_type@ == k@) by {
        crate::facts::lemma_filter_member(found, keep, j);
    }
}

/// Payloads that may leave are those that are local and not smaller than the minimum, and those
/// that were changed earliest come first.
pub proof fn law_eviction_candidates(
    records: Seq<(NodeId, NodeIndex)>,
    min_size: u32,
    o: Seq<usize>,
    k: int,
)
    requires
        ordered(change_times(evictable(records, min_size)), Direction::Ascending, o),
        0 <= k < records.len(),
    ensures
        ({
            let c = evictable(records, min_size);
            &&& forall|i: int|
                0 <= i < o.len() ==> {
                    let x = c[(#[trigger] o[i]) as int];
                    &&& records.contains(x)
                    &&& x.1.payload_location == PayloadLocation::Local
                    &&& x.1.payload_size >= min_size
                }
            &&& records[k].1.payload_location == PayloadLocation::Local
                && records[k].1.payload_size >= min_size ==> exists|i: int|
                0 <= i < o.len() && c[(#[trigger] o[i]) as int] == records[k]
            &&& forall|i: int, j: int|
                0 <= i < j < o.len() ==> c[(#[trigger] o[i]) as int].1.updated_at.millis <= c[(
                #[trigger] o[j]) as int].1.updated_at.millis
        }),
{
    let keep = |p: (NodeId, NodeIndex)| may_leave(p.1@, min_size);
    let c = evictable(records, min_size);
    let times = change_times(c);
    assert forall|i: int| 0 <= i < o.len() implies {
        let x = c[(#[trigger] o[i]) as int];
        &&& records.contains(x)
        &&& x.1.payload_location == PayloadLocation::Local
        &&& x.1.payload_size >= min_size
    } by {
        crate::facts::lemma_filter_member(records, keep, o[i] as int);
    }
    if keep(records[k]) {
        crate::facts::lemma_filter_keeps(records, keep, k);
        let m = choose|m: int| 0 <= m < c.len() && c[m] == records[k];
        crate::order::lemma_ordered_is_complete(times, Direction::Ascending, o, m);
        let i = choose|i: int| 0 <= i < o.len() && #[trigger] o[i] == m;
        assert(c[o[i] as int] == records[k]);
    }
    assert forall|i: int, j: int| 0 <= i < j < o.len() implies c[(
    #[trigger] o[i]) as int].1.updated_at.millis <= c[(#[trigger] o[j]) as int].1.updated_at.millis by {
        assert(crate::order::precedes(times, Direction::Ascending, o[i] as int, o[j] as int));
        assert(times[o[i] as int] == c[o[i] as int].1.updated_at.millis);
        assert(times[o[j] as int] == c[o[j] as int].1.updated_at.millis);
    }
}

} // verus!
