//! Transactions: operations that are collected and made together.

use vstd::prelude::*;

use super::graph::{updated_node, Edge, Node, NodeView};
use super::local::{edge_inserted, node_inserted};
use super::node::{EdgeId, NodeId, Timestamp};
use super::tables::{lemma_run_push, run, TableOp, Tables};
use super::value::Value;
use crate::text::copy_str;

verus! {

broadcast use lemma_run_push;

/// An operation of a transaction.
#[derive(Debug)]
pub enum TransactionOp {
    /// Stores a whole node.
    InsertNode(Node),
    /// Puts the entries of an object into the properties of a node, if it is stored.
    UpdateNode(NodeId, Value),
    /// Removes a whole node.
    DeleteNode(NodeId),
    /// Stores an edge.
    InsertEdge(Edge),
    /// Removes an edge.
    DeleteEdge(EdgeId),
}

/// The tables after one operation of a transaction that is committed at a given time.
pub open spec fn op_committed(t: Tables, op: TransactionOp, now: Timestamp) -> Tables {
    match op {
        TransactionOp::InsertNode(n) => node_inserted(t, n@),
        TransactionOp::UpdateNode(id, v) => if t.nodes.dom().contains(id@) {
            Tables { nodes: t.nodes.insert(id@, updated_node(t.nodes[id@], v@, now)), ..t }
        } else {
            t
        },
        TransactionOp::DeleteNode(id) => Tables { nodes: t.nodes.remove(id@), ..t },
        TransactionOp::InsertEdge(e) => edge_inserted(t, e@),
        TransactionOp::DeleteEdge(id) => Tables { edges: t.edges.remove(id@), ..t },
    }
}

/// The tables after the operations of a transaction, made in order.
pub open spec fn committed(t: Tables, ops: Seq<TransactionOp>, now: Timestamp) -> Tables
    decreases ops.len(),
{
    if ops.len() == 0 {
        t
    } else {
        op_committed(committed(t, ops.drop_last(), now), ops.last(), now)
    }
}

/// Whether a transaction updates a node.
pub open spec fn updates(ops: Seq<TransactionOp>, id: Seq<u8>) -> bool {
    exists|i: int|
        0 <= i < ops.len() && (#[trigger] ops[i] matches TransactionOp::UpdateNode(n, _) && n@
            == id)
}

/// The node that the last of some records gives an identifier.
pub open spec fn last_record(log: Seq<(NodeId, Option<Node>)>, id: Seq<u8>) -> Option<NodeView>
    decreases log.len(),
{
    if log.len() == 0 {
        None
    } else if log.last().0@ == id {
        match log.last().1 {
            Some(n) => Some(n@),
            None => None,
        }
    } else {
        last_record(log.drop_last(), id)
    }
}

/// The whole node under an identifier.
pub open spec fn stored_node(t: Tables, id: Seq<u8>) -> Option<NodeView> {
    if t.nodes.dom().contains(id) {
        Some(t.nodes[id])
    } else {
        None
    }
}

/// Whether reads gave the whole nodes that a transaction updates, each under its own
/// identifier.
pub open spec fn nodes_read_as(
    t: Tables,
    ops: Seq<TransactionOp>,
    read: Seq<(NodeId, Option<Node>)>,
) -> bool {
    &&& forall|id: Seq<u8>| #[trigger]
        t.nodes.dom().contains(id) ==> t.nodes[id].id == id
    &&& forall|id: Seq<u8>|
        updates(ops, id) ==> #[trigger] last_record(read, id) == stored_node(t, id)
}

/// Operations that are made together or not at all.
#[derive(Debug)]
pub struct Transaction {
    operations: Vec<TransactionOp>,
}

impl View for Transaction {
    type V = Seq<TransactionOp>;

    closed spec fn view(&self) -> Seq<TransactionOp> {
        self.operations@
    }
}

impl Transaction {
    /// Begins a transaction without operations.
    pub fn new() -> (r: Self)
        ensures
            r@ == Seq::<TransactionOp>::empty(),
    {
        Transaction { operations: Vec::new() }
    }

    /// Adds the storing of a node.
    pub fn insert_node(&mut self, node: Node)
        ensures
            final(self)@ == old(self)@.push(TransactionOp::InsertNode(node)),
    {
        self.operations.push(TransactionOp::InsertNode(node));
    }

    /// Adds the update of a node.
    pub fn update_node(&mut self, id: NodeId, properties: Value)
        ensures
            final(self)@ == old(self)@.push(TransactionOp::UpdateNode(id, properties)),
    {
        self.operations.push(TransactionOp::UpdateNode(id, properties));
    }

    /// Adds the removal of a node.
    pub fn delete_node(&mut self, id: NodeId)
        ensures
            final(self)@ == old(self)@.push(TransactionOp::DeleteNode(id)),
    {
        self.operations.push(TransactionOp::DeleteNode(id));
    }

    /// Adds the storing of an edge.
    pub fn insert_edge(&mut self, edge: Edge)
        ensures
            final(self)@ == old(self)@.push(TransactionOp::InsertEdge(edge)),
    {
        self.operations.push(TransactionOp::InsertEdge(edge));
    }

    /// Adds the removal of an edge.
    pub fn delete_edge(&mut self, id: EdgeId)
        ensures
            final(self)@ == old(self)@.push(TransactionOp::DeleteEdge(id)),
    {
        self.operations.push(TransactionOp::DeleteEdge(id));
    }

    /// The nodes that the transaction updates and whose stored state a commit needs.
    pub fn updated_nodes(&self) -> (r: Vec<NodeId>)
        ensures
            forall|id: Seq<u8>|
                updates(self@, id) <==> exists|i: int|
                    0 <= i < r@.len() && (#[trigger] r@[i])@ == id,
    {
        let mut out: Vec<NodeId> = Vec::new();
        let mut i: usize = 0;
        while i < self.operations.len()
            invariant
                i <= self.operations@.len(),
                forall|k: int|
                    0 <= k < out@.len() ==> updates(self@, (#[trigger] out@[k])@),
                forall|k: int|
                    0 <= k < i ==> (#[trigger] self@[k] matches TransactionOp::UpdateNode(n, _)
                        ==> out@.contains(n)),
            decreases self.operations@.len() - i,
        {
            let ghost was = out@;
            if let TransactionOp::UpdateNode(id, _) = &self.operations[i] {
                out.push(*id);
                proof {
                    assert(self@[i as int] matches TransactionOp::UpdateNode(n, _) && n@ == id@);
                    assert(out@[was.len() as int] == *id);
                    assert forall|n: NodeId| was.contains(n) implies out@.contains(n) by {
                        let k = choose|k: int| 0 <= k < was.len() && was[k] == n;
                        assert(out@[k] == n);
                    }
                }
            }
            i = i + 1;
        }
        proof {
            assert forall|id: Seq<u8>| updates(self@, id) implies exists|k: int|
                0 <= k < out@.len() && (#[trigger] out@[k])@ == id by {
                let k = choose|k: int|
                    0 <= k < self@.len() && (#[trigger] self@[k] matches TransactionOp::UpdateNode(
                        n,
                        _,
                    ) && n@ == id);
                let n = self@[k]->UpdateNode_0;
                let j = choose|j: int| 0 <= j < out@.len() && out@[j] == n;
                assert(out@[j]@ == id);
            }
        }
        out
    }

    /// The changes that make all operations in order, given the nodes that were read.
    pub fn commit(self, read: Vec<(NodeId, Option<Node>)>, now: Timestamp) -> (r: Vec<TableOp>)
        ensures
            forall|t: Tables|
                nodes_read_as(t, self@, read@) ==> #[trigger] run(t, r@) == committed(
                    t,
                    self@,
                    now,
                ),
    {
        let n: usize = self.operations.len();
        let ghost start = read@;
        let mut log = read;
        let mut ops: Vec<TableOp> = Vec::new();
        let mut i: usize = 0;
        while i < n
            invariant
                i <= n,
                n == self@.len(),
                self@ == self.operations@,
                forall|t: Tables|
                    nodes_read_as(t, self@, start) ==> #[trigger] run(t, ops@) == committed(
                        t,
                        self@.take(i as int),
                        now,
                    ),
                forall|t: Tables, id: Seq<u8>|
                    nodes_read_as(t, self@, start) && updates(self@, id) ==> #[trigger]
                    last_record(log@, id) == #[trigger] stored_node(run(t, ops@), id),
                forall|t: Tables, id: Seq<u8>|
                    nodes_read_as(t, self@, start) && #[trigger] run(
                        t,
                        ops@,
                    ).nodes.dom().contains(id) ==> run(t, ops@).nodes[id].id == id,
            decreases n - i,
        {
            let ghost ops0 = ops@;
            let ghost log0 = log@;
            proof {
                let more = self@.take(i + 1);
                assert(more.drop_last() =~= self@.take(i as int));
                assert(more.last() == self@[i as int]);
            }
            match &self.operations[i] {
                TransactionOp::InsertNode(node) => {
                    ops.push(TableOp::PutNode(node.copy()));
                    ops.push(TableOp::LinkNodeType(copy_str(node.node_type.as_str()), node.id));
                    log.push((node.id, Some(node.copy())));
                    assert(log@.drop_last() =~= log0);
                },
                TransactionOp::UpdateNode(id, properties) => {
                    assert(updates(self@, id@)) by {
                        assert(self@[i as int] matches TransactionOp::UpdateNode(n, _) && n@
                            == id@);
                    }
                    if let Some(node) = find_last(log.as_slice(), *id) {
                        let mut node = node;
                        node.update(properties, now);
                        proof {
                            assert forall|t: Tables| nodes_read_as(t, self@, start) implies (
                            #[trigger] run(t, ops0)).nodes.dom().contains(id@) && run(
                                t,
                                ops0,
                            ).nodes[id@].id == id@ by {
                                assert(stored_node(run(t, ops0), id@) is Some);
                            }
                        }
                        if node.id.same(id) {
                            ops.push(TableOp::PutNode(node.copy()));
                            log.push((*id, Some(node)));
                            assert(log@.drop_last() =~= log0);
                        }
                    }
                },
                TransactionOp::DeleteNode(id) => {
                    ops.push(TableOp::RemoveNode(*id));
                    log.push((*id, None));
                    assert(log@.drop_last() =~= log0);
                },
                TransactionOp::InsertEdge(edge) => {
                    ops.push(TableOp::PutEdge(edge.copy()));
                    ops.push(TableOp::LinkFrom(edge.from, edge.id));
                    ops.push(TableOp::LinkTo(edge.to, edge.id));
                    ops.push(TableOp::LinkEdgeType(copy_str(edge.edge_type.as_str()), edge.id));
                },
                TransactionOp::DeleteEdge(id) => {
                    ops.push(TableOp::RemoveEdge(*id));
                },
            }
            proof {
                assert forall|t: Tables| nodes_read_as(t, self@, start) implies #[trigger] run(
                    t,
                    ops@,
                ) == committed(t, self@.take(i + 1), now) by {
                    assert(run(t, ops0) == committed(t, self@.take(i as int), now));
                    if let TransactionOp::UpdateNode(id, _) = self@[i as int] {
                        assert(updates(self@, id@));
                        assert(last_record(log0, id@) == stored_node(run(t, ops0), id@));
                    }
                }
                assert forall|t: Tables, id: Seq<u8>|
                    nodes_read_as(t, self@, start) && updates(self@, id) implies #[trigger]
                last_record(log@, id) == #[trigger] stored_node(run(t, ops@), id) by {
                    assert(last_record(log0, id) == stored_node(run(t, ops0), id));
                }
                assert forall|t: Tables, id: Seq<u8>|
                    nodes_read_as(t, self@, start) && #[trigger] run(
                        t,
                        ops@,
                    ).nodes.dom().contains(id) implies run(t, ops@).nodes[id].id == id by {
                    assert(run(t, ops0).nodes.dom().contains(id) ==> run(t, ops0).nodes[id].id
                        == id);
                }
            }
            i = i + 1;
        }
        assert(self@.take(i as int) =~= self@);
        ops
    }

    /// Drops the operations: nothing is changed.
    pub fn rollback(self) -> (r: Vec<TableOp>)
        ensures
            forall|t: Tables| #[trigger] run(t, r@) == t,
    {
        Vec::new()
    }
}

fn find_last(log: &[(NodeId, Option<Node>)], id: NodeId) -> (r: Option<Node>)
    ensures
        match r {
            Some(n) => last_record(log@, id@) == Some(n@),
            None => last_record(log@, id@) is None,
        },
{
    let mut i: usize = log.len();
    assert(log@.take(i as int) =~= log@);
    while i > 0
        invariant
            i <= log@.len(),
            last_record(log@, id@) == last_record(log@.take(i as int), id@),
        decreases i,
    {
        let ghost head = log@.take(i as int);
        i = i - 1;
        assert(head.drop_last() =~= log@.take(i as int));
        assert(head.last() == log@[i as int]);
        if log[i].0.same(&id) {
            return match &log[i].1 {
                Some(n) => Some(n.copy()),
                None => None,
            };
        }
    }
    None
}

/// Two transactions one after the other are one transaction with the operations of both.
pub proof fn law_transactions_compose(
    t: Tables,
    a: Seq<TransactionOp>,
    b: Seq<TransactionOp>,
    now: Timestamp,
)
    ensures
        committed(t, a + b, now) == committed(committed(t, a, now), b, now),
    decreases b.len(),
{
    if b.len() == 0 {
        assert(a + b =~= a);
    } else {
        law_transactions_compose(t, a, b.drop_last(), now);
        assert((a + b).drop_last() =~= a + b.drop_last());
        assert((a + b).last() == b.last());
    }
}

/// A node that is stored and then updated in one transaction is stored with the update; one
/// that is stored and then removed is not stored.
pub proof fn law_operations_see_those_before(
    t: Tables,
    node: Node,
    id: NodeId,
    properties: Value,
    now: Timestamp,
)
    requires
        id@ == node.id@,
    ensures
        ({
            let ops = seq![
                TransactionOp::InsertNode(node),
                TransactionOp::UpdateNode(id, properties),
            ];
            stored_node(committed(t, ops, now), id@) == Some(
                updated_node(node@, properties@, now),
            )
        }),
        ({
            let ops = seq![TransactionOp::InsertNode(node), TransactionOp::DeleteNode(id)];
            stored_node(committed(t, ops, now), id@) is None
        }),
{
    let first = seq![TransactionOp::InsertNode(node)];
    assert(first.drop_last() =~= Seq::<TransactionOp>::empty());
    assert(committed(t, first, now) == node_inserted(t, node@)) by {
        reveal_with_fuel(committed, 2);
    }
    let ops = seq![TransactionOp::InsertNode(node), TransactionOp::UpdateNode(id, properties)];
    assert(ops.drop_last() =~= first);
    let gone = seq![TransactionOp::InsertNode(node), TransactionOp::DeleteNode(id)];
    assert(gone.drop_last() =~= first);
}

/// The operations of a transaction do what they say, and nothing else: an inserted node or edge
/// reads back and is listed, a deleted one is gone, an update of a node that is not there does
/// nothing, and no operation touches another node or edge.
pub proof fn law_operations(
    t: Tables,
    node: Node,
    id: NodeId,
    value: Value,
    edge: Edge,
    edge_id: EdgeId,
    now: Timestamp,
    other: Seq<u8>,
)
    ensures
        ({
            let u = op_committed(t, TransactionOp::InsertNode(node), now);
            &&& stored_node(u, node.id@) == Some(node@)
            &&& u.node_types.contains((node@.node_type, node.id@))
            &&& other != node.id@ ==> stored_node(u, other) == stored_node(t, other)
            &&& u.edges == t.edges
        }),
        ({
            let u = op_committed(t, TransactionOp::UpdateNode(id, value), now);
            &&& t.nodes.dom().contains(id@) ==> stored_node(u, id@) == Some(
                updated_node(t.nodes[id@], value@, now),
            )
            &&& !t.nodes.dom().contains(id@) ==> u == t
            &&& other != id@ ==> stored_node(u, other) == stored_node(t, other)
            &&& u.edges == t.edges && u.node_types == t.node_types
        }),
        ({
            let u = op_committed(t, TransactionOp::DeleteNode(id), now);
            &&& stored_node(u, id@) is None
            &&& other != id@ ==> stored_node(u, other) == stored_node(t, other)
            &&& u.edges == t.edges
        }),
        ({
            let u = op_committed(t, TransactionOp::InsertEdge(edge), now);
            &&& u.edges.dom().contains(edge.id@) && u.edges[edge.id@] == edge@
            &&& u.edge_from.contains((edge.from@, edge.id@))
            &&& u.edge_to.contains((edge.to@, edge.id@))
            &&& u.edge_types.contains((edge.edge_type@, edge.id@))
            &&& other != edge.id@ ==> u.edges.dom().contains(other) == t.edges.dom().contains(other)
            &&& other != edge.id@ && t.edges.dom().contains(other) ==> u.edges[other]
                == t.edges[other]
            &&& u.nodes == t.nodes
        }),
        ({
            let u = op_committed(t, TransactionOp::DeleteEdge(edge_id), now);
            &&& !u.edges.dom().contains(edge_id@)
            &&& other != edge_id@ ==> u.edges.dom().contains(other) == t.edges.dom().contains(other)
            &&& other != edge_id@ && t.edges.dom().contains(other) ==> u.edges[other]
                == t.edges[other]
            &&& u.nodes == t.nodes
        }),
        committed(t, Seq::<TransactionOp>::empty(), now) == t,
{
}

} // verus!
