//! What the server does with a request, and what it answers.

use vstd::prelude::*;

use super::protocol::{is_failure, ErrorCode, Request, Response};
use crate::storage::graph::{edge_properties, node_properties, Edge, Node};
use crate::storage::node::{uuid_parse, uuid_part, InvalidId, NodeId};
use crate::storage::value::{Value, ValueView};
use crate::text::copy_str;

verus! {

/// Where the data is.
#[derive(Debug, Clone, Copy, PartialEq, Eq, Structural)]
pub enum StorageMode {
    /// In one database.
    Database,
    /// In shards.
    Shards,
    /// Nowhere.
    Nothing,
}

/// Work for the storage. In a database identifiers are texts, and values pass through JSON;
/// in shards they are ready to use.
#[derive(Debug)]
pub enum Task {
    /// Inserts a node into the database.
    InsertNode(String, Value),
    /// Stores a node in its shard.
    StoreNode(Node),
    /// Reads a node from the database.
    GetNode(String),
    /// Reads a node from its shard.
    FindNode(NodeId),
    /// Updates a node in the database.
    UpdateNode(String, Value),
    /// Updates a node in its shard.
    ChangeNode(NodeId, Value),
    /// Removes a node from the database.
    DeleteNode(String),
    /// Removes a node from its shard.
    DropNode(NodeId),
    /// Reads the nodes of a type.
    GetNodesByType(String, Option<usize>),
    /// Creates an edge in the database.
    CreateEdge(String, String, String, Option<Value>),
    /// Stores an edge in its shard.
    StoreEdge(Edge),
    /// Reads the edges that leave a node of the database.
    GetEdgesFrom(String, Option<String>),
    /// Reads the edges that leave a node of a shard.
    FindEdgesFrom(NodeId, Option<String>),
    /// Reads the edges that enter a node of the database.
    GetEdgesTo(String, Option<String>),
    /// Removes an edge from the database.
    DeleteEdge(String),
    /// Runs a query.
    Query(String, Option<usize>),
    /// Walks through the graph.
    Traverse(String, u32, Option<Vec<String>>),
    /// Reads the status.
    Status,
}

/// What a request leads to.
#[derive(Debug)]
pub enum Step {
    /// An answer at once.
    Reply(Response),
    /// Work for the storage.
    Run(Task),
}

/// Whether a step answers with a failure.
pub open spec fn refuses(s: Step, code: ErrorCode, message: Seq<char>) -> bool {
    s matches Step::Reply(r) && is_failure(r, code, message)
}

/// Whether a step refuses an identifier that cannot be parsed.
pub open spec fn refuses_id(s: Step, id: Seq<char>) -> bool {
    refuses(s, ErrorCode::InvalidRequest, "Invalid node ID: "@ + id)
}

/// Whether a step refuses work that there is no storage for.
pub open spec fn refuses_work(s: Step) -> bool {
    refuses(s, ErrorCode::InternalError, "No storage configured"@)
}

/// What a request leads to, apart from requests on transactions.
pub open spec fn leads_to(mode: StorageMode, request: Request, s: Step) -> bool {
    match request {
        Request::Ping => s == Step::Reply(Response::Pong),
        Request::Disconnect => s == Step::Reply(Response::Goodbye),
        Request::InsertNode { node_type, properties } => match mode {
            StorageMode::Database => s == Step::Run(Task::InsertNode(node_type, properties)),
            StorageMode::Shards => s matches Step::Run(Task::StoreNode(n)) && n@.node_type
                == node_type@ && n@.properties == node_properties(properties@) && n@.updated_at
                == n@.created_at,
            StorageMode::Nothing => refuses_work(s),
        },
        Request::GetNode { id } => match mode {
            StorageMode::Database => s == Step::Run(Task::GetNode(id)),
            StorageMode::Shards => match uuid_parse(uuid_part(id@)) {
                Some(b) => s matches Step::Run(Task::FindNode(n)) && n@ == b,
                None => refuses_id(s, id@),
            },
            StorageMode::Nothing => refuses_work(s),
        },
        Request::UpdateNode { id, properties } => match mode {
            StorageMode::Database => s == Step::Run(Task::UpdateNode(id, properties)),
            StorageMode::Shards => match uuid_parse(uuid_part(id@)) {
                Some(b) => s matches Step::Run(Task::ChangeNode(n, v)) && n@ == b && v
                    == properties,
                None => refuses_id(s, id@),
            },
            StorageMode::Nothing => refuses_work(s),
        },
        Request::DeleteNode { id } => match mode {
            StorageMode::Database => s == Step::Run(Task::DeleteNode(id)),
            StorageMode::Shards => match uuid_parse(uuid_part(id@)) {
                Some(b) => s matches Step::Run(Task::DropNode(n)) && n@ == b,
                None => refuses_id(s, id@),
            },
            StorageMode::Nothing => refuses_work(s),
        },
        Request::GetNodesByType { node_type, limit } => if mode == StorageMode::Nothing {
            refuses_work(s)
        } else {
            s == Step::Run(Task::GetNodesByType(node_type, limit))
        },
        Request::CreateEdge { from_id, to_id, edge_type, properties } => match mode {
            StorageMode::Database => s == Step::Run(
                Task::CreateEdge(from_id, to_id, edge_type, properties),
            ),
            StorageMode::Shards => match (
                uuid_parse(uuid_part(from_id@)),
                uuid_parse(uuid_part(to_id@)),
            ) {
                (None, _) => refuses_id(s, from_id@),
                (Some(_), None) => refuses_id(s, to_id@),
                (Some(a), Some(b)) => s matches Step::Run(Task::StoreEdge(e)) && e@.from == a
                    && e@.to == b && e@.edge_type == edge_type@ && e@.properties
                    == edge_properties(
                    match properties {
                        Some(v) => v@,
                        None => ValueView::Null,
                    },
                ),
            },
            StorageMode::Nothing => refuses_work(s),
        },
        Request::GetEdgesFrom { node_id, edge_type } => match mode {
            StorageMode::Database => s == Step::Run(Task::GetEdgesFrom(node_id, edge_type)),
            StorageMode::Shards => match uuid_parse(uuid_part(node_id@)) {
                Some(b) => s matches Step::Run(Task::FindEdgesFrom(n, t)) && n@ == b && t
                    == edge_type,
                None => refuses_id(s, node_id@),
            },
            StorageMode::Nothing => refuses_work(s),
        },
        Request::GetEdgesTo { node_id, edge_type } => if mode == StorageMode::Database {
            s == Step::Run(Task::GetEdgesTo(node_id, edge_type))
        } else {
            refuses(s, ErrorCode::InternalError, "Sharded mode doesn't support edges_to"@)
        },
        Request::DeleteEdge { edge_id } => if mode == StorageMode::Database {
            s == Step::Run(Task::DeleteEdge(edge_id))
        } else {
            refuses(s, ErrorCode::InternalError, "Edge deletion not supported in sharded mode"@)
        },
        Request::Query { sql, limit } => if mode == StorageMode::Database {
            s == Step::Run(Task::Query(sql, limit))
        } else {
            refuses(s, ErrorCode::InternalError, "Query execution not available in sharded mode"@)
        },
        Request::Traverse { start_id, depth, edge_types } => if mode == StorageMode::Database {
            s == Step::Run(Task::Traverse(start_id, depth, edge_types))
        } else {
            refuses(s, ErrorCode::InternalError, "Traversal not available in sharded mode"@)
        },
        Request::Status => if mode == StorageMode::Nothing {
            refuses_work(s)
        } else {
            s == Step::Run(Task::Status)
        },
        _ => true,
    }
}

/// The open transactions and the number of the next one.
pub struct TransactionsView {
    /// Numbers of the open transactions.
    pub open: Set<u64>,
    /// Number of the next transaction.
    pub next: u64,
}

/// The transactions after a request.
pub open spec fn transactions_after(t: TransactionsView, request: Request) -> TransactionsView {
    match request {
        Request::BeginTransaction => TransactionsView {
            open: t.open.insert(t.next),
            next: if t.next == u64::MAX {
                0
            } else {
                (t.next + 1) as u64
            },
        },
        Request::CommitTransaction { tx_id } => TransactionsView {
            open: t.open.remove(tx_id),
            ..t
        },
        Request::RollbackTransaction { tx_id } => TransactionsView {
            open: t.open.remove(tx_id),
            ..t
        },
        _ => t,
    }
}

/// The answer to a request on transactions.
pub open spec fn transaction_answer(t: TransactionsView, request: Request, s: Step) -> bool {
    match request {
        Request::BeginTransaction => s == Step::Reply(
            Response::TransactionStarted { tx_id: t.next },
        ),
        Request::CommitTransaction { tx_id } => if t.open.contains(tx_id) {
            s == Step::Reply(Response::TransactionCommitted)
        } else {
            refuses(s, ErrorCode::TransactionError, "Transaction not found"@)
        },
        Request::RollbackTransaction { tx_id } => if t.open.contains(tx_id) {
            s == Step::Reply(Response::TransactionRolledBack)
        } else {
            refuses(s, ErrorCode::TransactionError, "Transaction not found"@)
        },
        _ => true,
    }
}

/// The outcome of a query.
#[derive(Debug)]
pub struct QueryOutcome {
    /// Names of the columns.
    pub columns: Vec<String>,
    /// The rows.
    pub rows: Vec<Vec<Value>>,
    /// Number of rows that were changed.
    pub rows_affected: u64,
    /// Duration in milliseconds.
    pub execution_time_ms: u64,
}

/// The outcome of a walk.
#[derive(Debug)]
pub struct TraversalOutcome {
    /// Nodes that were met.
    pub nodes: Vec<Node>,
    /// Edges that were met.
    pub edges: Vec<Edge>,
    /// Distance that was reached.
    pub depth: u32,
}

/// The handler of requests.
#[derive(Debug)]
pub struct RequestHandler {
    mode: StorageMode,
    transactions: Vec<u64>,
    next: u64,
}

impl RequestHandler {
    /// Where the data is.
    pub closed spec fn storage(&self) -> StorageMode {
        self.mode
    }

    /// The transactions.
    pub closed spec fn transactions(&self) -> TransactionsView {
        TransactionsView { open: self.transactions@.to_set(), next: self.next }
    }

    /// A handler with one database.
    pub fn new() -> (r: Self)
        ensures
            r.storage() == StorageMode::Database,
            r.transactions() == (TransactionsView { open: Set::empty(), next: 1 }),
    {
        let r = RequestHandler {
            mode: StorageMode::Database,
            transactions: Vec::new(),
            next: 1,
        };
        assert(r.transactions().open =~= Set::empty());
        r
    }

    /// A handler with shards.
    pub fn with_shards() -> (r: Self)
        ensures
            r.storage() == StorageMode::Shards,
            r.transactions() == (TransactionsView { open: Set::empty(), next: 1 }),
    {
        let r = RequestHandler { mode: StorageMode::Shards, transactions: Vec::new(), next: 1 };
        assert(r.transactions().open =~= Set::empty());
        r
    }

    /// What a request leads to.
    pub fn handle(&mut self, request: Request) -> (r: Step)
        ensures
            leads_to(old(self).storage(), request, r),
            transaction_answer(old(self).transactions(), request, r),
            final(self).storage() == old(self).storage(),
            final(self).transactions() == transactions_after(
                old(self).transactions(),
                request,
            ),
    {
        let mode = self.mode;
        match request {
            Request::Ping => Step::Reply(Response::Pong),
            Request::Disconnect => Step::Reply(Response::Goodbye),
            Request::InsertNode { node_type, properties } => match mode {
                StorageMode::Database => Step::Run(Task::InsertNode(node_type, properties)),
                StorageMode::Shards => Step::Run(
                    Task::StoreNode(Node::new(node_type.as_str(), properties)),
                ),
                StorageMode::Nothing => no_storage(),
            },
            Request::GetNode { id } => match mode {
                StorageMode::Database => Step::Run(Task::GetNode(id)),
                StorageMode::Shards => match NodeId::parse(id.as_str()) {
                    Ok(n) => Step::Run(Task::FindNode(n)),
                    Err(e) => invalid_id(e),
                },
                StorageMode::Nothing => no_storage(),
            },
            Request::UpdateNode { id, properties } => match mode {
                StorageMode::Database => Step::Run(Task::UpdateNode(id, properties)),
                StorageMode::Shards => match NodeId::parse(id.as_str()) {
                    Ok(n) => Step::Run(Task::ChangeNode(n, properties)),
                    Err(e) => invalid_id(e),
                },
                StorageMode::Nothing => no_storage(),
            },
            Request::DeleteNode { id } => match mode {
                StorageMode::Database => Step::Run(Task::DeleteNode(id)),
                StorageMode::Shards => match NodeId::parse(id.as_str()) {
                    Ok(n) => Step::Run(Task::DropNode(n)),
                    Err(e) => invalid_id(e),
                },
                StorageMode::Nothing => no_storage(),
            },
            Request::GetNodesByType { node_type, limit } => match mode {
                StorageMode::Nothing => no_storage(),
                _ => Step::Run(Task::GetNodesByType(node_type, limit)),
            },
            Request::CreateEdge { from_id, to_id, edge_type, properties } => match mode {
                StorageMode::Database => Step::Run(
                    Task::CreateEdge(from_id, to_id, edge_type, properties),
                ),
                StorageMode::Shards => {
                    let from = match NodeId::parse(from_id.as_str()) {
                        Ok(n) => n,
                        Err(e) => return invalid_id(e),
                    };
                    let to = match NodeId::parse(to_id.as_str()) {
                        Ok(n) => n,
                        Err(e) => return invalid_id(e),
                    };
                    let value = match properties {
                        Some(v) => v,
                        None => Value::Null,
                    };
                    Step::Run(Task::StoreEdge(Edge::new(from, to, edge_type.as_str(), value)))
                },
                StorageMode::Nothing => no_storage(),
            },
            Request::GetEdgesFrom { node_id, edge_type } => match mode {
                StorageMode::Database => Step::Run(Task::GetEdgesFrom(node_id, edge_type)),
                StorageMode::Shards => match NodeId::parse(node_id.as_str()) {
                    Ok(n) => Step::Run(Task::FindEdgesFrom(n, edge_type)),
                    Err(e) => invalid_id(e),
                },
                StorageMode::Nothing => no_storage(),
            },
            Request::GetEdgesTo { node_id, edge_type } => match mode {
                StorageMode::Database => Step::Run(Task::GetEdgesTo(node_id, edge_type)),
                _ => internal("Sharded mode doesn't support edges_to"),
            },
            Request::DeleteEdge { edge_id } => match mode {
                StorageMode::Database => Step::Run(Task::DeleteEdge(edge_id)),
                _ => internal("Edge deletion not supported in sharded mode"),
            },
            Request::Query { sql, limit } => match mode {
                StorageMode::Database => Step::Run(Task::Query(sql, limit)),
                _ => internal("Query execution not available in sharded mode"),
            },
            Request::Traverse { start_id, depth, edge_types } => match mode {
                StorageMode::Database => Step::Run(Task::Traverse(start_id, depth, edge_types)),
                _ => internal("Traversal not available in sharded mode"),
            },
            Request::Status => match mode {
                StorageMode::Nothing => no_storage(),
                _ => Step::Run(Task::Status),
            },
            Request::BeginTransaction => Step::Reply(self.handle_begin_transaction()),
            Request::CommitTransaction { tx_id } => Step::Reply(
                self.handle_commit_transaction(tx_id),
            ),
            Request::RollbackTransaction { tx_id } => Step::Reply(
                self.handle_rollback_transaction(tx_id),
            ),
        }
    }

    fn handle_begin_transaction(&mut self) -> (r: Response)
        ensures
            r == (Response::TransactionStarted { tx_id: old(self).transactions().next }),
            final(self).storage() == old(self).storage(),
            final(self).transactions() == transactions_after(
                old(self).transactions(),
                Request::BeginTransaction,
            ),
    {
        let tx_id: u64 = self.next;
        self.next = if tx_id == u64::MAX {
            0
        } else {
            tx_id + 1
        };
        let ghost was = self.transactions@;
        self.transactions.push(tx_id);
        proof {
            let now = self.transactions@;
            assert(now.to_set() =~= was.to_set().insert(tx_id)) by {
                assert(now[was.len() as int] == tx_id);
                assert forall|x: u64| was.contains(x) implies now.contains(x) by {
                    let i = choose|i: int| 0 <= i < was.len() && was[i] == x;
                    assert(now[i] == x);
                }
                assert forall|x: u64| now.contains(x) && x != tx_id implies was.contains(x) by {
                    let i = choose|i: int| 0 <= i < now.len() && now[i] == x;
                    assert(was[i] == x);
                }
            }
        }
        Response::TransactionStarted { tx_id }
    }

    fn close(&mut self, tx_id: u64) -> (r: bool)
        ensures
            r == old(self).transactions().open.contains(tx_id),
            final(self).storage() == old(self).storage(),
            final(self).transactions() == (TransactionsView {
                open: old(self).transactions().open.remove(tx_id),
                ..old(self).transactions()
            }),
    {
        let ghost was = self.transactions@;
        let mut kept: Vec<u64> = Vec::new();
        let mut found: bool = false;
        let mut i: usize = 0;
        while i < self.transactions.len()
            invariant
                *self == *old(self),
                was == self.transactions@,
                i <= was.len(),
                found == was.take(i as int).contains(tx_id),
                forall|x: u64|
                    kept@.contains(x) <==> was.take(i as int).contains(x) && x != tx_id,
            decreases was.len() - i,
        {
            let t: u64 = self.transactions[i];
            let ghost head = was.take(i as int);
            let ghost kept_before = kept@;
            if t == tx_id {
                found = true;
            } else {
                kept.push(t);
            }
            proof {
                let more = was.take(i + 1);
                assert(more =~= head.push(t));
                assert(more[i as int] == t);
                assert forall|x: u64| more.contains(x) <==> head.contains(x) || x == t by {
                    if head.contains(x) {
                        let k = choose|k: int| 0 <= k < head.len() && head[k] == x;
                        assert(more[k] == x);
                    }
                    if more.contains(x) && x != t {
                        let k = choose|k: int| 0 <= k < more.len() && more[k] == x;
                        assert(head[k] == x);
                    }
                }
                assert forall|x: u64| kept@.contains(x) <==> more.contains(x) && x != tx_id by {
                    if kept_before.contains(x) {
                        let k = choose|k: int| 0 <= k < kept_before.len() && kept_before[k] == x;
                        assert(kept@[k] == x);
                    }
                    if t != tx_id {
                        assert(kept@[kept_before.len() as int] == t);
                    }
                    if kept@.contains(x) && !kept_before.contains(x) {
                        let k = choose|k: int| 0 <= k < kept@.len() && kept@[k] == x;
                        if k < kept_before.len() {
                            assert(kept_before[k] == x);
                        }
                    }
                }
            }
            i = i + 1;
        }
        assert(was.take(i as int) =~= was);
        self.transactions = kept;
        assert(self.transactions().open =~= was.to_set().remove(tx_id));
        found
    }

    fn handle_commit_transaction(&mut self, tx_id: u64) -> (r: Response)
        ensures
            transaction_answer(
                old(self).transactions(),
                Request::CommitTransaction { tx_id },
                Step::Reply(r),
            ),
            final(self).storage() == old(self).storage(),
            final(self).transactions() == transactions_after(
                old(self).transactions(),
                Request::CommitTransaction { tx_id },
            ),
    {
        if self.close(tx_id) {
            Response::TransactionCommitted
        } else {
            Response::error(ErrorCode::TransactionError, "Transaction not found")
        }
    }

    fn handle_rollback_transaction(&mut self, tx_id: u64) -> (r: Response)
        ensures
            transaction_answer(
                old(self).transactions(),
                Request::RollbackTransaction { tx_id },
                Step::Reply(r),
            ),
            final(self).storage() == old(self).storage(),
            final(self).transactions() == transactions_after(
                old(self).transactions(),
                Request::RollbackTransaction { tx_id },
            ),
    {
        if self.close(tx_id) {
            Response::TransactionRolledBack
        } else {
            Response::error(ErrorCode::TransactionError, "Transaction not found")
        }
    }

    /// The answer to the insertion of a node.
    pub fn handle_insert_node(outcome: Result<Node, String>) -> (r: Response)
        ensures
            match outcome {
                Ok(n) => r == Response::Node(n),
                Err(e) => is_failure(r, ErrorCode::InternalError, e@),
            },
    {
        match outcome {
            Ok(n) => Response::Node(n),
            Err(e) => Response::error(ErrorCode::InternalError, e.as_str()),
        }
    }

    /// The answer to the reading of a node.
    pub fn handle_get_node(outcome: Result<Option<Node>, String>) -> (r: Response)
        ensures
            match outcome {
                Ok(n) => r == Response::MaybeNode(n),
                Err(e) => is_failure(r, ErrorCode::InternalError, e@),
            },
    {
        match outcome {
            Ok(n) => Response::MaybeNode(n),
            Err(e) => Response::error(ErrorCode::InternalError, e.as_str()),
        }
    }

    /// The answer to the update of a node.
    pub fn handle_update_node(outcome: Result<Node, String>) -> (r: Response)
        ensures
            match outcome {
                Ok(n) => r == Response::Node(n),
                Err(e) => is_failure(r, ErrorCode::NodeNotFound, e@),
            },
    {
        match outcome {
            Ok(n) => Response::Node(n),
            Err(e) => Response::error(ErrorCode::NodeNotFound, e.as_str()),
        }
    }

    /// The answer to the removal of a node.
    pub fn handle_delete_node(outcome: Result<(), String>) -> (r: Response)
        ensures
            match outcome {
                Ok(_) => r == Response::Done,
                Err(e) => is_failure(r, ErrorCode::NodeNotFound, e@),
            },
    {
        match outcome {
            Ok(_) => Response::Done,
            Err(e) => Response::error(ErrorCode::NodeNotFound, e.as_str()),
        }
    }

    /// The answer to the reading of the nodes of a type.
    pub fn handle_get_nodes_by_type(outcome: Result<Vec<Node>, String>) -> (r: Response)
        ensures
            match outcome {
                Ok(n) => r == Response::Nodes(n),
                Err(e) => is_failure(r, ErrorCode::InternalError, e@),
            },
    {
        match outcome {
            Ok(n) => Response::Nodes(n),
            Err(e) => Response::error(ErrorCode::InternalError, e.as_str()),
        }
    }

    /// The answer to the creation of an edge.
    pub fn handle_create_edge(outcome: Result<Edge, String>) -> (r: Response)
        ensures
            match outcome {
                Ok(x) => r == Response::Edge(x),
                Err(e) => is_failure(r, ErrorCode::InternalError, e@),
            },
    {
        match outcome {
            Ok(x) => Response::Edge(x),
            Err(e) => Response::error(ErrorCode::InternalError, e.as_str()),
        }
    }

    /// The answer to the reading of edges.
    pub fn handle_get_edges(outcome: Result<Vec<Edge>, String>) -> (r: Response)
        ensures
            match outcome {
                Ok(x) => r == Response::Edges(x),
                Err(e) => is_failure(r, ErrorCode::InternalError, e@),
            },
    {
        match outcome {
            Ok(x) => Response::Edges(x),
            Err(e) => Response::error(ErrorCode::InternalError, e.as_str()),
        }
    }

    /// The answer to the removal of an edge.
    pub fn handle_delete_edge(outcome: Result<(), String>) -> (r: Response)
        ensures
            match outcome {
                Ok(_) => r == Response::Done,
                Err(e) => is_failure(r, ErrorCode::EdgeNotFound, e@),
            },
    {
        match outcome {
            Ok(_) => Response::Done,
            Err(e) => Response::error(ErrorCode::EdgeNotFound, e.as_str()),
        }
    }

    /// The answer to a query.
    pub fn handle_query(outcome: Result<QueryOutcome, String>) -> (r: Response)
        ensures
            match outcome {
                Ok(q) => r == (Response::QueryResult {
                    columns: q.columns,
                    rows: q.rows,
                    rows_affected: q.rows_affected,
                    execution_time_ms: q.execution_time_ms,
                }),
                Err(e) => is_failure(r, ErrorCode::QueryExecutionError, e@),
            },
    {
        match outcome {
            Ok(q) => Response::QueryResult {
                columns: q.columns,
                rows: q.rows,
                rows_affected: q.rows_affected,
                execution_time_ms: q.execution_time_ms,
            },
            Err(e) => Response::error(ErrorCode::QueryExecutionError, e.as_str()),
        }
    }

    /// The answer to a walk.
    pub fn handle_traverse(outcome: Result<TraversalOutcome, String>) -> (r: Response)
        ensures
            match outcome {
                Ok(t) => r == (Response::TraversalResult {
                    nodes: t.nodes,
                    edges: t.edges,
                    depth: t.depth,
                }),
                Err(e) => is_failure(r, ErrorCode::QueryExecutionError, e@),
            },
    {
        match outcome {
            Ok(t) => Response::TraversalResult { nodes: t.nodes, edges: t.edges, depth: t.depth },
            Err(e) => Response::error(ErrorCode::QueryExecutionError, e.as_str()),
        }
    }

    /// The answer to a question for the status: a name and three counts. Shards go by the
    /// name "sharded".
    pub fn handle_status(&self, outcome: Result<(String, u64, u64, u64), String>) -> (r: Response)
        ensures
            match outcome {
                Ok(s) => r matches Response::Status { name, node_count, edge_count, size_bytes }
                    && name@ == (if self.storage() == StorageMode::Shards {
                    "sharded"@
                } else {
                    s.0@
                }) && node_count == s.1 && edge_count == s.2 && size_bytes == s.3,
                Err(e) => is_failure(r, ErrorCode::InternalError, e@),
            },
    {
        match outcome {
            Ok(s) => {
                let name = match self.mode {
                    StorageMode::Shards => copy_str("sharded"),
                    _ => s.0,
                };
                Response::Status { name, node_count: s.1, edge_count: s.2, size_bytes: s.3 }
            },
            Err(e) => Response::error(ErrorCode::InternalError, e.as_str()),
        }
    }
}

fn no_storage() -> (r: Step)
    ensures
        refuses_work(r),
{
    internal("No storage configured")
}

fn internal(message: &str) -> (r: Step)
    ensures
        refuses(r, ErrorCode::InternalError, message@),
{
    Step::Reply(Response::error(ErrorCode::InternalError, message))
}

fn invalid_id(reason: InvalidId) -> (r: Step)
    ensures
        refuses(r, ErrorCode::InvalidRequest, reason.text()),
{
    Step::Reply(Response::error(ErrorCode::InvalidRequest, reason.message().as_str()))
}

/// A transaction that began can be ended once: the first commit or rollback finds it, the
/// second does not.
pub proof fn law_transaction_ends_once(t: TransactionsView)
    ensures
        ({
            let id = t.next;
            let began = transactions_after(t, Request::BeginTransaction);
            let committed = transactions_after(began, Request::CommitTransaction { tx_id: id });
            let dropped = transactions_after(began, Request::RollbackTransaction { tx_id: id });
            &&& began.open.contains(id)
            &&& !committed.open.contains(id)
            &&& !dropped.open.contains(id)
            &&& !t.open.contains(id) ==> committed.open == t.open && dropped.open == t.open
        }),
{
    let id = t.next;
    let began = transactions_after(t, Request::BeginTransaction);
    if !t.open.contains(id) {
        assert(began.open.remove(id) =~= t.open);
    }
}

/// A server with a database works on every request for data, and one without storage refuses
/// every one; either answers a ping and a farewell by itself.
pub proof fn law_requests_find_their_storage(mode: StorageMode, request: Request, s: Step)
    requires
        leads_to(mode, request, s),
    ensures
        request is Ping ==> s == Step::Reply(Response::Pong),
        request is Disconnect ==> s == Step::Reply(Response::Goodbye),
        !(request is Ping || request is Disconnect || request is BeginTransaction
            || request is CommitTransaction || request is RollbackTransaction) ==> {
            &&& mode == StorageMode::Database ==> s is Run
            &&& mode == StorageMode::Nothing ==> (s matches Step::Reply(r) && (
            r matches Response::Error { code, .. } && code == ErrorCode::InternalError))
        },
{
}

/// A new transaction has an identifier that the next one does not have, and is open; other
/// transactions stay open. One that is not open can be neither committed nor rolled back.
pub proof fn law_transactions(t: TransactionsView, other: u64, s: Step)
    ensures
        ({
            let began = transactions_after(t, Request::BeginTransaction);
            &&& began.next != t.next
            &&& began.open.contains(t.next)
            &&& other != t.next ==> began.open.contains(other) == t.open.contains(other)
        }),
        transaction_answer(t, Request::BeginTransaction, s) ==> s == Step::Reply(
            (Response::TransactionStarted { tx_id: t.next }),
        ),
        !t.open.contains(other) && transaction_answer(
            t,
            (Request::CommitTransaction { tx_id: other }),
            s,
        ) ==> (s matches Step::Reply(r) && r is Error),
        !t.open.contains(other) && transaction_answer(
            t,
            (Request::RollbackTransaction { tx_id: other }),
            s,
        ) ==> (s matches Step::Reply(r) && r is Error),
        t.open.contains(other) && transaction_answer(
            t,
            (Request::CommitTransaction { tx_id: other }),
            s,
        ) ==> s == Step::Reply(Response::TransactionCommitted),
        t.open.contains(other) && transaction_answer(
            t,
            (Request::RollbackTransaction { tx_id: other }),
            s,
        ) ==> s == Step::Reply(Response::TransactionRolledBack),
{
}

} // verus!
