//! Requests and responses.

use vstd::prelude::*;

use crate::storage::graph::{Edge, Node};
use crate::storage::value::Value;
use crate::text::copy_str;

verus! {

/// A request of a client.
#[derive(Debug)]
pub enum Request {
    /// Asks whether the server is there.
    Ping,
    /// Ends the connection.
    Disconnect,
    /// Inserts a node.
    InsertNode {
        /// Type of the node.
        node_type: String,
        /// Properties of the node.
        properties: Value,
    },
    /// Reads a node.
    GetNode {
        /// Identifier of the node.
        id: String,
    },
    /// Updates a node.
    UpdateNode {
        /// Identifier of the node.
        id: String,
        /// The update.
        properties: Value,
    },
    /// Removes a node.
    DeleteNode {
        /// Identifier of the node.
        id: String,
    },
    /// Reads the nodes of a type.
    GetNodesByType {
        /// The type.
        node_type: String,
        /// Largest number of nodes.
        limit: Option<usize>,
    },
    /// Creates an edge.
    CreateEdge {
        /// Identifier of the node that the edge leaves.
        from_id: String,
        /// Identifier of the node that the edge enters.
        to_id: String,
        /// Type of the edge.
        edge_type: String,
        /// Properties of the edge.
        properties: Option<Value>,
    },
    /// Reads the edges that leave a node.
    GetEdgesFrom {
        /// Identifier of the node.
        node_id: String,
        /// Type of the edges.
        edge_type: Option<String>,
    },
    /// Reads the edges that enter a node.
    GetEdgesTo {
        /// Identifier of the node.
        node_id: String,
        /// Type of the edges.
        edge_type: Option<String>,
    },
    /// Removes an edge.
    DeleteEdge {
        /// Identifier of the edge.
        edge_id: String,
    },
    /// Runs a query.
    Query {
        /// The query.
        sql: String,
        /// Largest number of rows.
        limit: Option<usize>,
    },
    /// Walks through the graph.
    Traverse {
        /// Identifier of the first node.
        start_id: String,
        /// Largest distance.
        depth: u32,
        /// Types of the edges to follow.
        edge_types: Option<Vec<String>>,
    },
    /// Asks for the status of the database.
    Status,
    /// Begins a transaction.
    BeginTransaction,
    /// Commits a transaction.
    CommitTransaction {
        /// Number of the transaction.
        tx_id: u64,
    },
    /// Drops a transaction.
    RollbackTransaction {
        /// Number of the transaction.
        tx_id: u64,
    },
}

/// A response of the server.
#[derive(Debug)]
pub enum Response {
    /// The server is there.
    Pong,
    /// The connection ends.
    Goodbye,
    /// A node.
    Node(Node),
    /// A node, if it is there.
    MaybeNode(Option<Node>),
    /// Nodes.
    Nodes(Vec<Node>),
    /// An edge.
    Edge(Edge),
    /// Edges.
    Edges(Vec<Edge>),
    /// Nothing but success.
    Done,
    /// The result of a query.
    QueryResult {
        /// Names of the columns.
        columns: Vec<String>,
        /// The rows.
        rows: Vec<Vec<Value>>,
        /// Number of rows that were changed.
        rows_affected: u64,
        /// Duration in milliseconds.
        execution_time_ms: u64,
    },
    /// The result of a walk.
    TraversalResult {
        /// Nodes that were met.
        nodes: Vec<Node>,
        /// Edges that were met.
        edges: Vec<Edge>,
        /// Distance that was reached.
        depth: u32,
    },
    /// The status of the database.
    Status {
        /// Name of the database.
        name: String,
        /// Number of nodes.
        node_count: u64,
        /// Number of edges.
        edge_count: u64,
        /// Size in bytes.
        size_bytes: u64,
    },
    /// A transaction began.
    TransactionStarted {
        /// Number of the transaction.
        tx_id: u64,
    },
    /// A transaction was committed.
    TransactionCommitted,
    /// A transaction was dropped.
    TransactionRolledBack,
    /// A failure.
    Error {
        /// Kind of the failure.
        code: ErrorCode,
        /// What went wrong.
        message: String,
    },
}

/// Kinds of failure.
#[derive(Debug, Clone, Copy, PartialEq, Eq, Structural)]
pub enum ErrorCode {
    /// Unknown.
    Unknown,
    /// The request is malformed.
    InvalidRequest,
    /// There is no such node.
    NodeNotFound,
    /// There is no such edge.
    EdgeNotFound,
    /// The query cannot be parsed.
    QueryParseError,
    /// The query cannot be run.
    QueryExecutionError,
    /// A transaction failed.
    TransactionError,
    /// The client may not do this.
    PermissionDenied,
    /// The server has too much to do.
    ServerOverloaded,
    /// Something else went wrong.
    InternalError,
}

impl ErrorCode {
    /// The name of the failure.
    pub open spec fn text(&self) -> Seq<char> {
        match *self {
            ErrorCode::Unknown => "Unknown error"@,
            ErrorCode::InvalidRequest => "Invalid request"@,
            ErrorCode::NodeNotFound => "Node not found"@,
            ErrorCode::EdgeNotFound => "Edge not found"@,
            ErrorCode::QueryParseError => "Query parse error"@,
            ErrorCode::QueryExecutionError => "Query execution error"@,
            ErrorCode::TransactionError => "Transaction error"@,
            ErrorCode::PermissionDenied => "Permission denied"@,
            ErrorCode::ServerOverloaded => "Server overloaded"@,
            ErrorCode::InternalError => "Internal error"@,
        }
    }

    /// The name of the failure.
    pub fn to_string(&self) -> (r: String)
        ensures
            r@ == self.text(),
    {
        match self {
            ErrorCode::Unknown => copy_str("Unknown error"),
            ErrorCode::InvalidRequest => copy_str("Invalid request"),
            ErrorCode::NodeNotFound => copy_str("Node not found"),
            ErrorCode::EdgeNotFound => copy_str("Edge not found"),
            ErrorCode::QueryParseError => copy_str("Query parse error"),
            ErrorCode::QueryExecutionError => copy_str("Query execution error"),
            ErrorCode::TransactionError => copy_str("Transaction error"),
            ErrorCode::PermissionDenied => copy_str("Permission denied"),
            ErrorCode::ServerOverloaded => copy_str("Server overloaded"),
            ErrorCode::InternalError => copy_str("Internal error"),
        }
    }
}

/// Whether a response is a failure with a message.
pub open spec fn is_failure(r: Response, code: ErrorCode, message: Seq<char>) -> bool {
    r matches Response::Error { code: c, message: m } && c == code && m@ == message
}

impl Response {
    /// A failure.
    pub fn error(code: ErrorCode, message: &str) -> (r: Self)
        ensures
            is_failure(r, code, message@),
    {
        Response::Error { code, message: copy_str(message) }
    }

    /// Whether this is a failure.
    pub fn is_error(&self) -> (r: bool)
        ensures
            r == (*self is Error),
    {
        match self {
            Response::Error { .. } => true,
            _ => false,
        }
    }
}

} // verus!
