//! What the client makes of the answers of a server.

use vstd::prelude::*;

use super::builder::ClientBuilder;
use crate::server::protocol::{is_failure, ErrorCode, Response};
use crate::storage::graph::{Edge, Node};
use crate::storage::value::Value;
use crate::text::{copy_str, push_str};

verus! {

/// The result of a query.
#[derive(Debug)]
pub struct QueryResult {
    /// Names of the columns.
    pub columns: Vec<String>,
    /// The rows.
    pub rows: Vec<Vec<Value>>,
    /// Number of rows that were changed.
    pub rows_affected: u64,
    /// Duration in milliseconds.
    pub execution_time_ms: u64,
}

/// The status of a database.
#[derive(Debug)]
pub struct DatabaseStatus {
    /// Name of the database.
    pub name: String,
    /// Number of nodes.
    pub node_count: u64,
    /// Number of edges.
    pub edge_count: u64,
    /// Size in bytes.
    pub size_bytes: u64,
}

/// What a client asked for.
#[derive(Debug, Clone, Copy, PartialEq, Eq, Structural)]
pub enum Action {
    /// A sign of life.
    Ping,
    /// A new node.
    Insert,
    /// A node.
    Get,
    /// A changed node.
    Update,
    /// The removal of a node.
    Delete,
    /// Nodes, edges or rows.
    Query,
    /// A new edge.
    CreateEdge,
    /// The status.
    Status,
    /// A new transaction.
    Begin,
    /// The end of a transaction.
    Commit,
    /// The loss of a transaction.
    Rollback,
}

impl Action {
    /// What stands before the reason of a failure.
    pub open spec fn prefix(&self) -> Seq<char> {
        match *self {
            Action::Ping => "Ping failed: "@,
            Action::Insert => "Insert failed: "@,
            Action::Get => "Get failed: "@,
            Action::Update => "Update failed: "@,
            Action::Delete => "Delete failed: "@,
            Action::Query => "Query failed: "@,
            Action::CreateEdge => "Create edge failed: "@,
            Action::Status => "Status failed: "@,
            Action::Begin => "Begin transaction failed: "@,
            Action::Commit => "Commit failed: "@,
            Action::Rollback => "Rollback failed: "@,
        }
    }
}

/// Why a client did not get what it asked for.
#[derive(Debug)]
pub enum ClientError {
    /// The server refused.
    Failed(Action, String),
    /// The answer does not belong to the question.
    Unexpected,
}

impl ClientError {
    /// The message of the error.
    pub open spec fn text(&self) -> Seq<char> {
        match *self {
            ClientError::Failed(a, m) => a.prefix() + m@,
            ClientError::Unexpected => "Unexpected response"@,
        }
    }

    /// The message of the error.
    pub fn message(&self) -> (r: String)
        ensures
            r@ == self.text(),
    {
        match self {
            ClientError::Failed(a, m) => {
                let mut t = match a {
                    Action::Ping => copy_str("Ping failed: "),
                    Action::Insert => copy_str("Insert failed: "),
                    Action::Get => copy_str("Get failed: "),
                    Action::Update => copy_str("Update failed: "),
                    Action::Delete => copy_str("Delete failed: "),
                    Action::Query => copy_str("Query failed: "),
                    Action::CreateEdge => copy_str("Create edge failed: "),
                    Action::Status => copy_str("Status failed: "),
                    Action::Begin => copy_str("Begin transaction failed: "),
                    Action::Commit => copy_str("Commit failed: "),
                    Action::Rollback => copy_str("Rollback failed: "),
                };
                push_str(&mut t, m.as_str());
                t
            },
            ClientError::Unexpected => copy_str("Unexpected response"),
        }
    }
}

/// The error that an answer amounts to, where it is not the one hoped for.
pub open spec fn refusal(action: Action, answer: Response) -> ClientError {
    match answer {
        Response::Error { message, .. } => ClientError::Failed(action, message),
        _ => ClientError::Unexpected,
    }
}

fn refuse(action: Action, answer: Response) -> (r: ClientError)
    ensures
        r == refusal(action, answer),
{
    match answer {
        Response::Error { message, .. } => ClientError::Failed(action, message),
        _ => ClientError::Unexpected,
    }
}

/// Readers of the answers of a server.
pub struct Client;

impl Client {
    /// A configuration for a server on this machine.
    pub fn builder() -> (r: ClientBuilder)
        ensures
            r.host@ == "127.0.0.1"@,
            r.port == 7432,
            r.compression,
            r.timeout_secs == 10,
    {
        ClientBuilder::new()
    }

    /// Reads the answer to a ping.
    pub fn ping(answer: Response) -> (r: Result<(), ClientError>)
        ensures
            r == (if answer is Pong {
                Ok(())
            } else {
                Err(refusal(Action::Ping, answer))
            }),
    {
        match answer {
            Response::Pong => Ok(()),
            other => Err(refuse(Action::Ping, other)),
        }
    }

    /// Reads the answer to the insertion of a node.
    pub fn insert_node(answer: Response) -> (r: Result<Node, ClientError>)
        ensures
            r == (match answer {
                Response::Node(n) => Ok(n),
                _ => Err(refusal(Action::Insert, answer)),
            }),
    {
        match answer {
            Response::Node(n) => Ok(n),
            other => Err(refuse(Action::Insert, other)),
        }
    }

    /// Reads the answer to a question for a node.
    pub fn get_node(answer: Response) -> (r: Result<Option<Node>, ClientError>)
        ensures
            r == (match answer {
                Response::MaybeNode(n) => Ok(n),
                _ => Err(refusal(Action::Get, answer)),
            }),
    {
        match answer {
            Response::MaybeNode(n) => Ok(n),
            other => Err(refuse(Action::Get, other)),
        }
    }

    /// Reads the answer to the update of a node.
    pub fn update_node(answer: Response) -> (r: Result<Node, ClientError>)
        ensures
            r == (match answer {
                Response::Node(n) => Ok(n),
                _ => Err(refusal(Action::Update, answer)),
            }),
    {
        match answer {
            Response::Node(n) => Ok(n),
            other => Err(refuse(Action::Update, other)),
        }
    }

    /// Reads the answer to the removal of a node.
    pub fn delete_node(answer: Response) -> (r: Result<(), ClientError>)
        ensures
            r == (if answer is Done {
                Ok(())
            } else {
                Err(refusal(Action::Delete, answer))
            }),
    {
        match answer {
            Response::Done => Ok(()),
            other => Err(refuse(Action::Delete, other)),
        }
    }

    /// Reads the answer to a question for nodes.
    pub fn get_nodes_by_type(answer: Response) -> (r: Result<Vec<Node>, ClientError>)
        ensures
            r == (match answer {
                Response::Nodes(n) => Ok(n),
                _ => Err(refusal(Action::Query, answer)),
            }),
    {
        match answer {
            Response::Nodes(n) => Ok(n),
            other => Err(refuse(Action::Query, other)),
        }
    }

    /// Reads the answer to the creation of an edge.
    pub fn create_edge(answer: Response) -> (r: Result<Edge, ClientError>)
        ensures
            r == (match answer {
                Response::Edge(e) => Ok(e),
                _ => Err(refusal(Action::CreateEdge, answer)),
            }),
    {
        match answer {
            Response::Edge(e) => Ok(e),
            other => Err(refuse(Action::CreateEdge, other)),
        }
    }

    /// Reads the answer to a question for edges.
    pub fn get_edges_from(answer: Response) -> (r: Result<Vec<Edge>, ClientError>)
        ensures
            r == (match answer {
                Response::Edges(e) => Ok(e),
                _ => Err(refusal(Action::Query, answer)),
            }),
    {
        match answer {
            Response::Edges(e) => Ok(e),
            other => Err(refuse(Action::Query, other)),
        }
    }

    /// Reads the answer to a query.
    pub fn query(answer: Response) -> (r: Result<QueryResult, ClientError>)
        ensures
            r == (match answer {
                Response::QueryResult { columns, rows, rows_affected, execution_time_ms } => Ok(
                    QueryResult { columns, rows, rows_affected, execution_time_ms },
                ),
                _ => Err(refusal(Action::Query, answer)),
            }),
    {
        match answer {
            Response::QueryResult { columns, rows, rows_affected, execution_time_ms } => Ok(
                QueryResult { columns, rows, rows_affected, execution_time_ms },
            ),
            other => Err(refuse(Action::Query, other)),
        }
    }

    /// Reads the answer to a question for the status.
    pub fn status(answer: Response) -> (r: Result<DatabaseStatus, ClientError>)
        ensures
            r == (match answer {
                Response::Status { name, node_count, edge_count, size_bytes } => Ok(
                    DatabaseStatus { name, node_count, edge_count, size_bytes },
                ),
                _ => Err(refusal(Action::Status, answer)),
            }),
    {
        match answer {
            Response::Status { name, node_count, edge_count, size_bytes } => Ok(
                DatabaseStatus { name, node_count, edge_count, size_bytes },
            ),
            other => Err(refuse(Action::Status, other)),
        }
    }

    /// Reads the answer to the beginning of a transaction.
    pub fn begin_transaction(answer: Response) -> (r: Result<u64, ClientError>)
        ensures
            r == (match answer {
                Response::TransactionStarted { tx_id } => Ok(tx_id),
                _ => Err(refusal(Action::Begin, answer)),
            }),
    {
        match answer {
            Response::TransactionStarted { tx_id } => Ok(tx_id),
            other => Err(refuse(Action::Begin, other)),
        }
    }

    /// Reads the answer to the end of a transaction.
    pub fn commit_transaction(answer: Response) -> (r: Result<(), ClientError>)
        ensures
            r == (if answer is TransactionCommitted {
                Ok(())
            } else {
                Err(refusal(Action::Commit, answer))
            }),
    {
        match answer {
            Response::TransactionCommitted => Ok(()),
            other => Err(refuse(Action::Commit, other)),
        }
    }

    /// Reads the answer to the loss of a transaction.
    pub fn rollback_transaction(answer: Response) -> (r: Result<(), ClientError>)
        ensures
            r == (if answer is TransactionRolledBack {
                Ok(())
            } else {
                Err(refusal(Action::Rollback, answer))
            }),
    {
        match answer {
            Response::TransactionRolledBack => Ok(()),
            other => Err(refuse(Action::Rollback, other)),
        }
    }
}

/// A client whose request was refused gets the message of the server, behind the name of what
/// it asked for.
pub proof fn law_refusals_reach_the_client(
    action: Action,
    answer: Response,
    code: ErrorCode,
    message: Seq<char>,
)
    requires
        is_failure(answer, code, message),
    ensures
        refusal(action, answer).text() == action.prefix() + message,
{
}

} // verus!
