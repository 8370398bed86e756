use aresadb::cli::commands::{
    chunk_document, chunk_fields, content_source, database_name, edge_types, ingest_chunks,
    parse_metric, parse_output, progress_due, report_chunks, report_schema, set_fields,
    show_chunks, CommandError, ContextOutput, FieldValue, OutputFormat, SchemaReport, Source,
    ViewMode,
};
use aresadb::cli::config::Config;
use aresadb::client::answer::{Action, Client, ClientError};
use aresadb::client::builder::ClientBuilder;
use aresadb::client::connection::{
    Attempt, ConnectError, ConnectStep, Connection, ConnectionState,
};
use aresadb::distributed::compression::Compressor;
use aresadb::output::line::{Line, Style};
use aresadb::output::renderer::{
    csv_field, csv_line, pad, preview_property, Output, Renderer, Schema, SchemaField,
    SimilarityRow,
};
use aresadb::server::handler::{QueryOutcome, RequestHandler, Step, Task, TraversalOutcome};
use aresadb::server::message::{
    after_header_failure, after_response, body_length, receive, send, unparsed, Admission,
    Continuation, Server, ServerConfig,
};
use aresadb::server::pool::ConnectionPool;
use aresadb::server::protocol::{ErrorCode, Request, Response};
use aresadb::storage::database::KvView;
use aresadb::storage::json::Json;
use aresadb::storage::value::Segment;
use aresadb::storage::{DistanceMetric, Edge, Node, NodeId, PropertyMap, Timestamp, Value};
use aresadb::text::{can_preview, preview};
use aresadb::{DEFAULT_CACHE_SIZE, DEFAULT_QUERY_LIMIT, DEFAULT_SHARD_COUNT, FORMAT_VERSION};

#[test]
fn test_version() {
    assert_eq!(FORMAT_VERSION, 1);
}

#[test]
fn test_constants() {
    assert!(DEFAULT_QUERY_LIMIT > 0);
    assert!(DEFAULT_CACHE_SIZE > 0);
    assert!(DEFAULT_SHARD_COUNT > 0);
}

#[test]
fn test_builder_defaults() {
    let builder = ClientBuilder::new();

    assert_eq!(builder.host, "127.0.0.1");
    assert_eq!(builder.port, 7432);
    assert!(builder.compression);
}

#[test]
fn test_builder_configuration() {
    let builder = ClientBuilder::new()
        .host("example.com")
        .port(8080)
        .compression(false)
        .timeout(30);

    assert_eq!(builder.host, "example.com");
    assert_eq!(builder.port, 8080);
    assert!(!builder.compression);
    assert_eq!(builder.timeout_secs, 30);
}

#[test]
fn test_builder_address() {
    let builder = ClientBuilder::new().address("db.example.com:9000");

    assert_eq!(builder.host, "db.example.com");
    assert_eq!(builder.port, 9000);
}

#[test]
fn test_get_address() {
    let builder = ClientBuilder::new().host("localhost").port(7432);

    assert_eq!(builder.get_address(), "localhost:7432");
}

#[test]
fn test_client_builder() {
    let builder = Client::builder()
        .host("localhost")
        .port(7432)
        .compression(true);

    assert!(builder.compression);
}

#[test]
fn odd_addresses_keep_the_port() {
    let plain = ClientBuilder::new().address("db");
    assert_eq!((plain.host.as_str(), plain.port), ("db", 7432));
    let large = ClientBuilder::new().address("db:70000");
    assert_eq!((large.host.as_str(), large.port), ("db", 7432));
    let empty = ClientBuilder::new().address("::1:");
    assert_eq!((empty.host.as_str(), empty.port), ("::1", 7432));
    let six = ClientBuilder::new().address("::1:+80");
    assert_eq!((six.host.as_str(), six.port), ("::1", 80));
    let again = ClientBuilder::default().address(&six.get_address());
    assert_eq!(again.get_address(), "::1:80");
}

#[test]
fn test_connection_state() {
    let conn: Connection<u8> = Connection::new("127.0.0.1:7432");

    assert_eq!(conn.state(), ConnectionState::Disconnected);
    assert!(!conn.is_connected());
}

#[test]
fn test_connection_config() {
    let conn: Connection<u8> = Connection::new("127.0.0.1:7432").with_timeout(30).with_retries(5);

    assert_eq!(conn.timeout_secs, 30);
    assert_eq!(conn.max_retries, 5);
}

#[test]
fn connecting_retries_and_gives_up() {
    let mut conn: Connection<u8> = Connection::new("a:1");
    assert_eq!(conn.connect(), ConnectStep::Try(0));
    assert_eq!(conn.state(), ConnectionState::Connecting);
    assert_eq!(conn.attempted(0, Attempt::Refused), ConnectStep::Try(100));
    assert_eq!(conn.attempted(1, Attempt::TimedOut), ConnectStep::Try(0));
    assert_eq!(conn.attempted(2, Attempt::Refused), ConnectStep::Fail(ConnectError::Refused));
    assert_eq!(conn.state(), ConnectionState::Error);
    assert_eq!(ConnectError::Refused.message(), "Failed to connect");
    assert_eq!(ConnectError::TimedOut.message(), "Connection timeout");

    assert_eq!(conn.ensure_connected(), ConnectStep::Try(0));
    assert_eq!(conn.attempted(0, Attempt::Opened(9)), ConnectStep::Done);
    assert!(conn.is_connected());
    assert_eq!(conn.ensure_connected(), ConnectStep::Done);
    *conn.stream().unwrap() = 4;
    assert_eq!(conn.take_stream(), Some(4));
    assert!(!conn.is_connected());
    conn.disconnect();
    assert_eq!(conn.state(), ConnectionState::Disconnected);

    let mut none: Connection<u8> = Connection::new("a:1").with_retries(0);
    let end = none.connect();
    assert_eq!(end, ConnectStep::Fail(ConnectError::NoAttempts(0)));
    assert_eq!(ConnectError::NoAttempts(0).message(), "Failed to connect after 0 attempts");
}

#[test]
fn answers_are_read_or_refused() {
    assert!(Client::ping(Response::Pong).is_ok());
    let refused = Response::error(ErrorCode::NodeNotFound, "gone");
    match Client::update_node(refused) {
        Err(e) => assert_eq!(e.message(), "Update failed: gone"),
        Ok(_) => panic!("Expected a failure"),
    }
    match Client::ping(Response::Goodbye) {
        Err(ClientError::Unexpected) => {
            assert_eq!(ClientError::Unexpected.message(), "Unexpected response");
        }
        _ => panic!("Expected an unexpected response"),
    }
    let texts = [
        (Action::Ping, "Ping failed: x"),
        (Action::Insert, "Insert failed: x"),
        (Action::Get, "Get failed: x"),
        (Action::Update, "Update failed: x"),
        (Action::Delete, "Delete failed: x"),
        (Action::Query, "Query failed: x"),
        (Action::CreateEdge, "Create edge failed: x"),
        (Action::Status, "Status failed: x"),
        (Action::Begin, "Begin transaction failed: x"),
        (Action::Commit, "Commit failed: x"),
        (Action::Rollback, "Rollback failed: x"),
    ];
    for (action, text) in texts {
        assert_eq!(ClientError::Failed(action, "x".to_string()).message(), text);
    }
    let node = Node::new("user", Value::Null);
    let id = node.id.to_string();
    assert_eq!(Client::insert_node(Response::Node(node)).ok().unwrap().id.to_string(), id);
    assert!(Client::get_node(Response::MaybeNode(None)).ok().unwrap().is_none());
    assert!(Client::delete_node(Response::Done).is_ok());
    assert!(Client::get_nodes_by_type(Response::Nodes(vec![])).ok().unwrap().is_empty());
    assert!(Client::get_edges_from(Response::Edges(vec![])).ok().unwrap().is_empty());
    assert!(Client::create_edge(Response::Done).is_err());
    let rows = Client::query(Response::QueryResult {
        columns: vec!["a".to_string()],
        rows: vec![vec![Value::Int(1)]],
        rows_affected: 2,
        execution_time_ms: 3,
    });
    assert_eq!(rows.ok().unwrap().rows_affected, 2);
    let status = Client::status(Response::Status {
        name: "db".to_string(),
        node_count: 1,
        edge_count: 2,
        size_bytes: 3,
    });
    assert_eq!(status.ok().unwrap().edge_count, 2);
    assert_eq!(
        Client::begin_transaction(Response::TransactionStarted { tx_id: 8 }).ok(),
        Some(8)
    );
    assert!(Client::commit_transaction(Response::TransactionCommitted).is_ok());
    assert!(Client::rollback_transaction(Response::TransactionRolledBack).is_ok());
}

#[test]
fn test_pool_basic() {
    let pool = ConnectionPool::new(10);

    assert_eq!(pool.max_connections(), 10);
    assert_eq!(pool.active_count(), 0);
    assert_eq!(pool.available(), 10);
}

#[test]
fn a_pool_counts_what_was_granted_and_not_given_back() {
    let mut pool = ConnectionPool::new(3);
    let (mut granted, mut released) = (0, 0);
    for step in [1, 1, 1, 1, 0, 1, 0, 0, 1, 1, 1, 0] {
        if step == 1 {
            granted += pool.try_acquire() as usize;
        } else {
            pool.release();
            released += 1;
        }
        assert_eq!(pool.active_count(), granted - released);
        assert!(pool.active_count() <= 3);
    }
    assert_eq!((granted, released), (6, 4));
}

#[test]
fn test_pool_acquire_release() {
    let mut pool = ConnectionPool::new(2);

    assert!(pool.try_acquire());
    assert_eq!(pool.active_count(), 1);

    assert!(pool.try_acquire());
    assert_eq!(pool.active_count(), 2);

    assert!(!pool.try_acquire());
    assert_eq!(pool.active_count(), 2);

    pool.release();
    assert_eq!(pool.active_count(), 1);

    assert!(pool.try_acquire());
    assert_eq!(pool.active_count(), 2);
}

#[test]
fn test_server_config() {
    let config = ServerConfig::default();
    assert_eq!(config.max_connections, 1000);
    assert!(config.compression);
    assert_eq!(config.bind_addr, "127.0.0.1:7432");
    assert_eq!(config.read_timeout_secs, 30);
    assert_eq!(config.write_timeout_secs, 30);
}

#[test]
fn test_server_creation() {
    let server = Server::new(ServerConfig::default());
    assert_eq!(server.connection_count(), 0);
}

#[test]
fn a_full_server_rejects_connections() {
    let config = ServerConfig { max_connections: 1, ..Default::default() };
    let mut server = Server::with_shards(config);
    assert_eq!(server.accept(), Admission::Serve);
    assert_eq!(server.accept(), Admission::Reject);
    assert_eq!(server.connection_count(), 1);
    server.pool.release();
    assert_eq!(server.accept(), Admission::Serve);
    assert!(!server.shutdown);
    server.shutdown();
    assert!(server.shutdown);
}

#[test]
fn messages_are_framed_and_opened() {
    let body = vec![7u8; 600];
    let packed = Compressor::new();
    for compressor in [None, Some(&packed)] {
        let message = send(compressor, &body);
        assert_eq!(body_length(&message[..4]) as usize, message.len() - 4);
        assert_eq!(receive(compressor, &message[4..]).ok().unwrap(), body);
    }
    assert_eq!(send(None, &[1, 2]), vec![2, 0, 0, 0, 1, 2]);
    assert!(send(Some(&packed), &body).len() < 600);
    assert!(receive(Some(&packed), &[9]).is_err());
}

#[test]
fn connections_end_with_a_goodbye() {
    assert_eq!(after_response(&Response::Goodbye), Continuation::Close);
    assert_eq!(after_response(&Response::Pong), Continuation::Wait);
    assert_eq!(after_header_failure(true), Continuation::Close);
    assert_eq!(after_header_failure(false), Continuation::Fail);
    match unparsed("bad") {
        Response::Error { code, message } => {
            assert_eq!(code, ErrorCode::InvalidRequest);
            assert_eq!(message, "Failed to parse request: bad");
        }
        _ => panic!("Expected an error"),
    }
}

#[test]
fn test_error_response() {
    let response = Response::error(ErrorCode::NodeNotFound, "Node not found");
    assert!(response.is_error());

    match response {
        Response::Error { code, message } => {
            assert_eq!(code, ErrorCode::NodeNotFound);
            assert_eq!(message, "Node not found");
        }
        _ => panic!("Expected error response"),
    }
}

#[test]
fn failures_have_names() {
    let names = [
        (ErrorCode::Unknown, "Unknown error"),
        (ErrorCode::InvalidRequest, "Invalid request"),
        (ErrorCode::NodeNotFound, "Node not found"),
        (ErrorCode::EdgeNotFound, "Edge not found"),
        (ErrorCode::QueryParseError, "Query parse error"),
        (ErrorCode::QueryExecutionError, "Query execution error"),
        (ErrorCode::TransactionError, "Transaction error"),
        (ErrorCode::PermissionDenied, "Permission denied"),
        (ErrorCode::ServerOverloaded, "Server overloaded"),
        (ErrorCode::InternalError, "Internal error"),
    ];
    for (code, name) in names {
        assert_eq!(code.to_string(), name);
    }
    assert!(!Response::Pong.is_error());
}

#[test]
fn test_handler_ping() {
    let mut handler = RequestHandler::new();
    let step = handler.handle(Request::Ping);
    assert!(matches!(step, Step::Reply(Response::Pong)));
}

#[test]
fn test_handler_insert_get_node() {
    let mut handler = RequestHandler::new();
    let step = handler.handle(Request::InsertNode {
        node_type: "user".to_string(),
        properties: Value::String("Alice".to_string()),
    });
    let node = match step {
        Step::Run(Task::InsertNode(node_type, properties)) => Node::new(&node_type, properties),
        _ => panic!("Expected work"),
    };
    let response = RequestHandler::handle_insert_node(Ok(node));
    let node_id = match response {
        Response::Node(node) => node.id.to_string(),
        _ => panic!("Expected Node response"),
    };
    match handler.handle(Request::GetNode { id: node_id.clone() }) {
        Step::Run(Task::GetNode(id)) => assert_eq!(id, node_id),
        _ => panic!("Expected work"),
    }
    match RequestHandler::handle_get_node(Ok(None)) {
        Response::MaybeNode(None) => {}
        _ => panic!("Expected MaybeNode response"),
    }
}

fn begin(handler: &mut RequestHandler) -> u64 {
    match handler.handle(Request::BeginTransaction) {
        Step::Reply(Response::TransactionStarted { tx_id }) => tx_id,
        _ => panic!("Expected TransactionStarted response"),
    }
}

#[test]
fn test_handler_transaction() {
    let mut handler = RequestHandler::new();
    let tx_id = begin(&mut handler);
    let step = handler.handle(Request::CommitTransaction { tx_id });
    assert!(matches!(step, Step::Reply(Response::TransactionCommitted)));
}

fn failure(step: Step) -> (ErrorCode, String) {
    match step {
        Step::Reply(Response::Error { code, message }) => (code, message),
        _ => panic!("Expected an error"),
    }
}

#[test]
fn a_transaction_ends_once() {
    let mut handler = RequestHandler::new();
    let first = begin(&mut handler);
    let second = begin(&mut handler);
    assert_eq!((first, second), (1, 2));
    let step = handler.handle(Request::RollbackTransaction { tx_id: first });
    assert!(matches!(step, Step::Reply(Response::TransactionRolledBack)));
    let again = failure(handler.handle(Request::CommitTransaction { tx_id: first }));
    assert_eq!(again, (ErrorCode::TransactionError, "Transaction not found".to_string()));
    let step = handler.handle(Request::CommitTransaction { tx_id: second });
    assert!(matches!(step, Step::Reply(Response::TransactionCommitted)));
}

#[test]
fn shards_refuse_what_they_cannot_do() {
    let mut handler = RequestHandler::with_shards();
    let bad = failure(handler.handle(Request::GetNode { id: "x".to_string() }));
    assert_eq!(bad, (ErrorCode::InvalidRequest, "Invalid node ID: x".to_string()));
    let id = NodeId::new().to_string();
    assert!(matches!(
        handler.handle(Request::DeleteNode { id: id.clone() }),
        Step::Run(Task::DropNode(_))
    ));
    match handler.handle(Request::CreateEdge {
        from_id: id.clone(),
        to_id: format!("user:{}", id),
        edge_type: "self".to_string(),
        properties: None,
    }) {
        Step::Run(Task::StoreEdge(edge)) => {
            assert_eq!(edge.from.to_string(), id);
            assert_eq!(edge.to.to_string(), id);
            assert_eq!(edge.edge_type, "self");
        }
        _ => panic!("Expected work"),
    }
    let to = failure(handler.handle(Request::GetEdgesTo { node_id: id, edge_type: None }));
    assert_eq!(to.1, "Sharded mode doesn't support edges_to");
    let edge = failure(handler.handle(Request::DeleteEdge { edge_id: "e".to_string() }));
    assert_eq!(edge.1, "Edge deletion not supported in sharded mode");
    let query = failure(handler.handle(Request::Query { sql: "q".to_string(), limit: None }));
    assert_eq!(query.1, "Query execution not available in sharded mode");
    let walk = failure(handler.handle(Request::Traverse {
        start_id: "s".to_string(),
        depth: 1,
        edge_types: None,
    }));
    assert_eq!(walk, (
        ErrorCode::InternalError,
        "Traversal not available in sharded mode".to_string(),
    ));
    match handler.handle_status(Ok(("db".to_string(), 1, 2, 3))) {
        Response::Status { name, node_count, .. } => {
            assert_eq!(name, "sharded");
            assert_eq!(node_count, 1);
        }
        _ => panic!("Expected a status"),
    }
    match RequestHandler::new().handle_status(Ok(("db".to_string(), 1, 2, 3))) {
        Response::Status { name, .. } => assert_eq!(name, "db"),
        _ => panic!("Expected a status"),
    }
}

fn code_of(response: Response) -> ErrorCode {
    match response {
        Response::Error { code, message } => {
            assert_eq!(message, "why");
            code
        }
        _ => panic!("Expected an error"),
    }
}

#[test]
fn failures_of_the_storage_are_coded() {
    let why = || "why".to_string();
    type Handler = RequestHandler;
    assert_eq!(code_of(Handler::handle_insert_node(Err(why()))), ErrorCode::InternalError);
    assert_eq!(code_of(Handler::handle_get_node(Err(why()))), ErrorCode::InternalError);
    assert_eq!(code_of(Handler::handle_update_node(Err(why()))), ErrorCode::NodeNotFound);
    assert_eq!(code_of(Handler::handle_delete_node(Err(why()))), ErrorCode::NodeNotFound);
    assert_eq!(code_of(Handler::handle_get_nodes_by_type(Err(why()))), ErrorCode::InternalError);
    assert_eq!(code_of(Handler::handle_create_edge(Err(why()))), ErrorCode::InternalError);
    assert_eq!(code_of(Handler::handle_get_edges(Err(why()))), ErrorCode::InternalError);
    assert_eq!(code_of(Handler::handle_delete_edge(Err(why()))), ErrorCode::EdgeNotFound);
    assert_eq!(code_of(Handler::handle_query(Err(why()))), ErrorCode::QueryExecutionError);
    assert_eq!(code_of(Handler::handle_traverse(Err(why()))), ErrorCode::QueryExecutionError);
    assert_eq!(code_of(Handler::new().handle_status(Err(why()))), ErrorCode::InternalError);
    let rows = Handler::handle_query(Ok(QueryOutcome {
        columns: vec![],
        rows: vec![],
        rows_affected: 4,
        execution_time_ms: 5,
    }));
    assert!(matches!(rows, Response::QueryResult { rows_affected: 4, execution_time_ms: 5, .. }));
    let walk = Handler::handle_traverse(Ok(TraversalOutcome {
        nodes: vec![],
        edges: vec![Edge::new(NodeId::new(), NodeId::new(), "e", Value::Null)],
        depth: 3,
    }));
    match walk {
        Response::TraversalResult { nodes, edges, depth } => {
            assert_eq!((nodes.len(), edges.len(), depth), (0, 1, 3));
        }
        _ => panic!("Expected TraversalResult"),
    }
    assert!(matches!(Handler::handle_delete_node(Ok(())), Response::Done));
}

#[test]
fn settings_read_back() {
    let config = Config::default();
    assert_eq!(config.get("color"), None);
    assert_eq!(config.get("default_format"), Some(String::new()));
    assert_eq!(config.shown_format(), "table");
    assert_eq!(config.shown_limit(), "1000");
    let config = config.set("zoom", "2").set("color", "on").set("default_format", "json");
    let config = config.set("default_limit", "25").set("zoom", "3");
    assert_eq!(config.get("zoom"), Some("3".to_string()));
    assert_eq!(config.get("default_limit"), Some("25".to_string()));
    assert_eq!(config.shown_format(), "json");
    assert_eq!(config.shown_limit(), "25");
    assert_eq!(config.custom(), vec![
        ("color".to_string(), "on".to_string()),
        ("zoom".to_string(), "3".to_string()),
    ]);
    assert_eq!(config.set("default_limit", "many").get("default_limit"), None);
    let stored = Config::stored("csv".to_string(), None, &config.custom());
    assert_eq!(stored.get("color"), Some("on".to_string()));
    assert_eq!(stored.get("default_format"), Some("csv".to_string()));
}

fn text(line: &Line) -> String {
    line.spans
        .iter()
        .map(|s| match &s.part {
            Segment::Text(t) => t.clone(),
            Segment::Float(f) => format!("{}", f64::from_bits(*f)),
        })
        .collect()
}

fn texts(output: Output) -> Vec<String> {
    match output {
        Output::Lines(lines) => lines.iter().map(text).collect(),
        _ => panic!("Expected lines"),
    }
}

#[test]
fn documents_are_chunked_by_name() {
    let chunks = chunk_document("d", "FIXED", 3, 0, "abcdef").ok().unwrap();
    assert_eq!(chunks.len(), 2);
    assert_eq!(ingest_chunks("d", 3, 0, "abcdef").len(), 2);
    match chunk_document("d", "words", 3, 0, "abcdef") {
        Err(e) => assert_eq!(
            e.message(),
            "Unknown strategy: words. Use: fixed, sentence, paragraph, semantic"
        ),
        Ok(_) => panic!("Expected an unknown strategy"),
    }
    assert!(matches!(content_source(Some("t"), Some("f")), Ok(Source::Text(_))));
    assert!(matches!(content_source(None, Some("f")), Ok(Source::File(_))));
    match content_source(None, None) {
        Err(e) => assert_eq!(e.message(), "Must provide --text or --file"),
        Ok(_) => panic!("Expected no content"),
    }
    assert_eq!(
        CommandError::Unreadable("p".to_string(), "r".to_string()).message(),
        "Failed to read file p: r"
    );
    assert_eq!(
        CommandError::InvalidVector("r".to_string()).message(),
        "Invalid vector JSON: r. Expected format: [0.1, 0.2, ...]"
    );
    assert_eq!(
        text(&report_chunks(2, "fixed")),
        "● Split document into 2 chunks using fixed strategy"
    );
    let shown: Vec<String> = show_chunks(&chunks).iter().map(text).collect();
    assert_eq!(shown[0], "");
    assert_eq!(shown[1], format!("{} Chunk 1/2 (chars: 0-3)", "─".repeat(40)));
    assert_eq!(shown[2], "abc");
    assert_eq!(shown.len(), 6);
}

#[test]
fn long_texts_are_cut_between_characters() {
    assert_eq!(preview("abcdef", 5, 4), "abcd...");
    assert_eq!(preview("abcde", 5, 4), "abcde");
    assert!(can_preview("abcdef", 5, 4));
    assert!(!can_preview("abcéfg", 5, 4));
    assert!(can_preview("abcéfg", 5, 5));
    assert_eq!(preview("abcéfg", 5, 5), "abcé...");
}

#[test]
fn chunks_are_stored_with_their_fields() {
    let chunks = ingest_chunks("d", 3, 0, "abcdef");
    let fields = chunk_fields(&chunks[1], true);
    let names: Vec<&str> = fields.iter().map(|f| f.0.as_str()).collect();
    assert_eq!(names, vec![
        "content",
        "document_id",
        "chunk_index",
        "total_chunks",
        "start_offset",
        "end_offset",
    ]);
    assert!(matches!(&fields[0].1, FieldValue::Text(t) if t == "def"));
    assert!(matches!(fields[2].1, FieldValue::Count(1)));
    assert!(matches!(fields[5].1, FieldValue::Count(6)));
    assert_eq!(chunk_fields(&chunks[1], false).len(), 4);

    let base: Json<u8> = Json::Object(vec![
        ("a".to_string(), Json::Number(1)),
        ("content".to_string(), Json::Number(2)),
    ]);
    let more = vec![
        ("content".to_string(), Json::Number(3)),
        ("b".to_string(), Json::Bool(true)),
    ];
    match set_fields(base, more) {
        Json::Object(f) => {
            assert_eq!(f.len(), 3);
            assert!(matches!(f[1].1, Json::Number(3)));
            assert_eq!(f[2].0, "b");
        }
        _ => panic!("Expected an object"),
    }
    let more = vec![("b".to_string(), Json::Number(1u8))];
    assert!(matches!(set_fields(Json::Null, more), Json::Null));
    let due: Vec<usize> = (0..25).filter(|i| progress_due(*i, 25)).collect();
    assert_eq!(due, vec![9, 19, 24]);
}

#[test]
fn names_of_options_are_read() {
    assert_eq!(parse_metric("L2"), (DistanceMetric::Euclidean, true));
    assert_eq!(parse_metric("inner"), (DistanceMetric::DotProduct, true));
    assert_eq!(parse_metric("l1"), (DistanceMetric::Manhattan, true));
    assert_eq!(parse_metric("cosine"), (DistanceMetric::Cosine, true));
    assert_eq!(parse_metric("odd"), (DistanceMetric::Cosine, false));
    assert_eq!(parse_output("JSON"), ContextOutput::Json);
    assert_eq!(parse_output("text"), ContextOutput::Text);
    assert_eq!(parse_output("prompt"), ContextOutput::Llm);
    assert_eq!(edge_types(Some("a,,b")).unwrap(), vec!["a", "", "b"]);
    assert!(edge_types(None).is_none());
    assert_eq!(database_name(Some("n"), Some("d")), "n");
    assert_eq!(database_name(None, Some("d")), "d");
    assert_eq!(database_name(None, None), "aresadb");
    assert_eq!(OutputFormat::default(), OutputFormat::Table);
    assert_eq!(ViewMode::default(), ViewMode::Table);
}

#[test]
fn changes_of_schemas_are_reported() {
    let name = || "users".to_string();
    assert_eq!(text(&report_schema(&SchemaReport::Created(name()))), "✓ Created schema 'users'");
    assert_eq!(text(&report_schema(&SchemaReport::Dropped(name()))), "✓ Dropped schema 'users'");
    assert_eq!(
        text(&report_schema(&SchemaReport::Linked(name(), "posts".to_string()))),
        "✓ Created relationship users -> posts"
    );
    assert_eq!(text(&report_schema(&SchemaReport::Migrated(3))), "✓ Applied 3 migrations");
}

#[test]
fn comma_separated_values_are_quoted() {
    assert_eq!(csv_field("plain"), "plain");
    assert_eq!(csv_field("a,b"), "\"a,b\"");
    assert_eq!(csv_field("say \"x\""), "\"say \"\"x\"\"\"");
    assert_eq!(csv_field("two\nlines"), "\"two\nlines\"");
    let row = vec!["a".to_string(), "b,c".to_string(), String::new()];
    assert_eq!(csv_line(&row), "a,\"b,c\",");
    assert_eq!(pad("é", 3), "é  ");
    assert_eq!(pad("long", 3), "long");
}

#[test]
fn results_are_rendered_by_format() {
    let columns = vec!["id".to_string(), "x,y".to_string()];
    let rows = vec![vec!["1".to_string(), "a,b".to_string()]];
    let csv = Renderer::new(OutputFormat::Csv);
    assert_eq!(texts(csv.render_results(&columns, &rows)), vec!["id,x,y", "1,\"a,b\""]);
    assert_eq!(texts(csv.render_results(&columns, &[])), vec!["(no results)"]);
    assert_eq!(texts(csv.render_traversal(&columns, &[])), vec!["id,x,y"]);
    let table = Renderer::new(OutputFormat::Table);
    assert!(matches!(table.render_as_table(&columns, &rows), Output::Table));
    assert!(matches!(table.render_as_graph(), Output::Drawing));
    let json = Renderer::new(OutputFormat::Json);
    assert!(matches!(json.render_results(&columns, &rows), Output::Json));
    assert!(matches!(json.render_as_graph(), Output::Json));
}

#[test]
fn nodes_are_rendered_with_their_times() {
    let mut properties = PropertyMap::new();
    properties.insert("name", Value::String("Ann".to_string()));
    properties.insert("age", Value::Int(3));
    let id = NodeId::new();
    let shown = id.to_string();
    let mut node = Node::build(id, Timestamp { millis: 0 }, "user", Value::Object(properties));
    node.updated_at = Timestamp { millis: 1_700_000_000_000 };
    let lines = texts(Renderer::new(OutputFormat::Table).render_node(&node));
    assert_eq!(lines, vec![
        String::new(),
        format!("ID: {}", shown),
        "Type: user".to_string(),
        "Properties:".to_string(),
        "  age: 3".to_string(),
        "  name: \"Ann\"".to_string(),
        "Created: 1970-01-01 00:00:00".to_string(),
        "Updated: 2023-11-14 22:13:20".to_string(),
        String::new(),
    ]);
    assert!(matches!(Renderer::new(OutputFormat::Csv).render_node(&node), Output::Rows));
    assert!(matches!(Renderer::new(OutputFormat::Json).render_node(&node), Output::Json));
    assert_eq!(Timestamp { millis: i64::MAX }.to_string(), "1970-01-01 00:00:00");
}

#[test]
fn keys_and_values_are_rendered() {
    let kv = KvView { entries: vec![("k".to_string(), Value::Float(1.5f64.to_bits()))] };
    assert_eq!(texts(Renderer::new(OutputFormat::Table).render_as_kv(&kv)), vec!["", "k: 1.5", ""]);
    assert_eq!(
        texts(Renderer::new(OutputFormat::Csv).render_as_kv(&kv)),
        vec!["key,value", "k,1.5"]
    );
}

fn schema() -> Schema {
    Schema {
        name: "users".to_string(),
        fields: vec![
            SchemaField {
                name: "name".to_string(),
                field_type: "String".to_string(),
                nullable: false,
                unique: true,
                indexed: true,
                default: Some("x".to_string()),
            },
            SchemaField {
                name: "age".to_string(),
                field_type: "Int".to_string(),
                nullable: true,
                unique: false,
                indexed: false,
                default: None,
            },
        ],
        version: 2,
        sql: "CREATE TABLE users".to_string(),
    }
}

#[test]
fn schemas_are_rendered() {
    let table = Renderer::new(OutputFormat::Table);
    let csv = Renderer::new(OutputFormat::Csv);
    let line = "─".repeat(60);
    assert_eq!(texts(table.render_schema_details(&schema())), vec![
        "",
        "Schema: users",
        "Version: 2",
        "",
        "Fields:",
        line.as_str(),
        "  name String [NOT NULL, UNIQUE, INDEXED, DEFAULT x]",
        "  age Int",
        "",
        "SQL:",
        "CREATE TABLE users",
        "",
    ]);
    assert_eq!(texts(csv.render_schema_details(&schema())), vec![
        "field_name,field_type,nullable,unique,indexed,default",
        "name,String,false,true,true,x",
        "age,Int,true,false,false,",
    ]);
    assert_eq!(texts(table.render_schemas(&[schema()])), vec![
        "",
        "Schemas:",
        line.as_str(),
        "  users (2 fields, v2)",
        "",
    ]);
    assert_eq!(texts(csv.render_schemas(&[schema()])), vec![
        "name,field_count,version",
        "users,2,2",
    ]);
    assert!(matches!(
        Renderer::new(OutputFormat::Json).render_schemas(&[schema()]),
        Output::Json
    ));
}

#[test]
fn search_results_are_rendered() {
    let row = |content: &str| SimilarityRow {
        node_id: "n1".to_string(),
        score: "0.9000".to_string(),
        distance: "0.1000".to_string(),
        content: content.to_string(),
    };
    let table = Renderer::new(OutputFormat::Table);
    assert_eq!(table.places(), 4);
    let lines = texts(table.render_similarity_results(&[row(&"x".repeat(60)), row("")]));
    assert_eq!(lines[1], format!("  {:<4} {:<40} {:<12} {:<12}", "#", "Node ID", "Score", "Distance"));
    assert_eq!(lines[2], format!("  {}", "─".repeat(70)));
    assert_eq!(lines[3], format!("  {:<4} {:<40} {:<12} {:<12}", "1", "n1", "0.9000", "0.1000"));
    assert_eq!(lines[4], format!("       {}...", "x".repeat(47)));
    assert_eq!(lines[5], format!("  {:<4} {:<40} {:<12} {:<12}", "2", "n1", "0.9000", "0.1000"));
    assert_eq!(lines.len(), 7);
    let csv = Renderer::new(OutputFormat::Csv);
    assert_eq!(csv.places(), 6);
    assert_eq!(texts(csv.render_similarity_results(&[row("c")])), vec![
        "rank,node_id,score,distance",
        "1,n1,0.9000,0.1000",
    ]);
    let mut properties = PropertyMap::new();
    properties.insert("title", Value::Int(1));
    properties.insert("text", Value::Int(2));
    match &preview_property(&properties)[..] {
        [Segment::Text(t)] => assert_eq!(t, "2"),
        _ => panic!("Expected one text"),
    }
    assert!(preview_property(&PropertyMap::new()).is_empty());
    match table.render_similarity_results(&[row("c")]) {
        Output::Lines(lines) => assert_eq!(lines[3].spans[1].style, Style::Cyan),
        _ => panic!("Expected lines"),
    }
}
