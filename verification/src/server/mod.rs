//! The server: requests, responses, connections and messages.

pub mod handler;
pub mod message;
pub mod pool;
pub mod protocol;

pub use handler::RequestHandler;
pub use message::{Server, ServerConfig};
pub use pool::ConnectionPool;
pub use protocol::{ErrorCode, Request, Response};
