//! The client: how it connects, and what it makes of the answers of a server.

pub mod answer;
pub mod builder;
pub mod connection;

pub use answer::{Client, ClientError, DatabaseStatus, QueryResult};
pub use builder::ClientBuilder;
pub use connection::{Connection, ConnectionState};
