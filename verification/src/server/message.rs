//! Messages on the wire, and the life of a connection.
//!
//! A message is the length of its body in four bytes, the lowest first, and the body, which
//! may be compressed.

use vstd::prelude::*;

use super::handler::{RequestHandler, StorageMode, TransactionsView};
use super::pool::ConnectionPool;
use super::protocol::{is_failure, ErrorCode, Response};
use crate::codec::{
    append_bytes, copy_bytes, get_le32, le32, lemma_le32_len, lemma_le32_round_trip, put_le32,
    read_le32,
};
use crate::distributed::compression::{
    decompressed, law_compression_round_trip, outcome, CompressionError, Compressor,
};
use crate::text::{copy_str, push_str};

verus! {

/// Configuration of a server.
#[derive(Debug)]
pub struct ServerConfig {
    /// Address to listen at.
    pub bind_addr: String,
    /// Largest number of connections.
    pub max_connections: usize,
    /// How long a read may take, in seconds.
    pub read_timeout_secs: u64,
    /// How long a write may take, in seconds.
    pub write_timeout_secs: u64,
    /// Whether messages are compressed.
    pub compression: bool,
}

impl Default for ServerConfig {
    fn default() -> (r: Self)
        ensures
            r.bind_addr@ == "127.0.0.1:7432"@,
            r.max_connections == 1000,
            r.read_timeout_secs == 30,
            r.write_timeout_secs == 30,
            r.compression,
    {
        ServerConfig {
            bind_addr: copy_str("127.0.0.1:7432"),
            max_connections: 1000,
            read_timeout_secs: 30,
            write_timeout_secs: 30,
            compression: true,
        }
    }
}

/// What the server does with a new connection.
#[derive(Debug, Clone, Copy, PartialEq, Eq, Structural)]
pub enum Admission {
    /// It is served.
    Serve,
    /// It is closed: there are too many.
    Reject,
}

/// A server: its configuration, its handler, its connections and whether it is to stop.
#[derive(Debug)]
pub struct Server {
    /// The configuration.
    pub config: ServerConfig,
    /// The handler of requests.
    pub handler: RequestHandler,
    /// The connections.
    pub pool: ConnectionPool,
    /// Whether the server is to stop.
    pub shutdown: bool,
}

impl Server {
    /// Whether this is a new server.
    pub open spec fn fresh(&self, config: ServerConfig, mode: StorageMode) -> bool {
        &&& self.config == config
        &&& self.handler.storage() == mode
        &&& self.handler.transactions() == (TransactionsView { open: Set::empty(), next: 1 })
        &&& self.pool.limit() == config.max_connections
        &&& self.pool.count() == 0
        &&& !self.shutdown
    }

    /// Creates a server of a database.
    pub fn new(config: ServerConfig) -> (r: Self)
        ensures
            r.fresh(config, StorageMode::Database),
    {
        let pool = ConnectionPool::new(config.max_connections);
        Server { config, handler: RequestHandler::new(), pool, shutdown: false }
    }

    /// Creates a server of shards.
    pub fn with_shards(config: ServerConfig) -> (r: Self)
        ensures
            r.fresh(config, StorageMode::Shards),
    {
        let pool = ConnectionPool::new(config.max_connections);
        Server { config, handler: RequestHandler::with_shards(), pool, shutdown: false }
    }

    /// Accepts a new connection while there is room.
    pub fn accept(&mut self) -> (r: Admission)
        ensures
            r == (if old(self).pool.count() < old(self).pool.limit() {
                Admission::Serve
            } else {
                Admission::Reject
            }),
            final(self).config == old(self).config,
            final(self).handler == old(self).handler,
            final(self).shutdown == old(self).shutdown,
            final(self).pool.limit() == old(self).pool.limit(),
            final(self).pool.count() == (if r == Admission::Serve {
                old(self).pool.count() + 1
            } else {
                old(self).pool.count() as int
            }),
    {
        if self.pool.try_acquire() {
            Admission::Serve
        } else {
            Admission::Reject
        }
    }

    /// Asks the server to stop.
    pub fn shutdown(&mut self)
        ensures
            *final(self) == (Server { shutdown: true, ..*old(self) }),
    {
        self.shutdown = true;
    }

    /// Number of connections.
    pub fn connection_count(&self) -> (r: usize)
        ensures
            r == self.pool.count(),
    {
        self.pool.active_count()
    }
}

/// Whether a message carries a body: compressed, or as it is.
pub open spec fn carries(compressor: Option<&Compressor>, body: Seq<u8>, sealed: Seq<u8>) -> bool {
    match compressor {
        Some(c) => c.compresses(body, sealed),
        None => sealed == body,
    }
}

/// What the body of a message opens to.
pub open spec fn opened(compression: bool, body: Seq<u8>) -> Result<Seq<u8>, CompressionError> {
    if compression {
        decompressed(body)
    } else {
        Ok(body)
    }
}

/// The message with a body: its length, as far as four bytes hold it, and the body.
pub open spec fn framed(body: Seq<u8>) -> Seq<u8> {
    le32((body.len() % 0x1_0000_0000) as u32) + body
}

/// A message that was read: the length that its header announces, and the body.
pub open spec fn announced(header: Seq<u8>) -> int {
    read_le32(header, 0)
}

/// Whether the body of a message comes back: nothing is compressed, or compression gives it
/// back.
pub open spec fn restores(compressor: Option<&Compressor>, body: Seq<u8>) -> bool {
    compressor matches Some(c) ==> c.restores(body.len() as int)
}

/// Makes a message. Where its length fits four bytes, the header announces it and the body
/// opens to what was sent.
pub fn send(compressor: Option<&Compressor>, body: &[u8]) -> (r: Vec<u8>)
    requires
        compressor matches Some(c) ==> c.takes(body@.len() as int),
    ensures
        r@.len() >= 4,
        r@ == framed(r@.skip(4)),
        carries(compressor, body@, r@.skip(4)),
        body@.len() <= u32::MAX && r@.len() - 4 < 0x1_0000_0000 ==> announced(r@.take(4))
            == r@.skip(4).len() && opened(compressor is Some, r@.skip(4)) == Ok::<
            Seq<u8>,
            CompressionError,
        >(body@),
{
    let sealed = match compressor {
        Some(c) => c.compress(body),
        None => copy_bytes(body),
    };
    let mut out: Vec<u8> = Vec::new();
    let n: u64 = sealed.len() as u64;
    put_le32(&mut out, (n % 0x1_0000_0000) as u32);
    append_bytes(&mut out, sealed.as_slice());
    assert(out@ =~= framed(sealed@));
    proof {
        lemma_le32_len((n % 0x1_0000_0000) as u32);
        assert(out@.skip(4) =~= sealed@);
        if body@.len() <= u32::MAX && out@.len() - 4 < 0x1_0000_0000 {
            law_message_round_trip(compressor, body@, sealed@);
        }
    }
    out
}

/// The length of the body that a header announces.
pub fn body_length(header: &[u8]) -> (r: u32)
    requires
        header@.len() == 4,
    ensures
        r == announced(header@),
{
    get_le32(header, 0)
}

/// Opens the body of a message.
pub fn receive(compressor: Option<&Compressor>, body: &[u8]) -> (r: Result<
    Vec<u8>,
    CompressionError,
>)
    ensures
        outcome(r) == opened(compressor is Some, body@),
{
    match compressor {
        Some(c) => c.decompress(body),
        None => Ok(copy_bytes(body)),
    }
}

/// What a connection does next.
#[derive(Debug, Clone, Copy, PartialEq, Eq, Structural)]
pub enum Continuation {
    /// It waits for the next request.
    Wait,
    /// It ends.
    Close,
    /// It ends with the failure that was met.
    Fail,
}

/// What a connection does when reading a header failed: the end of the stream ends it.
pub fn after_header_failure(end_of_stream: bool) -> (r: Continuation)
    ensures
        r == (if end_of_stream {
            Continuation::Close
        } else {
            Continuation::Fail
        }),
{
    if end_of_stream {
        Continuation::Close
    } else {
        Continuation::Fail
    }
}

/// What a connection does once a response is sent: it ends after a goodbye.
pub fn after_response(response: &Response) -> (r: Continuation)
    ensures
        r == (if *response is Goodbye {
            Continuation::Close
        } else {
            Continuation::Wait
        }),
{
    match response {
        Response::Goodbye => Continuation::Close,
        _ => Continuation::Wait,
    }
}

/// The response to a request that could not be parsed.
pub fn unparsed(reason: &str) -> (r: Response)
    ensures
        is_failure(r, ErrorCode::InvalidRequest, "Failed to parse request: "@ + reason@),
{
    let mut m = copy_str("Failed to parse request: ");
    push_str(&mut m, reason);
    Response::error(ErrorCode::InvalidRequest, m.as_str())
}

/// What one side sends the other receives: the header announces the length of what follows it,
/// and that opens to the body that was sent. Compression has to give the body back, and the
/// length of what is sent has to fit four bytes.
pub proof fn law_message_round_trip(
    compressor: Option<&Compressor>,
    body: Seq<u8>,
    sealed: Seq<u8>,
)
    requires
        carries(compressor, body, sealed),
        restores(compressor, body),
        sealed.len() < 0x1_0000_0000,
    ensures
        announced(framed(sealed).take(4)) == framed(sealed).skip(4).len(),
        opened(compressor is Some, framed(sealed).skip(4)) == Ok::<Seq<u8>, CompressionError>(body),
{
    let n = (sealed.len() % 0x1_0000_0000) as u32;
    let message = framed(sealed);
    lemma_le32_len(n);
    assert(message.skip(4) =~= sealed);
    assert(message.take(4).subrange(0, 4) =~= le32(n));
    lemma_le32_round_trip(message.take(4), 0, n);
    if compressor is Some {
        law_compression_round_trip(compressor->0, body, sealed);
    }
}

} // verus!
