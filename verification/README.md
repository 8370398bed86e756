# AresaDB

A multi-model database engine: key/value, graph and relational data over one property graph,
with vector search, full-text search, sharding, replication and a network server.

The engine's rules are a library that is verified with Verus. A program around it does the
input and output.

## Layout

- `src/` is the library. Every function states what it returns or changes, and the laws that
  hold across functions are public proof functions whose names begin with `law_`.
  - `storage`: values, nodes, edges and the tables they are kept in; transactions; property,
    full-text and vector indexes; tiered payloads and buckets.
  - `distributed`: Bloom filters, compression, the write-ahead log, replication, shards and
    streams.
  - `rag`: chunking, embeddings, context retrieval and hybrid search.
  - `server`, `client`: requests and responses, connections and messages.
  - `cli`, `output`: what the commands decide, and what is shown.
  - `codec`, `text`, `order`, `tally`, `float`, `facts`: what the others are built on.
- `app/` is the program: files, sockets, buckets and the terminal, and arithmetic on
  floating-point numbers.
- `tests/` runs the library.

## How the library meets the disk and the network

An operation on the store takes what was read and returns the changes to make, as a list of
`TableOp`; its contract says what the tables hold once they are made. Work that alternates with
decisions, such as a walk through a vector index or a connection with several attempts, is a
state machine: the program performs a step and hands back what came of it.

Floating-point numbers stand in the library as their bits, or as integers that run in the same
order.

## What is trusted

The hash functions, LZ4, the binary encoding of log records, checksums, UUIDs, the clock and
Unicode's letter case come from other crates and from the standard library. Each is called in
one place, behind a contract that says what is taken for granted.
