//! Retrieval-augmented generation: chunking, context and hybrid search.

pub mod chunker;
pub mod context;
pub mod embeddings;
pub mod hybrid;

pub use chunker::{ChunkStrategy, Chunker, DocumentChunk};
pub use context::{ContextChunk, ContextRetriever, RetrievedContext};
pub use embeddings::{EmbeddingManager, LocalHashEmbeddings, OpenAIModel, TfIdfEmbeddings};
pub use hybrid::{HybridSearch, HybridSearchConfig};

use vstd::prelude::*;

verus! {

/// Size of a chunk in characters.
pub const DEFAULT_CHUNK_SIZE: usize = 512;

/// Overlap of neighbouring chunks in characters.
pub const DEFAULT_CHUNK_OVERLAP: usize = 50;

/// Token budget of a retrieved context.
pub const DEFAULT_MAX_CONTEXT_TOKENS: usize = 4096;

} // verus!
