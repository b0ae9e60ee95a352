//! A hybrid semantic search engine for source trees.
//!
//! Files are split into bounded, addressable chunks; each chunk is embedded
//! into a fixed-dimension integer vector; chunks, vectors and content
//! fingerprints live in a durable vector store; a synchronizer reconciles the
//! store incrementally against the filesystem; and queries are answered by
//! fusing vector similarity with lexical term overlap.

pub mod chunker;
pub mod codec;
pub mod embed;
pub mod fingerprint;
pub mod order;
pub mod parser;
pub mod score;
pub mod search;
pub mod server;
pub mod store;
pub mod sync;
pub mod text;
pub mod watch;

pub use embed::EmbedMode;
pub use fingerprint::fingerprint64;
pub use search::SearchResult;
pub use store::VectorStore;
pub use sync::SyncReport;
