//! Compressed vectors and the memory of an agent that is searched through them.
//!
//! The vectors are compressed in three steps: a rotation, a quantizer (one
//! scalar at a time, or pairs in polar form), and the signs of a projection of
//! what the quantizer lost. On top of the compressed vectors stand an index kept
//! in two files, the ranking and the selection of documents under a token
//! budget, and the memories of a session and of a project.
//!
//! A 32-bit float is held as its bit pattern ([`scalar::Scalar`]): this crate
//! decides by the order of such values, and takes the arithmetic on them as
//! functions from the caller. The contracts are stated over those functions.
pub mod budget;
pub mod bytes;
pub mod code_embedder;
pub mod compression;
pub mod digest;
pub mod document;
pub mod embedder;
pub mod error;
pub mod folding;
pub mod index;
pub mod index_laws;
pub mod json;
pub mod meta;
pub mod persistent;
pub mod ranker;
pub mod recall_laws;
pub mod scalar;
pub mod search;
pub mod server;
pub mod session;
pub mod sorting;
pub mod storage;
pub mod string_map;
pub mod synchronization;
pub mod text;
pub mod tokenizing;
pub mod turboquant;

pub use crate::compression::lloyd_max::{LloydMaxQuantizer, ScalarQuantVector};
pub use crate::compression::polarquant::{PolarQuantizer, PolarVector};
pub use crate::compression::qjl::{BitVector, QjlCompressor};
pub use crate::document::{Document, DocumentType, MemoryStats, RecallResult, SyncStats};
pub use crate::embedder::{MockEmbedder, OnnxEmbedder};
pub use crate::error::{AgentMemoryError, TurboError};
pub use crate::index::{SearchResult, TurboIndex};
pub use crate::persistent::PersistentMemory;
pub use crate::session::SessionMemory;
pub use crate::storage::VectorStorage;
pub use crate::turboquant::{
    LloydMaxCompressor, LloydMaxVector, PreparedQuery, TurboQuantCompressor, TurboQuantVector,
};
