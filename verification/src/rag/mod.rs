//! # RAG
//!
//! Retrieval-augmented generation: snippet storage and a text index.

pub mod index;
pub mod store;

pub use index::InMemoryIndex;
pub use store::{InMemoryStore, Snippet, SnippetStore};
