//! Semantic search over a library of photos and videos.

pub mod b64;
pub mod commands;
pub mod commit;
pub mod commit_laws;
pub mod config;
pub mod content_hash;
pub mod error;
pub mod float32;
pub mod indexer;
pub mod path;
pub mod platform;
pub mod prepare;
pub mod progress;
pub mod protocol;
pub mod rank;
pub mod rank_laws;
pub mod run_laws;
pub mod runtime;
pub mod schema;
pub mod sidecar;
pub mod sort;
pub mod store;
pub mod store_laws;
pub mod tables;
pub mod text;
pub mod traits;
pub mod types;
pub mod walk;
pub mod whole_run;
